use rigbake::animation::{
    can_resample, find_key, is_clip_ready, is_track_ready, key_at, keys_match, resample, Animation,
    Animations, Keyframe, Ratio, Sample,
};
use rigbake::document::{BindData, Document, Joint, Track, ROOT_JOINT_PARENT_INDEX};
use rigbake::matrix::Matrix4;
use rigbake::skeleton::Skeleton;

fn pose(seed: f32) -> Matrix4 {
    let mut m = Matrix4::identity();
    m.m[1][3] = seed.to_bits();
    m
}

fn sample(start_time: i64, idx_keyframe: usize, num: i128, den: i128) -> Sample {
    Sample { start_time, idx_keyframe, alpha: Ratio { num, den } }
}

fn document(root_name: &str, times: Vec<i64>) -> Document {
    Document {
        objects: None,
        skeletons: Some(vec![vec![
            Joint { name: root_name.to_string(), parent_index: ROOT_JOINT_PARENT_INDEX },
            Joint { name: "Rig_Arm".to_string(), parent_index: 0 },
            Joint { name: "Rig_End".to_string(), parent_index: 1 },
        ]]),
        bind_data: Some(vec![BindData {
            skeleton_name: Some("Rig".to_string()),
            joint_names: vec!["Root".to_string(), "Arm".to_string()],
            vertex_weights: vec![],
            weights: vec![],
            inverse_bind_poses: vec![pose(1.0), pose(2.0)],
        }]),
        animations: Some(vec![
            Track { target: "Rig_Root/transform".to_string(), sample_times: times },
            Track { target: "Rig_Arm/transform".to_string(), sample_times: vec![] },
        ]),
    }
}

/// Keyframes for the samples of a track: keyframe `k` holds `bones`
/// matrices, each marked with `k`.
fn keys_for(times: &Vec<i64>, frame_time: i64, bones: usize) -> Vec<Keyframe> {
    resample(times, frame_time)
        .iter()
        .enumerate()
        .map(|(k, s)| Keyframe { transforms: vec![pose(k as f32); bones], start_time: s.start_time })
        .collect()
}

fn clip(name: &str, root_name: &str, times: Vec<i64>, frame_time: i64) -> Animations {
    let doc = document(root_name, times.clone());
    let bones = Skeleton::from(&doc).unwrap().get_num_vertices_attached_bones();
    let keys = keys_for(&times, frame_time, bones);
    assert!(is_clip_ready(&doc, frame_time, &keys));
    Animations::new(name, &doc, frame_time, keys).unwrap()
}

#[test]
fn resample_walks_the_segments() {
    assert_eq!(
        resample(&vec![0, 10, 20], 4),
        vec![
            sample(0, 1, 0, 10),
            sample(4, 1, 4, 10),
            sample(8, 1, 8, 10),
            sample(12, 2, 2, 10),
            sample(16, 2, 6, 10),
            sample(20, 2, 10, 10),
            sample(20, 2, 1, 1),
        ]
    );
}

#[test]
fn resample_steps_that_do_not_divide_the_duration() {
    assert_eq!(
        resample(&vec![0, 10], 4),
        vec![sample(0, 1, 0, 10), sample(4, 1, 4, 10), sample(8, 1, 8, 10), sample(10, 1, 1, 1)]
    );
    assert_eq!(resample(&vec![0, 10], 11), vec![sample(0, 1, 0, 10), sample(10, 1, 1, 1)]);
}

#[test]
fn key_count_is_whole_steps_plus_two() {
    for (times, frame_time) in [
        (vec![0i64, 10], 1i64),
        (vec![0, 10], 3),
        (vec![0, 10], 10),
        (vec![0, 10], 11),
        (vec![0, 5, 33], 33),
        (vec![0, 5, 33], 2),
        (vec![100, 1000, 1001], 7),
        (vec![-50, 0, 50], 9),
        (vec![4, 4], 5),
    ] {
        let duration = times[times.len() - 1] - times[0];
        assert!(can_resample(&times, frame_time));
        let samples = resample(&times, frame_time);
        assert_eq!(samples.len() as i64, duration / frame_time + 2);
        for (k, s) in samples.iter().enumerate() {
            if k + 1 < samples.len() {
                assert_eq!(s.start_time, k as i64 * frame_time);
            } else {
                assert_eq!(s.start_time, duration);
            }
            assert!(1 <= s.idx_keyframe && s.idx_keyframe < times.len());
            assert!(s.alpha.den > 0);
            if k > 0 {
                assert!(samples[k - 1].idx_keyframe <= s.idx_keyframe);
            }
        }
    }
}

#[test]
fn frame_that_crosses_two_boundaries_takes_the_segment_of_its_time() {
    // The step is longer than the segments: each frame takes the segment
    // that brackets its time, not the one after the last frame's.
    assert_eq!(
        resample(&vec![0, 1, 2, 3], 2),
        vec![sample(0, 1, 0, 1), sample(2, 3, 0, 1), sample(3, 3, 1, 1)]
    );
    assert_eq!(
        resample(&vec![0, 1, 2, 3, 4, 5, 6], 3),
        vec![sample(0, 1, 0, 1), sample(3, 4, 0, 1), sample(6, 6, 1, 1), sample(6, 6, 1, 1)]
    );
    assert_eq!(
        resample(&vec![0, 1, 2, 10, 11, 12, 30], 5),
        vec![
            sample(0, 1, 0, 1),
            sample(5, 3, 3, 8),
            sample(10, 4, 0, 1),
            sample(15, 6, 3, 18),
            sample(20, 6, 8, 18),
            sample(25, 6, 13, 18),
            sample(30, 6, 18, 18),
            sample(30, 6, 1, 1),
        ]
    );
}

#[test]
fn alpha_lies_between_zero_and_one_for_rising_times() {
    for (times, frame_time) in [
        (vec![0i64, 1, 2, 3, 4, 5, 6], 3i64),
        (vec![0, 1, 2, 3, 4, 5, 6], 7),
        (vec![0, 0, 0, 5, 5, 9], 2),
        (vec![0, 100], 1),
        (vec![0, 3, 4, 4, 4, 50], 11),
    ] {
        for s in resample(&times, frame_time) {
            assert!(0 <= s.alpha.num && s.alpha.num <= s.alpha.den);
            assert!(times[s.idx_keyframe - 1] <= s.start_time);
            assert!(s.start_time <= times[s.idx_keyframe]);
        }
    }
}

#[test]
fn last_sample_takes_the_end_of_the_last_segment() {
    assert_eq!(
        resample(&vec![0, 7, 9], 20),
        vec![sample(0, 1, 0, 7), sample(9, 2, 1, 1)]
    );
}

#[test]
fn segment_without_length_has_alpha_zero() {
    assert_eq!(resample(&vec![5, 5], 3), vec![sample(0, 1, 0, 1), sample(0, 1, 1, 1)]);
    assert_eq!(
        resample(&vec![0, 0, 4], 4),
        vec![sample(0, 2, 0, 4), sample(4, 2, 4, 4), sample(4, 2, 1, 1)]
    );
}

#[test]
fn track_that_does_not_start_at_zero() {
    // Output times count from 0, sample times are taken as they are.
    assert_eq!(
        resample(&vec![2, 4, 6], 2),
        vec![sample(0, 1, -2, 2), sample(2, 1, 0, 2), sample(4, 2, 0, 2), sample(4, 2, 1, 1)]
    );
}

#[test]
fn track_that_runs_backwards_has_one_keyframe() {
    assert_eq!(resample(&vec![5, 1], 2), vec![sample(-4, 1, 1, 1)]);
}

#[test]
fn tracks_that_cannot_be_resampled() {
    assert!(!can_resample(&vec![], 1));
    assert!(!can_resample(&vec![3], 1));
    assert!(!can_resample(&vec![0, 10], 0));
    assert!(!can_resample(&vec![0, 10], -1));
    assert!(!can_resample(&vec![i64::MIN, i64::MAX], 1));
    assert!(!can_resample(&vec![-2, 0, i64::MAX], 1));
    assert!(!can_resample(&vec![i64::MAX, -2], 1));
    assert!(can_resample(&vec![i64::MAX, -1], 1));
    assert_eq!(resample(&vec![i64::MAX, -1], 1), vec![sample(i64::MIN, 1, 1, 1)]);
    assert!(can_resample(&vec![0, i64::MAX], i64::MAX));
    assert!(can_resample(&vec![i64::MAX, 0], 1));
    assert_eq!(
        resample(&vec![0, i64::MAX], i64::MAX),
        vec![
            sample(0, 1, 0, i64::MAX as i128),
            sample(i64::MAX, 1, i64::MAX as i128, i64::MAX as i128),
            sample(i64::MAX, 1, 1, 1)
        ]
    );
}

#[test]
fn animation_holds_the_keyframes_it_was_given() {
    let doc = document("Rig_Root", vec![0, 10, 20]);
    let skeleton = Skeleton::from(&doc).unwrap();
    let tracks = doc.animations.as_ref().unwrap();
    let keys = keys_for(&tracks[0].sample_times, 4, 2);
    assert!(keys_match(&skeleton, &tracks[0].sample_times, 4, &keys));
    let animation = Animation::new(&skeleton, tracks, 4, keys);
    assert_eq!(animation.get_duration(), 20);
    assert_eq!(animation.get_frame_time(), 4);
    assert_eq!(animation.get_keys().len(), 7);
    for (k, key) in animation.get_keys().iter().enumerate() {
        assert_eq!(key.transforms.len(), skeleton.get_num_vertices_attached_bones());
        assert!(key.transforms[0] == pose(k as f32));
    }
}

#[test]
fn query_selects_the_keyframe_of_the_time() {
    let doc = document("Rig_Root", vec![0, 10, 20]);
    let skeleton = Skeleton::from(&doc).unwrap();
    let tracks = doc.animations.as_ref().unwrap();
    let animation = Animation::new(&skeleton, tracks, 4, keys_for(&tracks[0].sample_times, 4, 2));
    let at = |time: i64| f32::from_bits(animation.query(time)[0].m[1][3]);
    assert_eq!(at(0), 0.0);
    assert_eq!(at(-1), 0.0);
    assert_eq!(at(i64::MIN), 0.0);
    assert_eq!(at(1), 0.0);
    assert_eq!(at(3), 0.0);
    assert_eq!(at(4), 1.0);
    assert_eq!(at(7), 1.0);
    assert_eq!(at(11), 2.0);
    assert_eq!(at(16), 4.0);
    assert_eq!(at(19), 4.0);
    assert_eq!(at(20), 6.0);
    assert_eq!(at(21), 6.0);
    assert_eq!(at(i64::MAX), 6.0);
}

#[test]
fn query_at_the_ends_gives_the_first_and_the_last_keyframe() {
    for (times, frame_time) in
        [(vec![0i64, 10], 3i64), (vec![0, 10], 10), (vec![0, 10], 25), (vec![7, 8, 100], 1)]
    {
        let doc = document("Rig_Root", times.clone());
        let skeleton = Skeleton::from(&doc).unwrap();
        let tracks = doc.animations.as_ref().unwrap();
        let animation =
            Animation::new(&skeleton, tracks, frame_time, keys_for(&times, frame_time, 2));
        let keys = animation.get_keys();
        assert!(std::ptr::eq(animation.query(0), &keys[0].transforms));
        assert!(std::ptr::eq(
            animation.query(animation.get_duration()),
            &keys[keys.len() - 1].transforms
        ));
    }
}

#[test]
fn keys_that_do_not_fit_are_told_apart() {
    let doc = document("Rig_Root", vec![0, 10, 20]);
    let skeleton = Skeleton::from(&doc).unwrap();
    let times = vec![0, 10, 20];
    assert!(keys_match(&skeleton, &times, 4, &keys_for(&times, 4, 2)));
    // A matrix too few or too many in one keyframe.
    assert!(!keys_match(&skeleton, &times, 4, &keys_for(&times, 4, 1)));
    assert!(!keys_match(&skeleton, &times, 4, &keys_for(&times, 4, 3)));
    let mut keys = keys_for(&times, 4, 2);
    keys[3].transforms.pop();
    assert!(!keys_match(&skeleton, &times, 4, &keys));
    // A keyframe too few or too many.
    let mut keys = keys_for(&times, 4, 2);
    keys.pop();
    assert!(!keys_match(&skeleton, &times, 4, &keys));
    assert!(!keys_match(&skeleton, &times, 4, &vec![]));
    assert!(!keys_match(&skeleton, &times, 4, &keys_for(&times, 5, 2)));
    // A keyframe at another time.
    let mut keys = keys_for(&times, 4, 2);
    keys[2].start_time = 9;
    assert!(!keys_match(&skeleton, &times, 4, &keys));
    let mut keys = keys_for(&times, 4, 2);
    keys[6].start_time = 24;
    assert!(!keys_match(&skeleton, &times, 4, &keys));
}

#[test]
fn keyframes_compare_by_their_time() {
    let a = Keyframe { transforms: vec![pose(1.0)], start_time: 5 };
    let b = Keyframe { transforms: vec![], start_time: 5 };
    let c = Keyframe { transforms: vec![pose(1.0)], start_time: 6 };
    assert!(a == b);
    assert!(a != c);
}

#[test]
fn animations_new_makes_one_clip() {
    let animations = clip("walk", "Rig_Root", vec![0, 10, 20], 4);
    assert_eq!(animations.len(), 1);
    let walk = animations.get_animation("walk").unwrap();
    assert_eq!(walk.get_duration(), 20);
    assert_eq!(walk.get_keys().len(), 7);
    assert!(animations.get_animation("run").is_none());
    assert!(animations.get_animation("").is_none());
    assert!(animations.query("walk", 12)[1] == pose(3.0));
    assert!(*animations.get_skeleton() == Skeleton::from(&document("Rig_Root", vec![])).unwrap());
}

#[test]
fn animations_new_gives_none_without_skeleton_or_animations() {
    let mut doc = document("Rig_Root", vec![0, 10]);
    doc.animations = None;
    assert!(is_clip_ready(&doc, 4, &vec![]));
    assert!(Animations::new("walk", &doc, 4, vec![]).is_none());

    let mut doc = document("Rig_Root", vec![0, 10]);
    doc.skeletons = None;
    assert!(is_clip_ready(&doc, 4, &vec![]));
    assert!(Animations::new("walk", &doc, 4, vec![]).is_none());

    let mut doc = document("Rig_Root", vec![0, 10]);
    doc.bind_data = None;
    assert!(is_clip_ready(&doc, 0, &vec![]));
    assert!(Animations::new("walk", &doc, 0, vec![]).is_none());
}

#[test]
fn clips_that_cannot_be_made_are_told_apart() {
    let doc = document("Rig_Root", vec![0, 10]);
    assert!(is_track_ready(&doc, 4));
    assert!(!is_track_ready(&doc, 0));
    assert!(!is_clip_ready(&doc, 0, &vec![]));
    assert!(!is_clip_ready(&doc, 4, &vec![]));
    assert!(is_clip_ready(&doc, 4, &keys_for(&vec![0, 10], 4, 2)));
    assert!(!is_clip_ready(&doc, 4, &keys_for(&vec![0, 10], 4, 3)));

    let short = document("Rig_Root", vec![0]);
    assert!(!is_track_ready(&short, 4));
    let mut none = document("Rig_Root", vec![0, 10]);
    none.animations = Some(vec![]);
    assert!(!is_track_ready(&none, 4));
    let mut unordered = document("Rig_Root", vec![0, 10]);
    unordered.skeletons.as_mut().unwrap()[0][1].parent_index = 2;
    assert!(!is_track_ready(&unordered, 4));
}

#[test]
fn append_adds_the_clip_under_its_name() {
    let mut animations = clip("idle", "Rig_Root", vec![0, 10, 20], 4);
    let walk = clip("walk", "Rig_Root", vec![0, 30], 7);
    assert!(animations.accepts(&walk));
    animations.append(walk);
    assert_eq!(animations.len(), 2);
    assert_eq!(animations.get_animation("idle").unwrap().get_duration(), 20);
    assert_eq!(animations.get_animation("idle").unwrap().get_keys().len(), 7);
    assert_eq!(animations.get_animation("walk").unwrap().get_duration(), 30);
    assert_eq!(animations.get_animation("walk").unwrap().get_frame_time(), 7);
    assert!(animations.query("idle", 12)[0] == pose(3.0));
    assert!(animations.query("walk", 29)[0] == pose(4.0));
    assert!(animations.query("walk", 30)[0] == pose(5.0));

    let run = clip("run", "Rig_Root", vec![0, 8], 8);
    assert!(animations.accepts(&run));
    animations.append(run);
    assert_eq!(animations.len(), 3);
    assert_eq!(animations.get_animation("idle").unwrap().get_duration(), 20);
    assert_eq!(animations.get_animation("walk").unwrap().get_duration(), 30);
    assert_eq!(animations.get_animation("run").unwrap().get_duration(), 8);
}

#[test]
fn append_replaces_a_clip_of_the_same_name() {
    let mut animations = clip("idle", "Rig_Root", vec![0, 10, 20], 4);
    animations.append(clip("walk", "Rig_Root", vec![0, 30], 7));
    let again = clip("idle", "Rig_Root", vec![0, 50], 5);
    assert!(animations.accepts(&again));
    animations.append(again);
    assert_eq!(animations.len(), 2);
    assert_eq!(animations.get_animation("idle").unwrap().get_duration(), 50);
    assert_eq!(animations.get_animation("walk").unwrap().get_duration(), 30);
}

#[test]
fn clips_of_another_skeleton_or_more_than_one_are_not_accepted() {
    let animations = clip("idle", "Rig_Root", vec![0, 10, 20], 4);
    let other_rig = clip("walk", "Rig_Base", vec![0, 30], 7);
    assert!(!animations.accepts(&other_rig));
    assert!(!other_rig.accepts(&animations));

    let mut two = clip("walk", "Rig_Root", vec![0, 30], 7);
    two.append(clip("run", "Rig_Root", vec![0, 8], 8));
    assert!(!animations.accepts(&two));
    assert!(two.accepts(&animations));
}

#[test]
fn find_key_selects_by_whole_steps() {
    // Keyframes at 0, 4, 8 and 10.
    assert_eq!(find_key(10, 4, 4, -3), Some(0));
    assert_eq!(find_key(10, 4, 4, 0), Some(0));
    assert_eq!(find_key(10, 4, 4, 3), Some(0));
    assert_eq!(find_key(10, 4, 4, 4), Some(1));
    assert_eq!(find_key(10, 4, 4, 9), Some(2));
    assert_eq!(find_key(10, 4, 4, 10), Some(3));
    assert_eq!(find_key(10, 4, 4, 11), Some(3));
    assert_eq!(key_at(10, 4, 4, 9), 2);
    // Another number of keyframes, or no step.
    assert_eq!(find_key(10, 4, 3, 5), None);
    assert_eq!(find_key(10, 4, 5, 5), None);
    assert_eq!(find_key(10, 0, 4, 5), None);
    assert_eq!(find_key(10, -4, 4, 5), None);
    assert_eq!(find_key(-1, 4, 1, 5), Some(0));
    assert_eq!(find_key(-1, 4, 2, 5), None);
    assert_eq!(find_key(i64::MAX, 1, usize::MAX, 5), None);
    assert_eq!(find_key(0, 7, 2, 5), Some(1));
    assert_eq!(find_key(0, 7, 2, 0), Some(0));
}

#[test]
fn keyframes_are_ordered_by_their_time() {
    let a = Keyframe { transforms: vec![], start_time: 5 };
    let b = Keyframe { transforms: vec![pose(1.0)], start_time: 6 };
    assert!(a < b);
    assert!(b > a);
    assert!(a <= a);
    assert_eq!(a.partial_cmp(&b), Some(std::cmp::Ordering::Less));
    assert_eq!(b.partial_cmp(&a), Some(std::cmp::Ordering::Greater));
    assert_eq!(a.partial_cmp(&a), Some(std::cmp::Ordering::Equal));
}

#[test]
fn names_of_the_clips() {
    let mut animations = clip("idle", "Rig_Root", vec![0, 10, 20], 4);
    animations.append(clip("walk", "Rig_Root", vec![0, 30], 7));
    animations.append(clip("idle", "Rig_Root", vec![0, 30], 7));
    let mut names = animations.get_names();
    names.sort();
    assert_eq!(names, vec!["idle".to_string(), "walk".to_string()]);
}

#[test]
fn try_append_merges_or_leaves_the_set_as_it_was() {
    let mut animations = clip("idle", "Rig_Root", vec![0, 10, 20], 4);
    assert!(animations.try_append(clip("walk", "Rig_Root", vec![0, 30], 7)));
    assert_eq!(animations.len(), 2);

    // Another skeleton: nothing of the other set comes in.
    assert!(!animations.try_append(clip("run", "Rig_Base", vec![0, 30], 7)));
    assert_eq!(animations.len(), 2);
    assert!(animations.get_animation("run").is_none());
    assert_eq!(animations.get_animation("walk").unwrap().get_duration(), 30);

    // More than one clip: none of them comes in.
    let mut two = clip("run", "Rig_Root", vec![0, 8], 8);
    two.append(clip("jump", "Rig_Root", vec![0, 9], 9));
    assert!(!animations.try_append(two));
    assert_eq!(animations.len(), 2);
    assert!(animations.get_animation("run").is_none());
    assert!(animations.get_animation("jump").is_none());
    assert_eq!(animations.get_animation("idle").unwrap().get_duration(), 20);
}
