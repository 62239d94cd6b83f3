use rigbake::document::{BindData, Document, Joint, Track, ROOT_JOINT_PARENT_INDEX};
use rigbake::matrix::Matrix4;
use rigbake::animation::resample;
use rigbake::propagation::{
    bake, bake_animation, compute_final_transforms, find_local_track, local_tracks,
    recursive_final_transforms, scatter, Step,
};
use rigbake::skeleton::{Bone, Skeleton};

fn pose(seed: f32) -> Matrix4 {
    let mut m = Matrix4::identity();
    m.m[0][3] = seed.to_bits();
    m
}

fn track(target: &str) -> Track {
    Track { target: target.to_string(), sample_times: vec![0, 10] }
}

fn rig(bind_names: &[&str]) -> Skeleton {
    let joints: Vec<Joint> = [
        ("Rig_Root", ROOT_JOINT_PARENT_INDEX),
        ("Rig_Spine", 0),
        ("Rig_Helper", 1),
        ("Rig_Arm", 1),
        ("Rig_Tail", 0),
    ]
    .iter()
    .map(|(name, parent_index)| Joint { name: name.to_string(), parent_index: *parent_index })
    .collect();
    let doc = Document {
        objects: None,
        skeletons: Some(vec![joints]),
        bind_data: Some(vec![BindData {
            skeleton_name: Some("Rig".to_string()),
            joint_names: bind_names.iter().map(|s| s.to_string()).collect(),
            vertex_weights: vec![],
            weights: vec![],
            inverse_bind_poses: (0..bind_names.len()).map(|i| pose(i as f32)).collect(),
        }]),
        animations: None,
    };
    Skeleton::from(&doc).unwrap()
}

fn tracks() -> Vec<Track> {
    vec![
        track("Rig_Tail/transform"),
        track("Rig_Root/transform"),
        track("Rig_Arm/transform"),
        track("Rig_Spine/transform"),
        track("Rig_Helper/transform"),
    ]
}

#[test]
fn plan_walks_parents_before_children() {
    let skeleton = rig(&["Arm", "Root", "Tail", "Spine"]);
    let plan = compute_final_transforms(&skeleton, &tracks()).unwrap();
    assert_eq!(plan.outputs, 4);
    assert_eq!(
        plan.steps,
        vec![
            Step { bone: 0, parent: None, track: 1, output: Some(1), inverse_bind_pose: pose(1.0) },
            Step { bone: 1, parent: Some(0), track: 3, output: Some(3), inverse_bind_pose: pose(3.0) },
            Step { bone: 2, parent: Some(1), track: 4, output: None, inverse_bind_pose: pose(3.0) },
            Step { bone: 3, parent: Some(1), track: 2, output: Some(0), inverse_bind_pose: pose(0.0) },
            Step { bone: 4, parent: Some(0), track: 0, output: Some(2), inverse_bind_pose: pose(2.0) },
        ]
    );
}

#[test]
fn plan_has_one_output_for_each_bone_with_vertices() {
    let skeleton = rig(&["Arm", "Root", "Tail", "Spine"]);
    let plan = compute_final_transforms(&skeleton, &tracks()).unwrap();
    assert_eq!(plan.outputs, skeleton.get_num_vertices_attached_bones());
    assert_eq!(plan.steps.len(), skeleton.get_joint_names().len());
    let mut seen = vec![false; plan.outputs];
    for (i, step) in plan.steps.iter().enumerate() {
        match step.parent {
            Some(p) => assert!(p < i),
            None => assert_eq!(i, 0),
        }
        if let Some(slot) = step.output {
            assert!(!seen[slot]);
            seen[slot] = true;
        }
    }
    assert!(seen.iter().all(|s| *s));
}

#[test]
fn last_track_of_a_joint_gives_its_pose() {
    let mut all = tracks();
    all.push(track("Rig_Spine/other"));
    assert_eq!(find_local_track(&all, "Rig_Spine"), Some(5));
    assert_eq!(find_local_track(&all, "Rig_Root"), Some(1));
    assert_eq!(find_local_track(&all, "Rig_Nobody"), None);
    assert_eq!(find_local_track(&vec![], "Rig_Root"), None);
    let skeleton = rig(&["Root"]);
    assert_eq!(
        local_tracks(skeleton.get_joint_names(), &all),
        vec![Some(1), Some(5), Some(4), Some(2), Some(0)]
    );
    let plan = compute_final_transforms(&skeleton, &all).unwrap();
    assert_eq!(plan.steps[1].track, 5);
}

#[test]
fn bone_without_track_stops_the_plan() {
    let skeleton = rig(&["Arm", "Root", "Tail", "Spine"]);
    let mut some = tracks();
    some.remove(4);
    assert!(compute_final_transforms(&skeleton, &some).is_none());
    assert!(compute_final_transforms(&skeleton, &vec![]).is_none());
}

#[test]
fn skeleton_without_root_has_no_plan() {
    assert!(compute_final_transforms(&Skeleton::new(), &tracks()).is_none());
}

#[test]
fn output_slot_beyond_the_outputs_stops_the_plan() {
    // "Nobody" matches no joint, so two bones have vertices attached, and
    // the slot of the spine is 2.
    let skeleton = rig(&["Root", "Nobody", "Spine"]);
    assert_eq!(skeleton.get_num_vertices_attached_bones(), 2);
    assert!(compute_final_transforms(&skeleton, &tracks()).is_none());
}

#[test]
fn walk_of_a_subtree_appends_its_steps() {
    let mut top = Bone::new(1, None, pose(1.0), true, Some(0));
    top.add(&Bone::new(0, Some(1), pose(2.0), false, None));
    let local = vec![Some(7), Some(8)];
    let mut steps = vec![Step {
        bone: 9,
        parent: None,
        track: 0,
        output: None,
        inverse_bind_pose: pose(0.0),
    }];
    assert!(recursive_final_transforms(&top, Some(0), &local, 1, &mut steps));
    assert_eq!(steps.len(), 3);
    assert_eq!(
        steps[1],
        Step { bone: 1, parent: Some(0), track: 8, output: Some(0), inverse_bind_pose: pose(1.0) }
    );
    assert_eq!(
        steps[2],
        Step { bone: 0, parent: Some(1), track: 7, output: None, inverse_bind_pose: pose(2.0) }
    );

    // A bone with vertices attached but without an output slot.
    let odd = Bone::new(0, None, pose(1.0), true, None);
    assert!(!recursive_final_transforms(&odd, None, &local, 1, &mut vec![]));
    // A name index beyond the local poses.
    let far = Bone::new(2, None, pose(1.0), false, None);
    assert!(!recursive_final_transforms(&far, None, &local, 1, &mut vec![]));
    // A bone without a local pose.
    let bare = Bone::new(0, None, pose(1.0), false, None);
    assert!(!recursive_final_transforms(&bare, None, &vec![None], 1, &mut vec![]));
}

fn step(output: Option<usize>) -> Step {
    Step { bone: 0, parent: None, track: 0, output, inverse_bind_pose: pose(0.0) }
}

#[test]
fn scatter_puts_each_final_matrix_at_its_slot() {
    let steps = vec![step(Some(2)), step(None), step(Some(0)), step(Some(3))];
    let finals = vec![pose(10.0), pose(11.0), pose(12.0), pose(13.0)];
    assert_eq!(
        scatter(&steps, 5, &finals),
        Some(vec![pose(12.0), Matrix4::identity(), pose(10.0), pose(13.0), Matrix4::identity()])
    );
    // A slot that is given twice holds the matrix of the later step.
    let twice = vec![step(Some(1)), step(Some(1))];
    assert_eq!(
        scatter(&twice, 2, &vec![pose(1.0), pose(2.0)]),
        Some(vec![Matrix4::identity(), pose(2.0)])
    );
    assert_eq!(scatter(&vec![], 2, &vec![]), Some(vec![Matrix4::identity(); 2]));
    assert_eq!(scatter(&vec![], 0, &vec![]), Some(vec![]));
    // A final matrix too few or too many, or a slot that is not there.
    assert_eq!(scatter(&steps, 5, &finals[..3].to_vec()), None);
    assert_eq!(scatter(&vec![], 2, &vec![pose(1.0)]), None);
    assert_eq!(scatter(&steps, 3, &finals), None);
}

#[test]
fn bake_makes_keyframes_with_one_matrix_for_each_bone_with_vertices() {
    // Five bones, four of them with vertices attached.
    let skeleton = rig(&["Arm", "Root", "Tail", "Spine"]);
    let mut all = tracks();
    all[0].sample_times = vec![0, 4, 10];
    let samples = resample(&all[0].sample_times, 4);
    let finals: Vec<Vec<Matrix4>> = (0..samples.len())
        .map(|k| (0..5).map(|i| pose((10 * k + i) as f32)).collect())
        .collect();
    let keys = bake(&skeleton, &all, 4, &finals).unwrap();
    assert_eq!(keys.len(), 4);
    for (k, key) in keys.iter().enumerate() {
        assert_eq!(key.start_time, samples[k].start_time);
        assert_eq!(key.transforms.len(), 4);
        let at = |i: usize| pose((10 * k + i) as f32);
        // The steps are those of root, spine, helper, arm and tail; their
        // slots are 1, 3, none, 0 and 2.
        assert_eq!(key.transforms, vec![at(3), at(0), at(4), at(1)]);
    }
    let animation = bake_animation(&skeleton, &all, 4, &finals).unwrap();
    assert_eq!(animation.get_duration(), 10);
    assert_eq!(animation.get_keys().len(), 4);
    assert_eq!(animation.query(5)[0], pose(13.0));
    assert_eq!(animation.query(10).len(), skeleton.get_num_vertices_attached_bones());
}

#[test]
fn bake_refuses_final_matrices_that_do_not_fit_the_walk() {
    let skeleton = rig(&["Arm", "Root", "Tail", "Spine"]);
    let mut all = tracks();
    all[0].sample_times = vec![0, 4, 10];
    let good: Vec<Vec<Matrix4>> = vec![vec![pose(0.0); 5]; 4];
    assert!(bake(&skeleton, &all, 4, &good).is_some());
    // A keyframe too few or too many.
    assert!(bake(&skeleton, &all, 4, &good[..3].to_vec()).is_none());
    assert!(bake(&skeleton, &all, 4, &vec![vec![pose(0.0); 5]; 5]).is_none());
    // One matrix for each output slot in place of one for each step.
    assert!(bake(&skeleton, &all, 4, &vec![vec![pose(0.0); 4]; 4]).is_none());
    let mut short = good.clone();
    short[2].pop();
    assert!(bake(&skeleton, &all, 4, &short).is_none());
    assert!(bake_animation(&skeleton, &all, 4, &short).is_none());
    // A skeleton that cannot be walked.
    let mut some = all;
    some.remove(4);
    assert!(bake(&skeleton, &some, 4, &good).is_none());
}
