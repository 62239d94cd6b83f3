use rigbake::animation::{is_clip_ready, resample, Animations, Keyframe};
use rigbake::document::{
    BindData, Document, Joint, Object, PrimitiveElement, Track, Triangles, VertexWeight,
    ROOT_JOINT_PARENT_INDEX,
};
use rigbake::matrix::Matrix4;
use rigbake::skeleton::Skeleton;
use rigbake::{
    can_parse, find_mismatch, is_loadable, load, load_parsed, parse_collada_doc, Data, Error,
};

fn pose(seed: f32) -> Matrix4 {
    let mut m = Matrix4::identity();
    m.m[2][3] = seed.to_bits();
    m
}

fn triple(x: f32, y: f32, z: f32) -> [u32; 3] {
    [x.to_bits(), y.to_bits(), z.to_bits()]
}

fn object(height: f32) -> Object {
    Object {
        vertices: vec![triple(0.0, 0.0, 0.0), triple(1.0, 0.0, 0.0), triple(0.0, height, 0.0)],
        tex_vertices: vec![[0, 0]],
        normals: vec![triple(0.0, 0.0, 1.0)],
        mesh: vec![PrimitiveElement::Triangles(Triangles {
            vertices: vec![(0, 1, 2)],
            tex_vertices: Some(vec![(0, 0, 0)]),
            normals: Some(vec![(0, 0, 0)]),
        })],
    }
}

fn static_file(height: f32) -> Document {
    Document {
        objects: Some(vec![object(height)]),
        skeletons: None,
        bind_data: None,
        animations: None,
    }
}

fn animated_file(height: f32, tip: &str, times: Vec<i64>) -> Document {
    Document {
        objects: Some(vec![object(height)]),
        skeletons: Some(vec![vec![
            Joint { name: "Rig_Root".to_string(), parent_index: ROOT_JOINT_PARENT_INDEX },
            Joint { name: tip.to_string(), parent_index: 0 },
        ]]),
        bind_data: Some(vec![BindData {
            skeleton_name: Some("Rig".to_string()),
            joint_names: vec!["Root".to_string(), "Tip".to_string()],
            vertex_weights: vec![
                VertexWeight { vertex: 0, joint: 0, weight: 0 },
                VertexWeight { vertex: 1, joint: 1, weight: 0 },
                VertexWeight { vertex: 2, joint: 0, weight: 1 },
                VertexWeight { vertex: 2, joint: 1, weight: 1 },
            ],
            weights: vec![1.0f32.to_bits(), 0.5f32.to_bits()],
            inverse_bind_poses: vec![pose(1.0), pose(2.0)],
        }]),
        animations: Some(vec![
            Track { target: "Rig_Root/transform".to_string(), sample_times: times.clone() },
            Track { target: format!("{}/transform", tip), sample_times: times },
        ]),
    }
}

/// Keyframes for the clip of a document: keyframe `k` holds matrices marked
/// with `mark + k`.
fn keys_of(doc: &Document, frame_time: i64, mark: f32) -> Vec<Keyframe> {
    let skeleton = match Skeleton::from(doc) {
        Some(skeleton) => skeleton,
        None => return vec![],
    };
    let tracks = match &doc.animations {
        Some(tracks) => tracks,
        None => return vec![],
    };
    let bones = skeleton.get_num_vertices_attached_bones();
    resample(&tracks[0].sample_times, frame_time)
        .iter()
        .enumerate()
        .map(|(k, s)| Keyframe {
            transforms: vec![pose(mark + k as f32); bones],
            start_time: s.start_time,
        })
        .collect()
}

fn parse(name: &str, doc: &Document, mark: f32) -> Result<Data, Error> {
    let keys = keys_of(doc, 10, mark);
    assert!(can_parse(Some(name), doc, 10, &keys));
    parse_collada_doc(Some(name), doc, 10, keys)
}

fn marked(animations: &Animations, name: &str, time: i64) -> f32 {
    f32::from_bits(animations.query(name, time)[0].m[2][3])
}

#[test]
fn file_with_mesh_and_clip() {
    let doc = animated_file(1.0, "Rig_Tip", vec![0, 25]);
    let data = parse("walk", &doc, 100.0).unwrap();
    assert_eq!(data.vertices.positions, vec![triple(0.0, 0.0, 0.0), triple(1.0, 0.0, 0.0), triple(0.0, 1.0, 0.0)]);
    assert_eq!(data.vertices.indices, vec![0, 1, 2]);
    assert_eq!(data.vertices.bone_ids, Some(vec![[0, 0], [1, 0], [0, 1]]));
    assert_eq!(
        data.vertices.weights,
        Some(vec![
            [1.0f32.to_bits(), 0],
            [1.0f32.to_bits(), 0],
            [0.5f32.to_bits(), 0.5f32.to_bits()]
        ])
    );
    let animations = data.animations.unwrap();
    assert_eq!(animations.len(), 1);
    let walk = animations.get_animation("walk").unwrap();
    assert_eq!(walk.get_duration(), 25);
    assert_eq!(walk.get_frame_time(), 10);
    assert_eq!(walk.get_keys().len(), 4);
    assert_eq!(walk.get_keys()[3].start_time, 25);
    assert_eq!(walk.get_keys()[0].transforms.len(), 2);
    assert!(*animations.get_skeleton() == Skeleton::from(&doc).unwrap());
}

#[test]
fn file_without_animations_is_a_static_mesh() {
    let data = parse("prop", &static_file(1.0), 0.0).unwrap();
    assert!(data.animations.is_none());
    assert!(data.vertices.weights.is_none());
    assert_eq!(data.vertices.positions.len(), 3);
}

#[test]
fn file_without_mesh_or_name_is_empty() {
    let mut doc = animated_file(1.0, "Rig_Tip", vec![0, 25]);
    doc.objects = None;
    assert_eq!(parse("walk", &doc, 0.0).unwrap_err(), Error::EmptyFile);
    doc.objects = Some(vec![]);
    assert_eq!(parse("walk", &doc, 0.0).unwrap_err(), Error::EmptyFile);

    let doc = animated_file(1.0, "Rig_Tip", vec![0, 25]);
    assert!(can_parse(None, &doc, 10, &vec![]));
    assert_eq!(parse_collada_doc(None, &doc, 10, vec![]).unwrap_err(), Error::EmptyFile);
}

#[test]
fn file_with_a_primitive_that_is_no_triangle_list_is_refused() {
    let mut doc = animated_file(1.0, "Rig_Tip", vec![0, 25]);
    doc.objects.as_mut().unwrap()[0].mesh.push(PrimitiveElement::Polylist);
    assert_eq!(parse("walk", &doc, 0.0).unwrap_err(), Error::PrimitiveNotTriangles);
    // The mesh is refused before the name is missed or the clip is made.
    assert!(can_parse(None, &doc, 0, &vec![]));
    assert_eq!(parse_collada_doc(None, &doc, 0, vec![]).unwrap_err(), Error::PrimitiveNotTriangles);
    // Well-formed files beside it do not change that.
    let good = parse("idle", &animated_file(1.0, "Rig_Tip", vec![0, 25]), 0.0);
    assert!(good.is_ok());
    assert_eq!(parse("walk", &doc, 0.0).unwrap_err(), Error::PrimitiveNotTriangles);
}

#[test]
fn files_that_cannot_be_parsed_are_told_apart() {
    let doc = animated_file(1.0, "Rig_Tip", vec![0, 25]);
    assert!(is_clip_ready(&doc, 10, &keys_of(&doc, 10, 0.0)));
    assert!(can_parse(Some("walk"), &doc, 10, &keys_of(&doc, 10, 0.0)));
    assert!(!can_parse(Some("walk"), &doc, 10, &vec![]));
    assert!(!can_parse(Some("walk"), &doc, 0, &keys_of(&doc, 10, 0.0)));
    assert!(!can_parse(Some("walk"), &doc, 10, &keys_of(&doc, 5, 0.0)));
    let mut broken = animated_file(1.0, "Rig_Tip", vec![0, 25]);
    broken.bind_data.as_mut().unwrap()[0].vertex_weights[0].vertex = 3;
    assert!(!can_parse(Some("walk"), &broken, 10, &keys_of(&broken, 10, 0.0)));
}

#[test]
fn two_files_with_one_rig_give_both_clips() {
    let idle = parse("idle", &animated_file(1.0, "Rig_Tip", vec![0, 25]), 100.0).unwrap();
    let walk = parse("walk", &animated_file(1.0, "Rig_Tip", vec![0, 40]), 200.0).unwrap();
    let files = vec![idle, walk];
    assert!(is_loadable(&files));
    assert!(find_mismatch(&files).is_none());
    let asset = load(files).unwrap();
    assert_eq!(asset.vertices.positions.len(), 3);
    let animations = asset.animations.unwrap();
    assert_eq!(animations.len(), 2);
    assert_eq!(animations.get_animation("idle").unwrap().get_duration(), 25);
    assert_eq!(animations.get_animation("walk").unwrap().get_duration(), 40);
    assert_eq!(marked(&animations, "idle", 0), 100.0);
    assert_eq!(marked(&animations, "idle", 12), 101.0);
    assert_eq!(marked(&animations, "idle", 25), 103.0);
    assert_eq!(marked(&animations, "walk", 0), 200.0);
    assert_eq!(marked(&animations, "walk", 39), 203.0);
    assert_eq!(marked(&animations, "walk", 40), 205.0);
    assert!(
        *animations.get_skeleton()
            == Skeleton::from(&animated_file(1.0, "Rig_Tip", vec![0, 25])).unwrap()
    );
}

#[test]
fn clips_are_merged_in_the_order_of_the_files() {
    let files = vec![
        parse("a", &animated_file(1.0, "Rig_Tip", vec![0, 10]), 0.0).unwrap(),
        parse("b", &animated_file(1.0, "Rig_Tip", vec![0, 20]), 0.0).unwrap(),
        parse("a", &animated_file(1.0, "Rig_Tip", vec![0, 30]), 0.0).unwrap(),
        parse("c", &animated_file(1.0, "Rig_Tip", vec![0, 40]), 0.0).unwrap(),
    ];
    assert!(is_loadable(&files));
    let animations = load(files).unwrap().animations.unwrap();
    assert_eq!(animations.len(), 3);
    assert_eq!(animations.get_animation("a").unwrap().get_duration(), 30);
    assert_eq!(animations.get_animation("b").unwrap().get_duration(), 20);
    assert_eq!(animations.get_animation("c").unwrap().get_duration(), 40);
}

#[test]
fn one_file_is_its_own_asset() {
    let files = vec![parse("idle", &animated_file(1.0, "Rig_Tip", vec![0, 25]), 0.0).unwrap()];
    assert!(is_loadable(&files));
    let asset = load(files).unwrap();
    assert_eq!(asset.animations.unwrap().len(), 1);
    let files = vec![parse("prop", &static_file(1.0), 0.0).unwrap()];
    assert!(is_loadable(&files));
    assert!(load(files).unwrap().animations.is_none());
}

#[test]
fn static_files_give_a_static_asset() {
    let files =
        vec![parse("a", &static_file(1.0), 0.0).unwrap(), parse("b", &static_file(1.0), 0.0).unwrap()];
    assert!(is_loadable(&files));
    let asset = load(files).unwrap();
    assert!(asset.animations.is_none());
    assert_eq!(asset.vertices.positions.len(), 3);
}

#[test]
fn files_with_different_vertices_are_refused() {
    let files = vec![
        parse("idle", &animated_file(1.0, "Rig_Tip", vec![0, 25]), 0.0).unwrap(),
        parse("walk", &animated_file(2.0, "Rig_Tip", vec![0, 40]), 0.0).unwrap(),
    ];
    assert!(is_loadable(&files));
    assert_eq!(find_mismatch(&files), Some(Error::VerticesNotEqual));
    assert_eq!(load(files).unwrap_err(), Error::VerticesNotEqual);
}

#[test]
fn files_with_different_skeletons_are_refused() {
    let files = vec![
        parse("idle", &animated_file(1.0, "Rig_Tip", vec![0, 25]), 0.0).unwrap(),
        parse("walk", &animated_file(1.0, "Rig_Tip", vec![0, 40]), 0.0).unwrap(),
        parse("run", &animated_file(1.0, "Rig_Toe", vec![0, 40]), 0.0).unwrap(),
    ];
    assert!(is_loadable(&files));
    assert_eq!(load(files).unwrap_err(), Error::SkeletonNotEqual);
}

#[test]
fn animated_and_static_files_do_not_mix() {
    let mut unskinned = animated_file(1.0, "Rig_Tip", vec![0, 25]);
    unskinned.skeletons = None;
    // Without a skeleton the file has a skinned mesh but no clips.
    let first = parse("a", &unskinned, 0.0).unwrap();
    assert!(first.animations.is_none());
    let second = parse("b", &animated_file(1.0, "Rig_Tip", vec![0, 25]), 0.0).unwrap();
    let files = vec![first, second];
    assert!(is_loadable(&files));
    assert_eq!(load(files).unwrap_err(), Error::SkeletonNotEqual);

    let first = parse("b", &animated_file(1.0, "Rig_Tip", vec![0, 25]), 0.0).unwrap();
    let mut unskinned = animated_file(1.0, "Rig_Tip", vec![0, 25]);
    unskinned.skeletons = None;
    let second = parse("a", &unskinned, 0.0).unwrap();
    assert_eq!(load(vec![first, second]).unwrap_err(), Error::SkeletonNotEqual);
}

#[test]
fn the_first_mismatch_in_the_order_of_the_files_is_reported() {
    // The skeletons of the first two files differ, the vertices of the
    // last two.
    let files = vec![
        parse("a", &animated_file(1.0, "Rig_Tip", vec![0, 25]), 0.0).unwrap(),
        parse("b", &animated_file(1.0, "Rig_Toe", vec![0, 25]), 0.0).unwrap(),
        parse("c", &animated_file(2.0, "Rig_Toe", vec![0, 25]), 0.0).unwrap(),
    ];
    assert_eq!(load(files).unwrap_err(), Error::SkeletonNotEqual);
    let files = vec![
        parse("a", &animated_file(1.0, "Rig_Tip", vec![0, 25]), 0.0).unwrap(),
        parse("b", &animated_file(2.0, "Rig_Toe", vec![0, 25]), 0.0).unwrap(),
        parse("c", &animated_file(2.0, "Rig_Tip", vec![0, 25]), 0.0).unwrap(),
    ];
    assert_eq!(load(files).unwrap_err(), Error::VerticesNotEqual);
}

#[test]
fn files_that_cannot_be_loaded_are_told_apart() {
    assert!(!is_loadable(&vec![]));
    // A later file with two clips.
    let mut two = parse("b", &animated_file(1.0, "Rig_Tip", vec![0, 25]), 0.0).unwrap();
    let more = parse("c", &animated_file(1.0, "Rig_Tip", vec![0, 25]), 0.0).unwrap();
    two.animations.as_mut().unwrap().append(more.animations.unwrap());
    let first = parse("a", &animated_file(1.0, "Rig_Tip", vec![0, 25]), 0.0).unwrap();
    assert!(!is_loadable(&vec![first, two]));
    // The same as the first file is in order.
    let mut two = parse("b", &animated_file(1.0, "Rig_Tip", vec![0, 25]), 0.0).unwrap();
    let more = parse("c", &animated_file(1.0, "Rig_Tip", vec![0, 25]), 0.0).unwrap();
    two.animations.as_mut().unwrap().append(more.animations.unwrap());
    let last = parse("a", &animated_file(1.0, "Rig_Tip", vec![0, 25]), 0.0).unwrap();
    let files = vec![two, last];
    assert!(is_loadable(&files));
    assert_eq!(load(files).unwrap().animations.unwrap().len(), 3);
}

fn bad_file() -> Result<Data, Error> {
    let mut doc = animated_file(1.0, "Rig_Tip", vec![0, 25]);
    doc.objects.as_mut().unwrap()[0].mesh.insert(0, PrimitiveElement::Polylist);
    parse("bad", &doc, 0.0)
}

fn good_file(name: &str) -> Result<Data, Error> {
    parse(name, &animated_file(1.0, "Rig_Tip", vec![0, 25]), 0.0)
}

#[test]
fn one_file_with_a_primitive_that_is_no_triangle_list_fails_the_load() {
    for files in 1..5 {
        for at in 0..files {
            let parsed: Vec<Result<Data, Error>> = (0..files)
                .map(|i| if i == at { bad_file() } else { good_file(&format!("clip{}", i)) })
                .collect();
            assert_eq!(
                load_parsed(parsed).unwrap().unwrap_err(),
                Error::PrimitiveNotTriangles
            );
        }
    }
}

#[test]
fn the_first_failure_in_the_order_of_the_files_is_reported() {
    let mut empty = animated_file(1.0, "Rig_Tip", vec![0, 25]);
    empty.objects = None;
    let files = vec![good_file("a"), parse("b", &empty, 0.0), bad_file()];
    assert_eq!(load_parsed(files).unwrap().unwrap_err(), Error::EmptyFile);
    let files = vec![bad_file(), parse("b", &empty, 0.0)];
    assert_eq!(load_parsed(files).unwrap().unwrap_err(), Error::PrimitiveNotTriangles);
    // A failure comes before a mismatch between two files.
    let other = parse("c", &animated_file(2.0, "Rig_Tip", vec![0, 25]), 0.0);
    let files = vec![good_file("a"), other, bad_file()];
    assert_eq!(load_parsed(files).unwrap().unwrap_err(), Error::PrimitiveNotTriangles);
}

#[test]
fn files_that_did_not_fail_are_loaded() {
    let asset = load_parsed(vec![good_file("idle"), good_file("walk")]).unwrap().unwrap();
    assert_eq!(asset.animations.unwrap().len(), 2);
    let other = parse("c", &animated_file(2.0, "Rig_Tip", vec![0, 25]), 0.0);
    assert_eq!(
        load_parsed(vec![good_file("a"), other]).unwrap().unwrap_err(),
        Error::VerticesNotEqual
    );
    // No file at all cannot be loaded.
    assert!(load_parsed(vec![]).is_none());
}
