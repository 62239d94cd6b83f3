use rigbake::document::{BindData, Document, Joint, ROOT_JOINT_PARENT_INDEX};
use rigbake::matrix::Matrix4;
use rigbake::skeleton::{
    are_parents_first, can_build, find_bind_position, has_skeleton, is_bind_ready, Bone, Skeleton,
};

fn matrix(seed: f32) -> Matrix4 {
    let mut m = Matrix4::identity();
    for r in 0..4 {
        for c in 0..4 {
            m.m[r][c] = (seed + (r * 4 + c) as f32).to_bits();
        }
    }
    m
}

fn joint(name: &str, parent_index: u8) -> Joint {
    Joint { name: name.to_string(), parent_index }
}

fn bind(skeleton_name: Option<&str>, joint_names: &[&str], poses: Vec<Matrix4>) -> BindData {
    BindData {
        skeleton_name: skeleton_name.map(|s| s.to_string()),
        joint_names: joint_names.iter().map(|s| s.to_string()).collect(),
        vertex_weights: vec![],
        weights: vec![],
        inverse_bind_poses: poses,
    }
}

fn rig() -> Document {
    Document {
        objects: None,
        skeletons: Some(vec![vec![
            joint("Armature_Root", ROOT_JOINT_PARENT_INDEX),
            joint("Armature_Spine", 0),
            joint("Armature_Helper", 1),
            joint("Armature_Arm_L", 1),
            joint("Armature_Hand_L", 3),
        ]]),
        bind_data: Some(vec![bind(
            Some("Armature"),
            &["Root", "Spine", "Arm_L", "Hand_L"],
            vec![matrix(100.0), matrix(200.0), matrix(300.0), matrix(400.0)],
        )]),
        animations: None,
    }
}

#[test]
fn empty_skeleton_has_nothing() {
    let s = Skeleton::new();
    assert!(s.get_root().is_none());
    assert!(s.get_joint_names().is_empty());
    assert_eq!(s.get_num_vertices_attached_bones(), 0);
    assert!(!s.contains(0));
}

#[test]
fn skeleton_from_document_builds_the_hierarchy() {
    let doc = rig();
    assert!(can_build(&doc));
    assert!(has_skeleton(&doc));
    let s = Skeleton::from(&doc).unwrap();
    assert_eq!(
        s.get_joint_names().to_vec(),
        vec![
            "Armature_Root".to_string(),
            "Armature_Spine".to_string(),
            "Armature_Helper".to_string(),
            "Armature_Arm_L".to_string(),
            "Armature_Hand_L".to_string()
        ]
    );
    let root = s.get_root().as_ref().unwrap();
    assert_eq!(root.get_name(&s), "Armature_Root");
    assert_eq!(root.get_name_idx(), 0);
    assert_eq!(root.get_parent_name_idx(), None);
    assert!(root.has_vertices_attached());
    assert_eq!(root.idx_transform, Some(0));
    assert!(*root.get_inverse_bind_pose() == matrix(100.0));

    let below_root = root.get_children().unwrap();
    assert_eq!(below_root.len(), 1);
    let spine = &below_root[0];
    assert_eq!(spine.get_name(&s), "Armature_Spine");
    assert_eq!(spine.get_parent_name_idx(), Some(0));
    assert_eq!(spine.idx_transform, Some(1));

    let below_spine = spine.get_children().unwrap();
    assert_eq!(below_spine.len(), 2);
    let helper = &below_spine[0];
    let arm = &below_spine[1];
    assert_eq!(helper.get_name(&s), "Armature_Helper");
    assert!(!helper.has_vertices_attached());
    assert_eq!(helper.idx_transform, None);
    assert_eq!(helper.get_idx_transform(), None);
    assert!(helper.get_children().is_none());
    assert_eq!(arm.get_name(&s), "Armature_Arm_L");
    assert_eq!(arm.idx_transform, Some(2));
    assert!(*arm.get_inverse_bind_pose() == matrix(300.0));

    let hand = &arm.get_children().unwrap()[0];
    assert_eq!(hand.get_name(&s), "Armature_Hand_L");
    assert_eq!(hand.get_parent_name_idx(), Some(3));
    assert_eq!(hand.idx_transform, Some(3));
    assert!(hand.get_children().is_none());

    assert_eq!(s.get_num_vertices_attached_bones(), 4);
    for name_idx in 0..5 {
        assert!(s.contains(name_idx));
    }
    assert!(!s.contains(5));
}

#[test]
fn unmatched_joint_carries_the_last_matched_pose() {
    let s = Skeleton::from(&rig()).unwrap();
    let root = s.get_root().as_ref().unwrap();
    let spine = &root.get_children().unwrap()[0];
    let helper = &spine.get_children().unwrap()[0];
    assert!(*helper.get_inverse_bind_pose() == matrix(200.0));
}

#[test]
fn unmatched_joint_before_any_match_carries_the_identity() {
    let doc = Document {
        objects: None,
        skeletons: Some(vec![vec![
            joint("Rig_Origin", ROOT_JOINT_PARENT_INDEX),
            joint("Rig_Hip", 0),
            joint("Rig_Tail", 0),
        ]]),
        bind_data: Some(vec![bind(Some("Rig"), &["Hip"], vec![matrix(7.0)])]),
        animations: None,
    };
    assert!(can_build(&doc));
    let s = Skeleton::from(&doc).unwrap();
    let root = s.get_root().as_ref().unwrap();
    assert!(!root.has_vertices_attached());
    assert!(*root.get_inverse_bind_pose() == Matrix4::identity());
    let children = root.get_children().unwrap();
    assert!(*children[0].get_inverse_bind_pose() == matrix(7.0));
    assert_eq!(children[0].idx_transform, Some(0));
    assert!(*children[1].get_inverse_bind_pose() == matrix(7.0));
    assert_eq!(children[1].idx_transform, None);
    assert_eq!(s.get_num_vertices_attached_bones(), 1);
}

#[test]
fn spaces_of_the_skeleton_name_match_underscores() {
    let doc = Document {
        objects: None,
        skeletons: Some(vec![vec![joint("My_Rig_Hip", ROOT_JOINT_PARENT_INDEX)]]),
        bind_data: Some(vec![bind(Some("My Rig"), &["Nope", "Hip"], vec![matrix(1.0), matrix(2.0)])]),
        animations: None,
    };
    assert!(can_build(&doc));
    let s = Skeleton::from(&doc).unwrap();
    let root = s.get_root().as_ref().unwrap();
    assert_eq!(root.idx_transform, Some(1));
    assert!(*root.get_inverse_bind_pose() == matrix(2.0));
}

#[test]
fn first_of_equal_bind_names_wins() {
    let b = bind(Some("Rig"), &["Hip", "Leg", "Hip"], vec![]);
    assert_eq!(find_bind_position(&b, "Rig_Hip"), Some(0));
    assert_eq!(find_bind_position(&b, "Rig_Leg"), Some(1));
    assert_eq!(find_bind_position(&b, "Rig_Arm"), None);
    let none = bind(None, &[], vec![]);
    assert_eq!(find_bind_position(&none, "Rig_Hip"), None);
}

#[test]
fn document_without_skeleton_or_bind_data_gives_none() {
    let mut doc = rig();
    doc.skeletons = None;
    assert!(can_build(&doc));
    assert!(!has_skeleton(&doc));
    assert!(Skeleton::from(&doc).is_none());

    let mut doc = rig();
    doc.skeletons = Some(vec![]);
    assert!(can_build(&doc));
    assert!(Skeleton::from(&doc).is_none());

    let mut doc = rig();
    doc.bind_data = None;
    assert!(can_build(&doc));
    assert!(!has_skeleton(&doc));
    assert!(Skeleton::from(&doc).is_none());
}

#[test]
fn only_the_first_skeleton_and_bind_data_count() {
    let mut doc = rig();
    doc.skeletons.as_mut().unwrap().push(vec![joint("Other_Root", ROOT_JOINT_PARENT_INDEX)]);
    doc.bind_data.as_mut().unwrap().push(bind(Some("Other"), &["Root"], vec![matrix(9.0)]));
    let s = Skeleton::from(&doc).unwrap();
    assert!(s == Skeleton::from(&rig()).unwrap());
}

#[test]
fn documents_that_cannot_be_built_are_told_apart() {
    // A skeleton but an empty list of bind data.
    let mut doc = rig();
    doc.bind_data = Some(vec![]);
    assert!(!can_build(&doc));

    // A child before its parent.
    let joints = vec![joint("A", ROOT_JOINT_PARENT_INDEX), joint("B", 2), joint("C", 0)];
    assert!(!are_parents_first(&joints));
    // A joint that is its own parent.
    let joints = vec![joint("A", ROOT_JOINT_PARENT_INDEX), joint("B", 1)];
    assert!(!are_parents_first(&joints));
    // Two roots.
    let joints =
        vec![joint("A", ROOT_JOINT_PARENT_INDEX), joint("B", ROOT_JOINT_PARENT_INDEX)];
    assert!(!are_parents_first(&joints));
    // A first joint with a parent.
    let joints = vec![joint("A", 0)];
    assert!(!are_parents_first(&joints));
    assert!(are_parents_first(&vec![]));
    assert!(are_parents_first(&vec![joint("A", ROOT_JOINT_PARENT_INDEX), joint("B", 0)]));

    // Names to match, but no skeleton name.
    let joints = vec![joint("Rig_A", ROOT_JOINT_PARENT_INDEX)];
    assert!(!is_bind_ready(&joints, &bind(None, &["A"], vec![matrix(1.0)])));
    assert!(is_bind_ready(&joints, &bind(None, &[], vec![])));
    assert!(is_bind_ready(&vec![], &bind(None, &["A"], vec![])));
    // A matched joint without a matrix.
    assert!(!is_bind_ready(&joints, &bind(Some("Rig"), &["A"], vec![])));
    assert!(is_bind_ready(&joints, &bind(Some("Rig"), &["B"], vec![])));
}

#[test]
fn bone_add_puts_the_bone_under_its_parent() {
    let mut root = Bone::new(0, None, Matrix4::identity(), true, Some(0));
    assert!(root.get_children().is_none());
    let child = Bone::new(1, Some(0), matrix(1.0), false, None);
    root.add(&child);
    let grandchild = Bone::new(2, Some(1), matrix(2.0), true, Some(1));
    root.add(&grandchild);
    let second = Bone::new(3, Some(0), matrix(3.0), true, Some(2));
    root.add(&second);
    // A bone whose parent is nowhere leaves the tree as it was.
    let orphan = Bone::new(4, Some(9), matrix(4.0), true, Some(3));
    let before = root.clone();
    root.add(&orphan);
    assert!(root == before);

    let children = root.get_children().unwrap();
    assert_eq!(children.len(), 2);
    assert_eq!(children[0].get_name_idx(), 1);
    assert_eq!(children[1].get_name_idx(), 3);
    assert_eq!(children[0].get_children().unwrap()[0].get_name_idx(), 2);
    assert!(root.contains(0) && root.contains(1) && root.contains(2) && root.contains(3));
    assert!(!root.contains(4));
    assert!(!children[1].contains(2));

    let mut num_bones = 10;
    root.get_num_vertices_attached_bones(&mut num_bones);
    assert_eq!(num_bones, 13);
}

#[test]
fn bone_add_reaches_every_bone_of_that_name() {
    let mut root = Bone::new(0, None, Matrix4::identity(), false, None);
    root.add(&Bone::new(5, Some(0), Matrix4::identity(), false, None));
    root.add(&Bone::new(5, Some(0), Matrix4::identity(), false, None));
    root.add(&Bone::new(6, Some(5), Matrix4::identity(), true, Some(0)));
    let children = root.get_children().unwrap();
    assert_eq!(children[0].get_children().unwrap().len(), 1);
    assert_eq!(children[1].get_children().unwrap().len(), 1);
    let mut num_bones = 0;
    root.get_num_vertices_attached_bones(&mut num_bones);
    assert_eq!(num_bones, 2);
    // Below a bone of the parent's name the search stops.
    let mut top = Bone::new(1, None, Matrix4::identity(), false, None);
    top.add(&Bone::new(1, Some(1), Matrix4::identity(), false, None));
    top.add(&Bone::new(2, Some(1), Matrix4::identity(), false, None));
    assert_eq!(top.get_children().unwrap().len(), 2);
    assert!(top.get_children().unwrap()[0].get_children().is_none());
}

#[test]
fn skeletons_compare_by_structure_and_numbers() {
    let a = Skeleton::from(&rig()).unwrap();
    let b = Skeleton::from(&rig()).unwrap();
    assert!(a == b);
    assert!(a.is_same(&b));

    let mut renamed = rig();
    renamed.skeletons.as_mut().unwrap()[0][2].name = "Armature_Other".to_string();
    assert!(a != Skeleton::from(&renamed).unwrap());

    let mut moved = rig();
    moved.skeletons.as_mut().unwrap()[0][4].parent_index = 1;
    assert!(a != Skeleton::from(&moved).unwrap());

    let mut posed = rig();
    posed.bind_data.as_mut().unwrap()[0].inverse_bind_poses[2].m[0][0] = 1.25f32.to_bits();
    assert!(a != Skeleton::from(&posed).unwrap());

    let mut shorter = rig();
    shorter.skeletons.as_mut().unwrap()[0].pop();
    assert!(a != Skeleton::from(&shorter).unwrap());
    assert!(a != Skeleton::new());
    assert!(Skeleton::new() == Skeleton::new());
}

#[test]
fn zeros_of_either_sign_are_equal_and_nan_is_not() {
    let mut plus = rig();
    plus.bind_data.as_mut().unwrap()[0].inverse_bind_poses[0].m[1][1] = 0.0f32.to_bits();
    let mut minus = rig();
    minus.bind_data.as_mut().unwrap()[0].inverse_bind_poses[0].m[1][1] = (-0.0f32).to_bits();
    assert!(Skeleton::from(&plus).unwrap() == Skeleton::from(&minus).unwrap());

    let mut nan = rig();
    nan.bind_data.as_mut().unwrap()[0].inverse_bind_poses[0].m[1][1] = f32::NAN.to_bits();
    let s = Skeleton::from(&nan).unwrap();
    assert!(s != Skeleton::from(&nan).unwrap());
}

#[test]
fn bone_with_children_holds_them_in_their_order() {
    let first = Bone::new(1, Some(0), matrix(1.0), true, Some(0));
    let second = Bone::with_children(
        2,
        Some(0),
        matrix(2.0),
        false,
        None,
        vec![Bone::new(3, Some(2), matrix(3.0), true, Some(1))],
    );
    let top = Bone::with_children(0, None, matrix(0.0), false, None, vec![first, second]);
    let children = top.get_children().unwrap();
    assert_eq!(children.len(), 2);
    assert_eq!(children[0].get_name_idx(), 1);
    assert_eq!(children[1].get_name_idx(), 2);
    assert_eq!(children[1].get_children().unwrap()[0].get_name_idx(), 3);
    assert!(top.contains(3));
    let mut num_bones = 0;
    top.get_num_vertices_attached_bones(&mut num_bones);
    assert_eq!(num_bones, 2);
    let mut built = Bone::new(0, None, matrix(0.0), false, None);
    built.add(&Bone::new(1, Some(0), matrix(1.0), true, Some(0)));
    built.add(&Bone::new(2, Some(0), matrix(2.0), false, None));
    built.add(&Bone::new(3, Some(2), matrix(3.0), true, Some(1)));
    assert!(top == built);
    assert!(Bone::with_children(0, None, matrix(0.0), false, None, vec![]).get_children().is_none());
}
