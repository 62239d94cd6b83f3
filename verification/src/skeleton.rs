//! Skeletons, and how they are built from joint records and bind data.

pub use crate::bone::{Bone, BoneView};

use crate::bone::{
    attach_points_of_first, count_of_first, lemma_attached_le_size, lemma_same_attached, lemma_bone_same_symmetric,
    lemma_bone_same_transitive, lemma_consistent_more_names, lemma_inserted_consistent,
    lemma_inserted_every, lemma_inserted_keeps_head, lemma_inserted_leaf, lemma_inserted_ordered,
    size_of_first,
};
use crate::document::{BindData, Document, Joint, ROOT_JOINT_PARENT_INDEX};
use crate::matrix::Matrix4;
use crate::naming::{bind_joint_name, is_bind_joint_name};
use vstd::prelude::*;
use vstd::std_specs::cmp::PartialEqSpecImpl;

verus! {

/// Mathematical model of a skeleton: the bone hierarchy and the table of
/// joint names that the bones' name indices refer to.
pub struct SkeletonView {
    pub root: Option<BoneView>,
    pub joint_names: Seq<Seq<char>>,
}

impl SkeletonView {
    /// The skeleton without bones.
    pub open spec fn empty() -> SkeletonView {
        SkeletonView { root: None, joint_names: Seq::empty() }
    }

    /// What every skeleton satisfies: it has as many bones as names, the
    /// root has no parent, the hierarchy is consistent and ordered, and each
    /// name index of the table is carried by exactly one bone, which is its
    /// one attach point.
    pub open spec fn wf(self) -> bool {
        match self.root {
            None => self.joint_names.len() == 0,
            Some(root) => {
                &&& root.size() == self.joint_names.len()
                &&& root.parent.is_none()
                &&& root.consistent(self.joint_names.len())
                &&& root.ordered()
                &&& forall|name: usize| #[trigger]
                    root.attach_points(name) == (if name < self.joint_names.len() {
                        1nat
                    } else {
                        0nat
                    })
                &&& forall|name: usize| #[trigger]
                    root.count(name) == (if name < self.joint_names.len() {
                        1nat
                    } else {
                        0nat
                    })
            },
        }
    }

    /// Whether some bone carries the name index `name`.
    pub open spec fn contains(self, name: usize) -> bool {
        match self.root {
            Some(root) => root.contains(name),
            None => false,
        }
    }

    /// Number of bones that have vertices attached.
    pub open spec fn attached(self) -> nat {
        match self.root {
            Some(root) => root.attached(),
            None => 0,
        }
    }

    /// The skeleton after the joint `name` was added as `bone`: a bone
    /// without parent becomes the root, any other is offered to the
    /// hierarchy.
    pub open spec fn added(self, name: Seq<char>, bone: BoneView) -> SkeletonView {
        SkeletonView {
            root: match bone.parent {
                Some(_) => match self.root {
                    Some(root) => Some(root.inserted(bone)),
                    None => None,
                },
                None => Some(bone),
            },
            joint_names: self.joint_names.push(name),
        }
    }
}

/// The bone hierarchy of a rig, with the names of its joints.
#[derive(Debug)]
pub struct Skeleton {
    root: Option<Bone>,
    joint_names: Vec<String>,
}

impl View for Skeleton {
    type V = SkeletonView;

    closed spec fn view(&self) -> SkeletonView {
        SkeletonView {
            root: match self.root {
                Some(root) => Some(root@),
                None => None,
            },
            joint_names: Seq::new(self.joint_names@.len(), |i: int| self.joint_names@[i]@),
        }
    }
}

/// The name of the skeleton that bind data refers to, empty when it names
/// none.
pub open spec fn skeleton_name_of(bind: BindData) -> Seq<char> {
    match bind.skeleton_name {
        Some(name) => name@,
        None => Seq::empty(),
    }
}

/// Position of the first of the first `n` short names that gives the full
/// name `full_name`.
pub open spec fn bind_position_in_first(
    skeleton_name: Seq<char>,
    short_names: Seq<String>,
    full_name: Seq<char>,
    n: nat,
) -> Option<usize>
    decreases n,
{
    if n == 0 || n > short_names.len() {
        None
    } else {
        match bind_position_in_first(skeleton_name, short_names, full_name, (n - 1) as nat) {
            Some(k) => Some(k),
            None => if bind_joint_name(skeleton_name, short_names[n - 1]@) == full_name {
                Some((n - 1) as usize)
            } else {
                None
            },
        }
    }
}

/// Position in the bind data of the joint with the full name `full_name`:
/// that of the first short name that gives it.
pub open spec fn bind_position(bind: BindData, full_name: Seq<char>) -> Option<usize> {
    bind_position_in_first(
        skeleton_name_of(bind),
        bind.joint_names@,
        full_name,
        bind.joint_names@.len(),
    )
}

/// What `bind_position_in_first` finds: the least position below `n` whose
/// short name gives the full name, if there is one.
pub proof fn lemma_bind_position(
    skeleton_name: Seq<char>,
    short_names: Seq<String>,
    full_name: Seq<char>,
    n: nat,
)
    requires
        n <= short_names.len() <= usize::MAX,
    ensures
        match bind_position_in_first(skeleton_name, short_names, full_name, n) {
            Some(k) => k < n && bind_joint_name(skeleton_name, short_names[k as int]@) == full_name
                && forall|j: int|
                0 <= j < k ==> bind_joint_name(skeleton_name, #[trigger] short_names[j]@)
                    != full_name,
            None => forall|j: int|
                0 <= j < n ==> bind_joint_name(skeleton_name, #[trigger] short_names[j]@)
                    != full_name,
        },
    decreases n,
{
    if n > 0 {
        lemma_bind_position(skeleton_name, short_names, full_name, (n - 1) as nat);
    }
}

/// The parent that a joint names, if it names one.
pub open spec fn parent_of(joint: Joint) -> Option<usize> {
    if joint.parent_index == ROOT_JOINT_PARENT_INDEX {
        None
    } else {
        Some(joint.parent_index as usize)
    }
}

/// The inverse bind matrix that joint `i` carries: that of the last joint at
/// or before it that the bind data lists, and the identity when there is
/// none.
pub open spec fn carried_pose(joints: Seq<Joint>, bind: BindData, i: int) -> Matrix4
    decreases i + 1,
{
    if i < 0 || i >= joints.len() {
        Matrix4::unit()
    } else {
        match bind_position(bind, joints[i].name@) {
            Some(k) => bind.inverse_bind_poses@[k as int],
            None => carried_pose(joints, bind, i - 1),
        }
    }
}

/// The bone that is made of joint `i`.
pub open spec fn joint_bone(joints: Seq<Joint>, bind: BindData, i: int) -> BoneView {
    BoneView::leaf(
        i as usize,
        parent_of(joints[i]),
        carried_pose(joints, bind, i),
        bind_position(bind, joints[i].name@).is_some(),
        bind_position(bind, joints[i].name@),
    )
}

/// The skeleton made of the first `n` joints, added in their order.
pub open spec fn built(joints: Seq<Joint>, bind: BindData, n: nat) -> SkeletonView
    decreases n,
{
    if n == 0 || n > joints.len() {
        SkeletonView::empty()
    } else {
        built(joints, bind, (n - 1) as nat).added(joints[n - 1].name@, joint_bone(joints, bind, n - 1))
    }
}

/// The skeleton made of the first `n` joints has their names, in their
/// order.
pub proof fn lemma_built_names(joints: Seq<Joint>, bind: BindData, n: nat)
    requires
        n <= joints.len(),
    ensures
        built(joints, bind, n).joint_names.len() == n,
        forall|i: int| 0 <= i < n ==> #[trigger] built(joints, bind, n).joint_names[i] == joints[i].name@,
    decreases n,
{
    if n > 0 {
        lemma_built_names(joints, bind, (n - 1) as nat);
    }
}

/// What holds of a bone that is made of the joint that it names.
pub open spec fn made_of(joints: Seq<Joint>, bind: BindData) -> spec_fn(BoneView) -> bool {
    |bone: BoneView| bone.name < joints.len() && bone.head() == joint_bone(joints, bind, bone.name as int)
}

/// Every bone of the skeleton made of the first `n` joints is made of the
/// joint that it names.
pub proof fn lemma_built_made_of(joints: Seq<Joint>, bind: BindData, n: nat)
    requires
        n <= joints.len() <= usize::MAX,
    ensures
        built(joints, bind, n).root matches Some(root) ==> root.every(made_of(joints, bind)),
    decreases n,
{
    if n > 0 {
        let before = built(joints, bind, (n - 1) as nat);
        let bone = joint_bone(joints, bind, n - 1);
        let p = made_of(joints, bind);
        lemma_built_made_of(joints, bind, (n - 1) as nat);
        assert(bone.head() == bone);
        assert(p(bone));
        assert forall|b: BoneView| #[trigger] p(b) == p(b.head()) by {
            assert(b.head().head() == b.head());
        }
        if bone.parent.is_some() && before.root.is_some() {
            lemma_inserted_every(before.root.unwrap(), bone, p);
        }
    }
}

/// Whether each joint but the first names as its parent a joint before it,
/// and the first names none.
pub open spec fn parents_first(joints: Seq<Joint>) -> bool {
    forall|i: int|
        0 <= i < joints.len() ==> match parent_of(#[trigger] joints[i]) {
            Some(p) => p < i,
            None => i == 0,
        }
}

/// Whether the bind data can be matched against the joints: it names its
/// skeleton if there is anything to match, and holds a matrix for every
/// joint that it lists.
pub open spec fn bind_ready(joints: Seq<Joint>, bind: BindData) -> bool {
    &&& joints.len() > 0 && bind.joint_names@.len() > 0 ==> bind.skeleton_name.is_some()
    &&& forall|i: int|
        0 <= i < joints.len() ==> match bind_position(bind, (#[trigger] joints[i]).name@) {
            Some(k) => k < bind.inverse_bind_poses@.len(),
            None => true,
        }
}

/// The skeleton that a document describes: that of its first skeleton and
/// first bind data, if it has both.
pub open spec fn skeleton_of(doc: Document) -> Option<SkeletonView> {
    match (doc.skeletons, doc.bind_data) {
        (Some(skeletons), Some(bind_data)) => if skeletons@.len() > 0 && bind_data@.len() > 0 {
            Some(built(skeletons@[0]@, bind_data@[0], skeletons@[0]@.len()))
        } else {
            None
        },
        _ => None,
    }
}

/// Whether a skeleton can be made of the document.
pub open spec fn buildable(doc: Document) -> bool {
    match (doc.skeletons, doc.bind_data) {
        (Some(skeletons), Some(bind_data)) => skeletons@.len() > 0 ==> {
            &&& bind_data@.len() > 0
            &&& parents_first(skeletons@[0]@)
            &&& bind_ready(skeletons@[0]@, bind_data@[0])
        },
        _ => true,
    }
}

/// Checks whether each joint but the first names as its parent a joint
/// before it, and the first names none.
pub fn are_parents_first(joints: &Vec<Joint>) -> (r: bool)
    ensures
        r == parents_first(joints@),
{
    let n = joints.len();
    let mut i: usize = 0;
    while i < n
        invariant
            0 <= i <= n,
            n == joints@.len(),
            forall|j: int|
                0 <= j < i ==> match parent_of(#[trigger] joints@[j]) {
                    Some(p) => p < j,
                    None => j == 0,
                },
        decreases n - i,
    {
        let parent_index = joints[i].parent_index;
        let ordered = if parent_index == ROOT_JOINT_PARENT_INDEX {
            i == 0
        } else {
            (parent_index as usize) < i
        };
        if !ordered {
            assert(!(match parent_of(joints@[i as int]) {
                Some(p) => p < i,
                None => i == 0,
            }));
            return false;
        }
        i += 1;
    }
    true
}

/// Checks whether the bind data can be matched against the joints.
pub fn is_bind_ready(joints: &Vec<Joint>, bind: &BindData) -> (r: bool)
    ensures
        r == bind_ready(joints@, *bind),
{
    let n = joints.len();
    if n > 0 && bind.joint_names.len() > 0 && bind.skeleton_name.is_none() {
        return false;
    }
    let mut i: usize = 0;
    while i < n
        invariant
            0 <= i <= n,
            n == joints@.len(),
            n > 0 && bind.joint_names@.len() > 0 ==> bind.skeleton_name.is_some(),
            forall|j: int|
                0 <= j < i ==> match bind_position(*bind, (#[trigger] joints@[j]).name@) {
                    Some(k) => k < bind.inverse_bind_poses@.len(),
                    None => true,
                },
        decreases n - i,
    {
        match find_bind_position(bind, joints[i].name.as_str()) {
            Some(k) => {
                if k >= bind.inverse_bind_poses.len() {
                    assert(!(match bind_position(*bind, joints@[i as int].name@) {
                        Some(k) => k < bind.inverse_bind_poses@.len(),
                        None => true,
                    }));
                    return false;
                }
            },
            None => {},
        }
        i += 1;
    }
    true
}

/// Checks whether a skeleton can be made of the document.
pub fn can_build(doc: &Document) -> (r: bool)
    ensures
        r == buildable(*doc),
{
    match (&doc.skeletons, &doc.bind_data) {
        (Some(skeletons), Some(bind_data)) => {
            if skeletons.len() == 0 {
                true
            } else {
                bind_data.len() > 0 && are_parents_first(&skeletons[0]) && is_bind_ready(
                    &skeletons[0],
                    &bind_data[0],
                )
            }
        },
        _ => true,
    }
}

/// Whether the document describes a skeleton.
pub fn has_skeleton(doc: &Document) -> (r: bool)
    ensures
        r == skeleton_of(*doc).is_some(),
{
    match (&doc.skeletons, &doc.bind_data) {
        (Some(skeletons), Some(bind_data)) => skeletons.len() > 0 && bind_data.len() > 0,
        _ => false,
    }
}

/// Finds the joint with the full name `full_name` in the bind data.
pub fn find_bind_position(bind: &BindData, full_name: &str) -> (position: Option<usize>)
    requires
        bind.joint_names@.len() > 0 ==> bind.skeleton_name.is_some(),
    ensures
        position == bind_position(*bind, full_name@),
        match position {
            Some(k) => k < bind.joint_names@.len() && bind_joint_name(
                skeleton_name_of(*bind),
                bind.joint_names@[k as int]@,
            ) == full_name@ && forall|j: int|
                0 <= j < k ==> bind_joint_name(
                    skeleton_name_of(*bind),
                    #[trigger] bind.joint_names@[j]@,
                ) != full_name@,
            None => forall|j: int|
                0 <= j < bind.joint_names@.len() ==> bind_joint_name(
                    skeleton_name_of(*bind),
                    #[trigger] bind.joint_names@[j]@,
                ) != full_name@,
        },
{
    let n = bind.joint_names.len();
    proof {
        lemma_bind_position(skeleton_name_of(*bind), bind.joint_names@, full_name@, n as nat);
    }
    let mut i: usize = 0;
    while i < n
        invariant
            0 <= i <= n,
            n == bind.joint_names@.len(),
            n > 0 ==> bind.skeleton_name.is_some(),
            bind_position_in_first(
                skeleton_name_of(*bind),
                bind.joint_names@,
                full_name@,
                i as nat,
            ).is_none(),
        decreases n - i,
    {
        let found = match &bind.skeleton_name {
            Some(skeleton_name) => is_bind_joint_name(
                skeleton_name.as_str(),
                bind.joint_names[i].as_str(),
                full_name,
            ),
            None => false,
        };
        if found {
            proof {
                lemma_bind_position_stays(
                    skeleton_name_of(*bind),
                    bind.joint_names@,
                    full_name@,
                    (i + 1) as nat,
                    n as nat,
                );
                lemma_bind_position(
                    skeleton_name_of(*bind),
                    bind.joint_names@,
                    full_name@,
                    n as nat,
                );
            }
            return Some(i);
        }
        i += 1;
    }
    None
}

/// A position found among the first `n` short names is the one found among
/// any more of them.
pub proof fn lemma_bind_position_stays(
    skeleton_name: Seq<char>,
    short_names: Seq<String>,
    full_name: Seq<char>,
    n: nat,
    m: nat,
)
    requires
        n <= m <= short_names.len(),
        bind_position_in_first(skeleton_name, short_names, full_name, n).is_some(),
    ensures
        bind_position_in_first(skeleton_name, short_names, full_name, m) == bind_position_in_first(
            skeleton_name,
            short_names,
            full_name,
            n,
        ),
    decreases m,
{
    if n < m {
        lemma_bind_position_stays(skeleton_name, short_names, full_name, n, (m - 1) as nat);
    }
}

impl SkeletonView {
    /// Equality of two skeletons: the same names, and hierarchies that are
    /// the same bone by bone.
    pub open spec fn same(self, other: SkeletonView) -> bool {
        &&& self.joint_names == other.joint_names
        &&& match (self.root, other.root) {
            (Some(a), Some(b)) => a.same(b),
            (None, None) => true,
            _ => false,
        }
    }
}

/// Equality of skeletons does not depend on the side.
pub proof fn lemma_same_symmetric(a: SkeletonView, b: SkeletonView)
    requires
        a.same(b),
    ensures
        b.same(a),
{
    if a.root.is_some() {
        lemma_bone_same_symmetric(a.root.unwrap(), b.root.unwrap());
    }
}

/// Equal skeletons have as many bones with vertices attached.
pub proof fn lemma_same_skeleton_attached(a: SkeletonView, b: SkeletonView)
    requires
        a.same(b),
    ensures
        a.attached() == b.attached(),
{
    if a.root.is_some() {
        lemma_same_attached(a.root.unwrap(), b.root.unwrap());
    }
}

/// Two skeletons that equal a third equal each other.
pub proof fn lemma_same_transitive(a: SkeletonView, b: SkeletonView, c: SkeletonView)
    requires
        a.same(b),
        b.same(c),
    ensures
        a.same(c),
{
    if a.root.is_some() {
        lemma_bone_same_transitive(a.root.unwrap(), b.root.unwrap(), c.root.unwrap());
    }
}

impl Skeleton {
    #[verifier::type_invariant]
    closed spec fn inv(self) -> bool {
        self@.wf()
    }

    /// The skeleton without bones.
    pub fn new() -> (skeleton: Self)
        ensures
            skeleton@ == SkeletonView::empty(),
    {
        let skeleton = Skeleton { root: None, joint_names: Vec::new() };
        assert(skeleton@.joint_names =~= Seq::empty());
        skeleton
    }

    /// Adds the joint `name` as `bone`.
    fn add(self, name: String, bone: Bone) -> (skeleton: Self)
        requires
            bone@.children.len() == 0,
            bone@.name == self@.joint_names.len(),
            bone@.vertices_attached <==> bone@.idx_transform.is_some(),
            match bone@.parent {
                Some(parent) => parent < self@.joint_names.len(),
                None => self@.root.is_none(),
            },
        ensures
            skeleton@ == self@.added(name@, bone@),
    {
        proof {
            use_type_invariant(&self);
        }
        let ghost before = self@;
        let ghost names = self@.joint_names.len();
        let Skeleton { root, mut joint_names } = self;
        let root = match bone.get_parent_name_idx() {
            Some(_) => {
                let mut top = root.unwrap();
                proof {
                    let more = names + 1;
                    lemma_inserted_leaf(top@, bone@, 0);
                    lemma_inserted_keeps_head(top@, bone@);
                    lemma_inserted_ordered(top@, bone@);
                    lemma_consistent_more_names(top@, names, more);
                    lemma_inserted_consistent(top@, bone@, more);
                    assert forall|name: usize| #[trigger]
                        top@.inserted(bone@).attach_points(name) == (if name < more {
                            1nat
                        } else {
                            0nat
                        }) by {
                        lemma_inserted_leaf(top@, bone@, name);
                    }
                    assert forall|name: usize| #[trigger]
                        top@.inserted(bone@).count(name) == (if name < more {
                            1nat
                        } else {
                            0nat
                        }) by {
                        lemma_inserted_leaf(top@, bone@, name);
                    }
                }
                top.add(&bone);
                Some(top)
            },
            None => {
                proof {
                    assert(size_of_first(bone@.children, 0) == 0);
                    assert forall|name: usize| #[trigger]
                        bone@.attach_points(name) == (if name < 1 {
                            1nat
                        } else {
                            0nat
                        }) by {
                        assert(attach_points_of_first(bone@.children, name, 0) == 0);
                    }
                    assert forall|name: usize| #[trigger]
                        bone@.count(name) == (if name < 1 {
                            1nat
                        } else {
                            0nat
                        }) by {
                        assert(count_of_first(bone@.children, name, 0) == 0);
                    }
                }
                Some(bone)
            },
        };
        joint_names.push(name);
        let skeleton = Skeleton { root, joint_names };
        assert(skeleton@.joint_names =~= before.joint_names.push(name@));
        skeleton
    }

    /// The names of the joints, in the order in which they were added.
    pub fn get_joint_names(&self) -> (names: &[String])
        ensures
            names@.len() == self@.joint_names.len(),
            forall|i: int| 0 <= i < names@.len() ==> (#[trigger] names@[i])@ == self@.joint_names[i],
    {
        self.joint_names.as_slice()
    }

    /// Searches the hierarchy for a bone with the name index `name_idx`.
    pub fn contains(&self, name_idx: usize) -> (found: bool)
        ensures
            found == self@.contains(name_idx),
    {
        match &self.root {
            Some(root) => root.contains(name_idx),
            None => false,
        }
    }

    /// The root of the hierarchy.
    pub fn get_root(&self) -> (root: &Option<Bone>)
        ensures
            self@.wf(),
            root.is_some() == self@.root.is_some(),
            root matches Some(bone) ==> self@.root == Some(bone@),
    {
        proof {
            use_type_invariant(self);
        }
        &self.root
    }

    /// Number of bones that have vertices attached.
    pub fn get_num_vertices_attached_bones(&self) -> (num_bones: usize)
        ensures
            num_bones == self@.attached(),
            num_bones <= self@.joint_names.len(),
    {
        proof {
            use_type_invariant(self);
        }
        let mut num_bones: usize = 0;
        match &self.root {
            Some(root) => {
                proof {
                    lemma_attached_le_size(root@);
                    assert(self@.joint_names.len() == self.joint_names.len());
                }
                root.get_num_vertices_attached_bones(&mut num_bones);
            },
            None => {},
        }
        num_bones
    }

    /// Compares two skeletons.
    pub fn is_same(&self, other: &Skeleton) -> (same: bool)
        ensures
            same == self@.same(other@),
    {
        if self.joint_names.len() != other.joint_names.len() {
            assert(self@.joint_names.len() != other@.joint_names.len());
            return false;
        }
        let n = self.joint_names.len();
        let mut i: usize = 0;
        while i < n
            invariant
                0 <= i <= n,
                n == self.joint_names.len(),
                n == other.joint_names.len(),
                forall|j: int| 0 <= j < i ==> self@.joint_names[j] == other@.joint_names[j],
            decreases n - i,
        {
            if self.joint_names[i] != other.joint_names[i] {
                assert(self@.joint_names[i as int] != other@.joint_names[i as int]);
                return false;
            }
            i += 1;
        }
        assert(self@.joint_names =~= other@.joint_names);
        match (&self.root, &other.root) {
            (Some(a), Some(b)) => a.is_same(b),
            (None, None) => true,
            _ => false,
        }
    }

    /// Builds the skeleton that a document describes: that of its first
    /// skeleton, matched against its first bind data.
    pub fn from(doc: &Document) -> (skeleton: Option<Skeleton>)
        requires
            buildable(*doc),
        ensures
            match skeleton {
                Some(s) => skeleton_of(*doc) == Some(s@),
                None => skeleton_of(*doc).is_none(),
            },
    {
        let skeletons = match &doc.skeletons {
            Some(skeletons) => skeletons,
            None => {
                return None;
            },
        };
        if skeletons.len() == 0 {
            return None;
        }
        let bind_data = match &doc.bind_data {
            Some(bind_data) => bind_data,
            None => {
                return None;
            },
        };
        let joints = &skeletons[0];
        let bind = &bind_data[0];
        let mut skeleton = Skeleton::new();
        let mut prev_inv_bind_pose = Matrix4::identity();
        let n = joints.len();
        let mut joint_idx: usize = 0;
        while joint_idx < n
            invariant
                0 <= joint_idx <= n,
                n == joints@.len(),
                parents_first(joints@),
                bind_ready(joints@, *bind),
                skeleton@ == built(joints@, *bind, joint_idx as nat),
                skeleton@.joint_names.len() == joint_idx,
                prev_inv_bind_pose == carried_pose(joints@, *bind, joint_idx - 1),
            decreases n - joint_idx,
        {
            let joint = &joints[joint_idx];
            let parent_idx = if joint.parent_index == ROOT_JOINT_PARENT_INDEX {
                None
            } else {
                Some(joint.parent_index as usize)
            };
            let position = find_bind_position(bind, joint.name.as_str());
            let vertices_attached = match position {
                Some(k) => {
                    prev_inv_bind_pose = bind.inverse_bind_poses[k];
                    true
                },
                None => false,
            };
            let bone = Bone::new(
                joint_idx,
                parent_idx,
                prev_inv_bind_pose,
                vertices_attached,
                position,
            );
            proof {
                assert(parent_of(joints@[joint_idx as int]) == parent_idx);
            }
            skeleton = skeleton.add(joint.name.clone(), bone);
            joint_idx += 1;
        }
        Some(skeleton)
    }
}

impl PartialEq for Skeleton {
    fn eq(&self, other: &Self) -> (r: bool) {
        self.is_same(other)
    }
}

impl PartialEqSpecImpl for Skeleton {
    open spec fn obeys_eq_spec() -> bool {
        true
    }

    open spec fn eq_spec(&self, other: &Self) -> bool {
        self@.same(other@)
    }
}

} // verus!
