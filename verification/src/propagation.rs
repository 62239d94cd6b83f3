//! The walk through the bone hierarchy that gives the final matrices.

use crate::document::{BindData, Joint, Track};
use crate::matrix::Matrix4;
use crate::naming::{first_segment, first_segment_is};
use crate::animation::{
    duration_of, frame_count, keys_fit, resamplable, resample, sample_at, Animation, Keyframe,
};
use crate::bone::{attached_of_first, count_of_first, size_of_first, Bone, BoneView};
use crate::skeleton::{
    bind_position, built, lemma_bind_position, lemma_built_made_of, lemma_built_names, made_of,
    skeleton_name_of,
    Skeleton, SkeletonView,
};
use vstd::prelude::*;
use vstd::set_lib::{lemma_int_range, lemma_subset_equality, set_int_range};

verus! {

/// One step of the walk through the bone hierarchy: the bone's transform in
/// model space is that of its parent's step times the bone's local pose.
#[derive(Clone, Copy, Debug, PartialEq)]
pub struct Step {
    /// Name index of the bone.
    pub bone: usize,
    /// Position in the plan of the step of the bone's parent; `None` for the
    /// root, which starts from the identity.
    pub parent: Option<usize>,
    /// Position of the track that gives the bone's local pose.
    pub track: usize,
    /// Where the bone's final matrix goes, if vertices are attached to it.
    pub output: Option<usize>,
    /// What the bone's transform is multiplied by to give its final matrix.
    pub inverse_bind_pose: Matrix4,
}

/// The walk through a bone hierarchy, parents before children, and the
/// number of final matrices that it fills.
#[derive(Debug)]
pub struct Plan {
    pub steps: Vec<Step>,
    pub outputs: usize,
}

/// Position of the last of the first `n` tracks whose target starts with the
/// segment `name`.
pub open spec fn last_track_in_first(tracks: Seq<Track>, name: Seq<char>, n: nat) -> Option<usize>
    decreases n,
{
    if n == 0 || n > tracks.len() {
        None
    } else if first_segment(tracks[n - 1].target@) == name {
        Some((n - 1) as usize)
    } else {
        last_track_in_first(tracks, name, (n - 1) as nat)
    }
}

/// For each joint name, the track that gives the local pose of the bones of
/// that name: the last one that targets it.
pub open spec fn local_tracks_of(names: Seq<Seq<char>>, tracks: Seq<Track>) -> Seq<Option<usize>> {
    Seq::new(names.len(), |j: int| last_track_in_first(tracks, names[j], tracks.len()))
}

/// The step of `bone`, given the position of its parent's step.
pub open spec fn step_of(bone: BoneView, parent: Option<usize>, tracks: Seq<Option<usize>>) -> Step {
    Step {
        bone: bone.name,
        parent,
        track: tracks[bone.name as int].unwrap(),
        output: if bone.vertices_attached {
            bone.idx_transform
        } else {
            None
        },
        inverse_bind_pose: bone.inverse_bind_pose,
    }
}

/// The steps of the subtree of `bone`, whose own step stands at position
/// `at` of the plan: the bone first, then the subtrees of its children in
/// their order.
pub open spec fn plan_of(
    bone: BoneView,
    parent: Option<usize>,
    at: nat,
    tracks: Seq<Option<usize>>,
) -> Seq<Step>
    decreases bone, 0nat,
{
    seq![step_of(bone, parent, tracks)] + plan_of_first(
        bone.children,
        Some(at as usize),
        at + 1,
        tracks,
        bone.children.len(),
    )
}

/// The steps of the subtrees of the first `n` bones of `bones`, which share
/// a parent and start at position `at` of the plan.
pub open spec fn plan_of_first(
    bones: Seq<BoneView>,
    parent: Option<usize>,
    at: nat,
    tracks: Seq<Option<usize>>,
    n: nat,
) -> Seq<Step>
    decreases bones, n,
{
    if n == 0 || n > bones.len() {
        Seq::empty()
    } else {
        let before = plan_of_first(bones, parent, at, tracks, (n - 1) as nat);
        before + plan_of(bones[n - 1], parent, at + before.len(), tracks)
    }
}

/// Whether the subtree of `bone` can be walked: every bone has a track, and
/// every bone with vertices attached has an output slot below `outputs`.
pub open spec fn ready(bone: BoneView, tracks: Seq<Option<usize>>, outputs: nat) -> bool
    decreases bone,
{
    &&& bone.name < tracks.len()
    &&& tracks[bone.name as int].is_some()
    &&& bone.vertices_attached ==> (bone.idx_transform matches Some(slot) && slot < outputs)
    &&& forall|i: int|
        0 <= i < bone.children.len() ==> ready(#[trigger] bone.children[i], tracks, outputs)
}

/// Whether each output slot that the steps give is below `outputs`.
pub open spec fn outputs_below(steps: Seq<Step>, outputs: nat) -> bool {
    forall|i: int|
        0 <= i < steps.len() ==> ((#[trigger] steps[i]).output matches Some(slot) ==> slot
            < outputs)
}

/// Whether the steps `steps`, which stand at position `at` of a plan and
/// walk subtrees below one parent, come in an order in which they can be
/// carried out: each refers either to the step of that parent, or to a step
/// of `steps` before it.
pub open spec fn in_order(steps: Seq<Step>, parent: Option<usize>, at: nat) -> bool {
    forall|i: int|
        0 <= i < steps.len() ==> ((#[trigger] steps[i]).parent == parent || (
        steps[i].parent matches Some(p) && at <= p < at + i))
}

/// Whether the steps `steps`, which stand at position `at` of a plan and
/// walk one subtree, come in an order in which they can be carried out: the
/// first refers to `parent`, and each other to a step of `steps` before it.
pub open spec fn walkable(steps: Seq<Step>, parent: Option<usize>, at: nat) -> bool {
    &&& steps.len() > 0
    &&& steps[0].parent == parent
    &&& forall|i: int|
        1 <= i < steps.len() ==> ((#[trigger] steps[i]).parent matches Some(p) && at <= p < at
            + i)
}

/// The plan of a subtree that can be walked has one step for each bone,
/// starts with the bone at the top, comes in an order in which it can be
/// carried out, and gives output slots below `outputs` only.
pub proof fn lemma_plan_of(
    bone: BoneView,
    parent: Option<usize>,
    at: nat,
    tracks: Seq<Option<usize>>,
    outputs: nat,
)
    requires
        ready(bone, tracks, outputs),
        at + bone.size() <= usize::MAX,
    ensures
        plan_of(bone, parent, at, tracks).len() == bone.size(),
        plan_of(bone, parent, at, tracks)[0] == step_of(bone, parent, tracks),
        walkable(plan_of(bone, parent, at, tracks), parent, at),
        outputs_below(plan_of(bone, parent, at, tracks), outputs),
    decreases bone, 0nat,
{
    let n = bone.children.len();
    let rest = plan_of_first(bone.children, Some(at as usize), at + 1, tracks, n);
    assert(bone.size() == 1 + size_of_first(bone.children, n));
    lemma_plan_of_first(bone.children, Some(at as usize), at + 1, tracks, outputs, n);
    let plan = plan_of(bone, parent, at, tracks);
    assert(plan == seq![step_of(bone, parent, tracks)] + rest);
    assert forall|i: int| 1 <= i < plan.len() implies ((#[trigger] plan[i]).parent matches Some(p)
        && at <= p < at + i) by {
        assert(plan[i] == rest[i - 1]);
    }
    assert forall|i: int| 0 <= i < plan.len() implies ((#[trigger] plan[i]).output matches Some(
        slot,
    ) ==> slot < outputs) by {
        if i > 0 {
            assert(plan[i] == rest[i - 1]);
        }
    }
}

/// `lemma_plan_of`, for the first `n` bones of `bones`.
pub proof fn lemma_plan_of_first(
    bones: Seq<BoneView>,
    parent: Option<usize>,
    at: nat,
    tracks: Seq<Option<usize>>,
    outputs: nat,
    n: nat,
)
    requires
        n <= bones.len(),
        forall|i: int| 0 <= i < n ==> ready(#[trigger] bones[i], tracks, outputs),
        at + size_of_first(bones, n) <= usize::MAX,
    ensures
        plan_of_first(bones, parent, at, tracks, n).len() == size_of_first(bones, n),
        in_order(plan_of_first(bones, parent, at, tracks, n), parent, at),
        outputs_below(plan_of_first(bones, parent, at, tracks, n), outputs),
    decreases bones, n,
{
    if n > 0 {
        let m = (n - 1) as nat;
        let before = plan_of_first(bones, parent, at, tracks, m);
        let last = plan_of(bones[n - 1], parent, at + before.len(), tracks);
        let plan = plan_of_first(bones, parent, at, tracks, n);
        assert(size_of_first(bones, n) == size_of_first(bones, m) + bones[n - 1].size());
        lemma_plan_of_first(bones, parent, at, tracks, outputs, m);
        lemma_plan_of(bones[n - 1], parent, at + before.len(), tracks, outputs);
        assert(plan == before + last);
        assert forall|i: int| 0 <= i < plan.len() implies ((#[trigger] plan[i]).parent == parent
            || (plan[i].parent matches Some(p) && at <= p < at + i)) by {
            if i < before.len() {
                assert(plan[i] == before[i]);
            } else {
                assert(plan[i] == last[i - before.len()]);
            }
        }
        assert forall|i: int| 0 <= i < plan.len() implies ((#[trigger] plan[i]).output matches Some(
            slot,
        ) ==> slot < outputs) by {
            if i < before.len() {
                assert(plan[i] == before[i]);
            } else {
                assert(plan[i] == last[i - before.len()]);
            }
        }
    } else {
        assert(plan_of_first(bones, parent, at, tracks, n) == Seq::<Step>::empty());
        assert(size_of_first(bones, n) == 0);
    }
}

/// Number of the first `n` steps of which `p` holds.
pub open spec fn matching_in_first(steps: Seq<Step>, p: spec_fn(Step) -> bool, n: nat) -> nat
    decreases n,
{
    if n == 0 || n > steps.len() {
        0
    } else {
        matching_in_first(steps, p, (n - 1) as nat) + (if p(steps[n - 1]) {
            1nat
        } else {
            0nat
        })
    }
}

/// What holds of a step that gives an output.
pub open spec fn has_output() -> spec_fn(Step) -> bool {
    |step: Step| step.output.is_some()
}

/// What holds of a step of the bone with the name index `name`.
pub open spec fn is_bone(name: usize) -> spec_fn(Step) -> bool {
    |step: Step| step.bone == name
}

/// Number of the first `n` steps that give an output.
pub open spec fn outputs_in_first(steps: Seq<Step>, n: nat) -> nat {
    matching_in_first(steps, has_output(), n)
}

/// The output slots that the first `n` steps give.
pub open spec fn slots_in_first(steps: Seq<Step>, n: nat) -> Set<int>
    decreases n,
{
    if n == 0 || n > steps.len() {
        Set::empty()
    } else {
        match steps[n - 1].output {
            Some(slot) => slots_in_first(steps, (n - 1) as nat).insert(slot as int),
            None => slots_in_first(steps, (n - 1) as nat),
        }
    }
}

/// Whether no two steps give the same output slot.
pub open spec fn distinct_outputs(steps: Seq<Step>) -> bool {
    forall|i: int, j: int|
        0 <= i < steps.len() && 0 <= j < steps.len() && i != j && (
        #[trigger] steps[i]).output.is_some() ==> steps[i].output != (#[trigger] steps[j]).output
}

/// The number of matching steps among the first of a list does not depend
/// on what follows them.
pub proof fn lemma_matching_prefix(a: Seq<Step>, b: Seq<Step>, p: spec_fn(Step) -> bool, n: nat)
    requires
        n <= a.len(),
        n <= b.len(),
        forall|i: int| 0 <= i < n ==> a[i] == b[i],
    ensures
        matching_in_first(a, p, n) == matching_in_first(b, p, n),
    decreases n,
{
    if n > 0 {
        lemma_matching_prefix(a, b, p, (n - 1) as nat);
    }
}

/// Two lists of steps hold together as many matching steps as they hold
/// apart.
pub proof fn lemma_matching_both(a: Seq<Step>, b: Seq<Step>, p: spec_fn(Step) -> bool, n: nat)
    requires
        n <= b.len(),
    ensures
        matching_in_first(a + b, p, a.len() + n) == matching_in_first(a, p, a.len())
            + matching_in_first(b, p, n),
    decreases n,
{
    if n > 0 {
        lemma_matching_both(a, b, p, (n - 1) as nat);
        assert((a + b)[a.len() + n - 1] == b[n - 1]);
    } else {
        lemma_matching_prefix(a + b, a, p, a.len());
    }
}

/// No fewer matching steps are among the first `m` steps than among the
/// first `n`, when `n <= m`.
pub proof fn lemma_matching_grows(steps: Seq<Step>, p: spec_fn(Step) -> bool, n: nat, m: nat)
    requires
        n <= m <= steps.len(),
    ensures
        matching_in_first(steps, p, n) <= matching_in_first(steps, p, m),
    decreases m,
{
    if n < m {
        lemma_matching_grows(steps, p, n, (m - 1) as nat);
    }
}

/// Two matching steps make the number of matching steps two or more.
pub proof fn lemma_matching_twice(steps: Seq<Step>, p: spec_fn(Step) -> bool, i: int, j: int)
    requires
        0 <= i < j < steps.len(),
        p(steps[i]),
        p(steps[j]),
    ensures
        matching_in_first(steps, p, steps.len()) >= 2,
{
    lemma_matching_grows(steps, p, 0, i as nat);
    assert(matching_in_first(steps, p, (i + 1) as nat) == matching_in_first(steps, p, i as nat)
        + 1);
    lemma_matching_grows(steps, p, (i + 1) as nat, j as nat);
    assert(matching_in_first(steps, p, (j + 1) as nat) == matching_in_first(steps, p, j as nat)
        + 1);
    lemma_matching_grows(steps, p, (j + 1) as nat, steps.len());
}

/// The plan of a subtree that can be walked gives one output for each bone
/// with vertices attached.
pub proof fn lemma_plan_outputs(
    bone: BoneView,
    parent: Option<usize>,
    at: nat,
    tracks: Seq<Option<usize>>,
    outputs: nat,
)
    requires
        ready(bone, tracks, outputs),
    ensures
        outputs_in_first(
            plan_of(bone, parent, at, tracks),
            plan_of(bone, parent, at, tracks).len(),
        ) == bone.attached(),
    decreases bone, 0nat,
{
    let n = bone.children.len();
    let head = seq![step_of(bone, parent, tracks)];
    let rest = plan_of_first(bone.children, Some(at as usize), at + 1, tracks, n);
    lemma_plan_outputs_first(bone.children, Some(at as usize), at + 1, tracks, outputs, n);
    assert(plan_of(bone, parent, at, tracks) == head + rest);
    lemma_matching_both(head, rest, has_output(), rest.len());
    assert(matching_in_first(head, has_output(), 1) == matching_in_first(head, has_output(), 0) + (
    if head[0].output.is_some() {
        1nat
    } else {
        0nat
    }));
    assert(bone.attached() == (if bone.vertices_attached {
        1nat
    } else {
        0nat
    }) + attached_of_first(bone.children, n));
}

/// `lemma_plan_outputs`, for the first `n` bones of `bones`.
pub proof fn lemma_plan_outputs_first(
    bones: Seq<BoneView>,
    parent: Option<usize>,
    at: nat,
    tracks: Seq<Option<usize>>,
    outputs: nat,
    n: nat,
)
    requires
        n <= bones.len(),
        forall|i: int| 0 <= i < n ==> ready(#[trigger] bones[i], tracks, outputs),
    ensures
        outputs_in_first(
            plan_of_first(bones, parent, at, tracks, n),
            plan_of_first(bones, parent, at, tracks, n).len(),
        ) == attached_of_first(bones, n),
    decreases bones, n,
{
    if n > 0 {
        let m = (n - 1) as nat;
        let before = plan_of_first(bones, parent, at, tracks, m);
        let last = plan_of(bones[n - 1], parent, at + before.len(), tracks);
        lemma_plan_outputs_first(bones, parent, at, tracks, outputs, m);
        lemma_plan_outputs(bones[n - 1], parent, at + before.len(), tracks, outputs);
        assert(plan_of_first(bones, parent, at, tracks, n) == before + last);
        lemma_matching_both(before, last, has_output(), last.len());
        assert(attached_of_first(bones, n) == attached_of_first(bones, m) + bones[n
            - 1].attached());
    } else {
        assert(plan_of_first(bones, parent, at, tracks, n) == Seq::<Step>::empty());
        assert(attached_of_first(bones, n) == 0);
    }
}

/// The plan of a subtree has one step for each bone, under the bone's name
/// index.
pub proof fn lemma_plan_bones(
    bone: BoneView,
    parent: Option<usize>,
    at: nat,
    tracks: Seq<Option<usize>>,
    name: usize,
)
    ensures
        matching_in_first(
            plan_of(bone, parent, at, tracks),
            is_bone(name),
            plan_of(bone, parent, at, tracks).len(),
        ) == bone.count(name),
    decreases bone, 0nat,
{
    let n = bone.children.len();
    let head = seq![step_of(bone, parent, tracks)];
    let rest = plan_of_first(bone.children, Some(at as usize), at + 1, tracks, n);
    lemma_plan_bones_first(bone.children, Some(at as usize), at + 1, tracks, name, n);
    assert(plan_of(bone, parent, at, tracks) == head + rest);
    lemma_matching_both(head, rest, is_bone(name), rest.len());
    assert(matching_in_first(head, is_bone(name), 1) == matching_in_first(head, is_bone(name), 0)
        + (if head[0].bone == name {
        1nat
    } else {
        0nat
    }));
    assert(bone.count(name) == (if bone.name == name {
        1nat
    } else {
        0nat
    }) + count_of_first(bone.children, name, n));
}

/// `lemma_plan_bones`, for the first `n` bones of `bones`.
pub proof fn lemma_plan_bones_first(
    bones: Seq<BoneView>,
    parent: Option<usize>,
    at: nat,
    tracks: Seq<Option<usize>>,
    name: usize,
    n: nat,
)
    requires
        n <= bones.len(),
    ensures
        matching_in_first(
            plan_of_first(bones, parent, at, tracks, n),
            is_bone(name),
            plan_of_first(bones, parent, at, tracks, n).len(),
        ) == count_of_first(bones, name, n),
    decreases bones, n,
{
    if n > 0 {
        let m = (n - 1) as nat;
        let before = plan_of_first(bones, parent, at, tracks, m);
        let last = plan_of(bones[n - 1], parent, at + before.len(), tracks);
        lemma_plan_bones_first(bones, parent, at, tracks, name, m);
        lemma_plan_bones(bones[n - 1], parent, at + before.len(), tracks, name);
        assert(plan_of_first(bones, parent, at, tracks, n) == before + last);
        lemma_matching_both(before, last, is_bone(name), last.len());
        assert(count_of_first(bones, name, n) == count_of_first(bones, name, m) + bones[n
            - 1].count(name));
    } else {
        assert(plan_of_first(bones, parent, at, tracks, n) == Seq::<Step>::empty());
        assert(count_of_first(bones, name, n) == 0);
    }
}

/// Whether `step` is the step of `bone`, of which `p` holds.
pub open spec fn is_step_of(
    step: Step,
    bone: BoneView,
    p: spec_fn(BoneView) -> bool,
    tracks: Seq<Option<usize>>,
) -> bool {
    p(bone) && step == step_of(bone, step.parent, tracks)
}

/// Whether `step` is the step of some bone of which `p` holds.
pub open spec fn has_bone(step: Step, p: spec_fn(BoneView) -> bool, tracks: Seq<Option<usize>>) -> bool {
    exists|bone: BoneView| #[trigger] is_step_of(step, bone, p, tracks)
}

/// Whether each step is the step of a bone of which `p` holds.
pub open spec fn steps_of(
    steps: Seq<Step>,
    p: spec_fn(BoneView) -> bool,
    tracks: Seq<Option<usize>>,
) -> bool {
    forall|i: int| 0 <= i < steps.len() ==> has_bone(#[trigger] steps[i], p, tracks)
}

/// Each step of the plan of a subtree is the step of one of its bones.
pub proof fn lemma_plan_steps(
    bone: BoneView,
    parent: Option<usize>,
    at: nat,
    tracks: Seq<Option<usize>>,
    p: spec_fn(BoneView) -> bool,
)
    requires
        bone.every(p),
    ensures
        steps_of(plan_of(bone, parent, at, tracks), p, tracks),
    decreases bone, 0nat,
{
    let n = bone.children.len();
    let rest = plan_of_first(bone.children, Some(at as usize), at + 1, tracks, n);
    let plan = plan_of(bone, parent, at, tracks);
    lemma_plan_steps_first(bone.children, Some(at as usize), at + 1, tracks, p, n);
    assert(plan == seq![step_of(bone, parent, tracks)] + rest);
    assert forall|i: int| 0 <= i < plan.len() implies has_bone(#[trigger] plan[i], p, tracks) by {
        if i > 0 {
            assert(plan[i] == rest[i - 1]);
            assert(has_bone(rest[i - 1], p, tracks));
            let b = choose|b: BoneView| #[trigger] is_step_of(rest[i - 1], b, p, tracks);
            assert(is_step_of(plan[i], b, p, tracks));
        } else {
            assert(is_step_of(plan[i], bone, p, tracks));
        }
    }
}

/// `lemma_plan_steps`, for the first `n` bones of `bones`.
pub proof fn lemma_plan_steps_first(
    bones: Seq<BoneView>,
    parent: Option<usize>,
    at: nat,
    tracks: Seq<Option<usize>>,
    p: spec_fn(BoneView) -> bool,
    n: nat,
)
    requires
        n <= bones.len(),
        forall|i: int| 0 <= i < n ==> (#[trigger] bones[i]).every(p),
    ensures
        steps_of(plan_of_first(bones, parent, at, tracks, n), p, tracks),
    decreases bones, n,
{
    if n > 0 {
        let m = (n - 1) as nat;
        let before = plan_of_first(bones, parent, at, tracks, m);
        let last = plan_of(bones[n - 1], parent, at + before.len(), tracks);
        let plan = plan_of_first(bones, parent, at, tracks, n);
        lemma_plan_steps_first(bones, parent, at, tracks, p, m);
        lemma_plan_steps(bones[n - 1], parent, at + before.len(), tracks, p);
        assert(plan == before + last);
        assert forall|i: int| 0 <= i < plan.len() implies has_bone(
            #[trigger] plan[i],
            p,
            tracks,
        ) by {
            if i < before.len() {
                assert(plan[i] == before[i]);
                assert(has_bone(before[i], p, tracks));
                let b = choose|b: BoneView| #[trigger] is_step_of(before[i], b, p, tracks);
                assert(is_step_of(plan[i], b, p, tracks));
            } else {
                let k = i - before.len();
                assert(plan[i] == last[k]);
                assert(has_bone(last[k], p, tracks));
                let b = choose|b: BoneView| #[trigger] is_step_of(last[k], b, p, tracks);
                assert(is_step_of(plan[i], b, p, tracks));
            }
        }
    } else {
        assert(plan_of_first(bones, parent, at, tracks, n) == Seq::<Step>::empty());
    }
}

/// The plan of a skeleton made of joints with different names gives no
/// output slot twice.
pub proof fn lemma_plan_of_built_distinct(
    skeleton: SkeletonView,
    joints: Seq<Joint>,
    bind: BindData,
    tracks: Seq<Option<usize>>,
)
    requires
        skeleton.wf(),
        skeleton.root.is_some(),
        skeleton == built(joints, bind, joints.len()),
        joints.len() <= usize::MAX,
        forall|i: int, j: int|
            0 <= i < joints.len() && 0 <= j < joints.len() && i != j ==> (#[trigger] joints[i]).name@
                != (#[trigger] joints[j]).name@,
    ensures
        distinct_outputs(plan_of(skeleton.root.unwrap(), None, 0, tracks)),
{
    let root = skeleton.root.unwrap();
    let plan = plan_of(root, None, 0, tracks);
    let p = made_of(joints, bind);
    lemma_built_made_of(joints, bind, joints.len());
    lemma_plan_steps(root, None, 0, tracks, p);
    assert forall|i: int, j: int|
        0 <= i < plan.len() && 0 <= j < plan.len() && i != j && (
        #[trigger] plan[i]).output.is_some() implies plan[i].output != (
    #[trigger] plan[j]).output by {
        if plan[i].output == plan[j].output {
            assert(has_bone(plan[i], p, tracks));
            assert(has_bone(plan[j], p, tracks));
            let a = choose|b: BoneView| #[trigger] is_step_of(plan[i], b, p, tracks);
            let b = choose|b: BoneView| #[trigger] is_step_of(plan[j], b, p, tracks);
            let slot = plan[i].output.unwrap();
            assert(bind.joint_names@.len() == bind.joint_names.len());
            assert(bind_position(bind, joints[a.name as int].name@) == Some(slot));
            assert(bind_position(bind, joints[b.name as int].name@) == Some(slot));
            lemma_bind_position(
                skeleton_name_of(bind),
                bind.joint_names@,
                joints[a.name as int].name@,
                bind.joint_names@.len(),
            );
            lemma_bind_position(
                skeleton_name_of(bind),
                bind.joint_names@,
                joints[b.name as int].name@,
                bind.joint_names@.len(),
            );
            assert(a.name == b.name);
            if i < j {
                lemma_matching_twice(plan, is_bone(a.name), i, j);
            } else {
                lemma_matching_twice(plan, is_bone(a.name), j, i);
            }
            lemma_plan_bones(root, None, 0, tracks, a.name);
            assert(root.count(a.name) <= 1);
        }
    }
}

/// With no output slot given twice, the first `n` steps give as many slots
/// as outputs, and those slots are the ones that some step among them
/// gives.
#[verifier::rlimit(50)]
pub proof fn lemma_slots_in_first(steps: Seq<Step>, n: nat)
    requires
        n <= steps.len(),
        distinct_outputs(steps),
    ensures
        slots_in_first(steps, n).finite(),
        slots_in_first(steps, n).len() == outputs_in_first(steps, n),
        forall|slot: int|
            slots_in_first(steps, n).contains(slot) <==> exists|i: int|
                0 <= i < n && (#[trigger] steps[i]).output == Some(slot as usize) && 0 <= slot
                    <= usize::MAX,
    decreases n,
{
    if n > 0 {
        let m = (n - 1) as nat;
        lemma_slots_in_first(steps, m);
        let before = slots_in_first(steps, m);
        let after = slots_in_first(steps, n);
        match steps[n - 1].output {
            Some(o) => {
                assert(after == before.insert(o as int));
                if before.contains(o as int) {
                    let i = choose|i: int|
                        0 <= i < m && (#[trigger] steps[i]).output == Some(o as int as usize);
                    assert(steps[i].output == steps[n - 1].output);
                }
                assert forall|slot: int| after.contains(slot) <==> exists|i: int|
                    0 <= i < n && (#[trigger] steps[i]).output == Some(slot as usize) && 0 <= slot
                        <= usize::MAX by {
                    if after.contains(slot) {
                        if slot == o {
                            assert(steps[n - 1].output == Some(slot as usize));
                        } else {
                            let i = choose|i: int|
                                0 <= i < m && (#[trigger] steps[i]).output == Some(slot as usize)
                                    && 0 <= slot <= usize::MAX;
                            assert(0 <= i < n && steps[i].output == Some(slot as usize));
                        }
                    }
                    if exists|i: int|
                        0 <= i < n && (#[trigger] steps[i]).output == Some(slot as usize) && 0
                            <= slot <= usize::MAX {
                        let i = choose|i: int|
                            0 <= i < n && (#[trigger] steps[i]).output == Some(slot as usize) && 0
                                <= slot <= usize::MAX;
                        if i < m {
                            assert(before.contains(slot));
                        }
                    }
                }
            },
            None => {
                assert(after == before);
                assert forall|slot: int| after.contains(slot) <==> exists|i: int|
                    0 <= i < n && (#[trigger] steps[i]).output == Some(slot as usize) && 0 <= slot
                        <= usize::MAX by {
                    if after.contains(slot) {
                        let i = choose|i: int|
                            0 <= i < m && (#[trigger] steps[i]).output == Some(slot as usize) && 0
                                <= slot <= usize::MAX;
                        assert(0 <= i < n && steps[i].output == Some(slot as usize));
                    }
                    if exists|i: int|
                        0 <= i < n && (#[trigger] steps[i]).output == Some(slot as usize) && 0
                            <= slot <= usize::MAX {
                        let i = choose|i: int|
                            0 <= i < n && (#[trigger] steps[i]).output == Some(slot as usize) && 0
                                <= slot <= usize::MAX;
                        assert(i < m);
                    }
                }
            },
        }
    } else {
        assert(slots_in_first(steps, n) == Set::<int>::empty());
    }
}

/// Whether some step gives the output slot `slot`.
pub open spec fn gives(steps: Seq<Step>, slot: usize) -> bool {
    exists|i: int| 0 <= i < steps.len() && (#[trigger] steps[i]).output == Some(slot)
}

/// Where a plan gives as many outputs as there are output slots, all of
/// them below that number and none of them twice, each output slot is given
/// by one step.
pub proof fn lemma_outputs_one_to_one(steps: Seq<Step>, outputs: nat)
    requires
        outputs_below(steps, outputs),
        distinct_outputs(steps),
        outputs_in_first(steps, steps.len()) == outputs,
    ensures
        forall|slot: usize| slot < outputs ==> #[trigger] gives(steps, slot),
{
    let given = slots_in_first(steps, steps.len());
    let all = set_int_range(0, outputs as int);
    lemma_slots_in_first(steps, steps.len());
    lemma_int_range(0, outputs as int);
    assert(given.subset_of(all)) by {
        assert forall|slot: int| given.contains(slot) implies all.contains(slot) by {
            let i = choose|i: int|
                0 <= i < steps.len() && (#[trigger] steps[i]).output == Some(slot as usize) && 0
                    <= slot <= usize::MAX;
            assert(steps[i].output matches Some(o) ==> o < outputs);
        }
    }
    lemma_subset_equality(given, all);
    assert forall|slot: usize| slot < outputs implies #[trigger] gives(steps, slot) by {
        assert(all.contains(slot as int));
        assert(given.contains(slot as int));
        let i = choose|i: int|
            0 <= i < steps.len() && (#[trigger] steps[i]).output == Some(slot as int as usize)
                && 0 <= slot as int <= usize::MAX;
        assert(steps[i].output == Some(slot));
    }
}

/// The plan of a skeleton made of joints with different names fills the
/// final matrices one to one: it gives as many outputs as bones have
/// vertices attached, and each output slot below that number exactly once.
pub proof fn lemma_plan_fills_outputs(
    skeleton: SkeletonView,
    joints: Seq<Joint>,
    bind: BindData,
    tracks: Seq<Option<usize>>,
)
    requires
        skeleton.wf(),
        skeleton == built(joints, bind, joints.len()),
        joints.len() <= usize::MAX,
        forall|i: int, j: int|
            0 <= i < joints.len() && 0 <= j < joints.len() && i != j ==> (#[trigger] joints[i]).name@
                != (#[trigger] joints[j]).name@,
        skeleton.root matches Some(root) && ready(root, tracks, skeleton.attached()),
    ensures
        ({
            let plan = plan_of(skeleton.root.unwrap(), None, 0, tracks);
            &&& outputs_in_first(plan, plan.len()) == skeleton.attached()
            &&& distinct_outputs(plan)
            &&& forall|slot: usize| slot < skeleton.attached() ==> #[trigger] gives(plan, slot)
            &&& outputs_below(plan, skeleton.attached())
            &&& walkable(plan, None, 0)
        }),
{
    let root = skeleton.root.unwrap();
    let plan = plan_of(root, None, 0, tracks);
    lemma_built_names(joints, bind, joints.len());
    lemma_plan_of(root, None, 0, tracks, skeleton.attached());
    lemma_plan_outputs(root, None, 0, tracks, skeleton.attached());
    lemma_plan_of_built_distinct(skeleton, joints, bind, tracks);
    lemma_outputs_one_to_one(plan, skeleton.attached());
}

/// Finds the track that gives the local pose of the bones named `name`.
pub fn find_local_track(bone_animations: &Vec<Track>, name: &str) -> (track: Option<usize>)
    ensures
        track == last_track_in_first(bone_animations@, name@, bone_animations@.len()),
{
    let n = bone_animations.len();
    let mut i: usize = n;
    while i > 0
        invariant
            0 <= i <= n,
            n == bone_animations@.len(),
            last_track_in_first(bone_animations@, name@, n as nat) == last_track_in_first(
                bone_animations@,
                name@,
                i as nat,
            ),
        decreases i,
    {
        if first_segment_is(bone_animations[i - 1].target.as_str(), name) {
            return Some(i - 1);
        }
        i -= 1;
    }
    None
}

/// Finds, for each joint name, the track that gives the local pose of the
/// bones of that name.
pub fn local_tracks(joint_names: &[String], bone_animations: &Vec<Track>) -> (tracks: Vec<
    Option<usize>,
>)
    ensures
        tracks@ == local_tracks_of(
            Seq::new(joint_names@.len(), |j: int| joint_names@[j]@),
            bone_animations@,
        ),
{
    let ghost names = Seq::new(joint_names@.len(), |j: int| joint_names@[j]@);
    let n = joint_names.len();
    let mut tracks: Vec<Option<usize>> = Vec::new();
    let mut j: usize = 0;
    while j < n
        invariant
            0 <= j <= n,
            n == joint_names@.len(),
            names == Seq::new(joint_names@.len(), |j: int| joint_names@[j]@),
            tracks@.len() == j,
            forall|k: int|
                0 <= k < j ==> #[trigger] tracks@[k] == last_track_in_first(
                    bone_animations@,
                    names[k],
                    bone_animations@.len(),
                ),
        decreases n - j,
    {
        let track = find_local_track(bone_animations, joint_names[j].as_str());
        tracks.push(track);
        j += 1;
    }
    assert(tracks@ =~= local_tracks_of(names, bone_animations@));
    tracks
}

/// Appends to `steps` the steps of the subtree of `bone`, unless it cannot
/// be walked.
pub fn recursive_final_transforms(
    bone: &Bone,
    parent: Option<usize>,
    tracks: &Vec<Option<usize>>,
    outputs: usize,
    steps: &mut Vec<Step>,
) -> (walked: bool)
    ensures
        walked == ready(bone@, tracks@, outputs as nat),
        old(steps)@.len() <= final(steps)@.len(),
        final(steps)@.take(old(steps)@.len() as int) == old(steps)@,
        walked ==> final(steps)@ == old(steps)@ + plan_of(
            bone@,
            parent,
            old(steps)@.len(),
            tracks@,
        ),
    decreases bone@,
{
    let name_idx = bone.get_name_idx();
    if name_idx >= tracks.len() {
        return false;
    }
    let track = match tracks[name_idx] {
        Some(track) => track,
        None => {
            return false;
        },
    };
    let output = if bone.has_vertices_attached() {
        match bone.get_idx_transform() {
            Some(slot) => {
                if slot >= outputs {
                    return false;
                }
                Some(slot)
            },
            None => {
                return false;
            },
        }
    } else {
        None
    };
    let at = steps.len();
    steps.push(
        Step { bone: name_idx, parent, track, output, inverse_bind_pose: *bone.get_inverse_bind_pose() },
    );
    match bone.get_children() {
        Some(children) => {
            let n = children.len();
            let mut i: usize = 0;
            while i < n
                invariant
                    0 <= i <= n,
                    n == children@.len(),
                    n == bone@.children.len(),
                    at == old(steps)@.len(),
                    forall|k: int| 0 <= k < n ==> (#[trigger] children@[k])@ == bone@.children[k],
                    forall|k: int| 0 <= k < i ==> ready(#[trigger] bone@.children[k], tracks@, outputs as nat),
                    steps@ == old(steps)@ + seq![step_of(bone@, parent, tracks@)] + plan_of_first(
                        bone@.children,
                        Some(at),
                        (at + 1) as nat,
                        tracks@,
                        i as nat,
                    ),
                decreases n - i,
            {
                let ghost before = plan_of_first(
                    bone@.children,
                    Some(at),
                    (at + 1) as nat,
                    tracks@,
                    i as nat,
                );
                assert(plan_of_first(
                    bone@.children,
                    Some(at),
                    (at + 1) as nat,
                    tracks@,
                    (i + 1) as nat,
                ) == before + plan_of(
                    bone@.children[i as int],
                    Some(at),
                    (at + 1 + before.len()) as nat,
                    tracks@,
                ));
                if !recursive_final_transforms(&children[i], Some(at), tracks, outputs, steps) {
                    return false;
                }
                i += 1;
            }
        },
        None => {
            assert(plan_of_first(bone@.children, Some(at), (at + 1) as nat, tracks@, 0)
                == Seq::<Step>::empty());
        },
    }
    true
}

/// Plans the walk that turns the local poses of one instant into the final
/// matrices: `None` when the skeleton has no root, a bone has no track, or
/// an output slot is not below the number of bones with vertices attached.
pub fn compute_final_transforms(skeleton: &Skeleton, bone_animations: &Vec<Track>) -> (plan: Option<
    Plan,
>)
    ensures
        match plan {
            Some(plan) => skeleton@.root matches Some(root) && ready(
                root,
                local_tracks_of(skeleton@.joint_names, bone_animations@),
                skeleton@.attached(),
            ) && plan.outputs == skeleton@.attached() && plan.steps@ == plan_of(
                root,
                None,
                0,
                local_tracks_of(skeleton@.joint_names, bone_animations@),
            ) && plan.steps@.len() == skeleton@.joint_names.len() && walkable(
                plan.steps@,
                None,
                0,
            ) && outputs_below(plan.steps@, plan.outputs as nat) && outputs_in_first(
                plan.steps@,
                plan.steps@.len(),
            ) == plan.outputs,
            None => !(skeleton@.root matches Some(root) && ready(
                root,
                local_tracks_of(skeleton@.joint_names, bone_animations@),
                skeleton@.attached(),
            )),
        },
{
    let root = match skeleton.get_root() {
        Some(root) => root,
        None => {
            return None;
        },
    };
    let outputs = skeleton.get_num_vertices_attached_bones();
    let joint_names = skeleton.get_joint_names();
    let tracks = local_tracks(joint_names, bone_animations);
    assert(Seq::new(joint_names@.len(), |j: int| joint_names@[j]@) =~= skeleton@.joint_names);
    let mut steps: Vec<Step> = Vec::new();
    if recursive_final_transforms(root, None, &tracks, outputs, &mut steps) {
        proof {
            assert(root@.size() == skeleton@.joint_names.len());
            assert(tracks@.len() == skeleton@.joint_names.len());
            assert(tracks@.len() == tracks.len());
            lemma_plan_of(root@, None, 0, tracks@, outputs as nat);
            lemma_plan_outputs(root@, None, 0, tracks@, outputs as nat);
        }
        Some(Plan { steps, outputs })
    } else {
        None
    }
}

/// The final matrices of one instant after the first `n` steps were carried
/// out: `outputs` matrices that start as the identity, with the final
/// matrix of each step put at the step's output slot.
pub open spec fn scattered_first(
    steps: Seq<Step>,
    finals: Seq<Matrix4>,
    outputs: nat,
    n: nat,
) -> Seq<Matrix4>
    decreases n,
{
    if n == 0 || n > steps.len() {
        Seq::new(outputs, |slot: int| Matrix4::unit())
    } else {
        let before = scattered_first(steps, finals, outputs, (n - 1) as nat);
        match steps[n - 1].output {
            Some(slot) => if slot < outputs {
                before.update(slot as int, finals[n - 1])
            } else {
                before
            },
            None => before,
        }
    }
}

/// The final matrices of one instant, by output slot.
pub open spec fn scattered(steps: Seq<Step>, finals: Seq<Matrix4>, outputs: nat) -> Seq<Matrix4> {
    scattered_first(steps, finals, outputs, steps.len())
}

/// There are `outputs` final matrices. Where no output slot is given twice,
/// the slot of each step holds the final matrix of that step, and a slot
/// that no step gives holds the identity.
pub proof fn lemma_scattered(steps: Seq<Step>, finals: Seq<Matrix4>, outputs: nat, n: nat)
    requires
        n <= steps.len(),
    ensures
        scattered_first(steps, finals, outputs, n).len() == outputs,
        distinct_outputs(steps) ==> forall|i: int|
            0 <= i < n ==> ((#[trigger] steps[i]).output matches Some(slot) ==> slot < outputs
                ==> scattered_first(steps, finals, outputs, n)[slot as int] == finals[i]),
        forall|slot: int|
            0 <= slot < outputs && (forall|i: int|
                0 <= i < n ==> (#[trigger] steps[i]).output != Some(slot as usize))
                ==> #[trigger] scattered_first(steps, finals, outputs, n)[slot] == Matrix4::unit(),
    decreases n,
{
    if n > 0 {
        lemma_scattered(steps, finals, outputs, (n - 1) as nat);
        let before = scattered_first(steps, finals, outputs, (n - 1) as nat);
        let after = scattered_first(steps, finals, outputs, n);
        if distinct_outputs(steps) {
            assert forall|i: int| 0 <= i < n implies ((#[trigger] steps[i]).output matches Some(
                slot,
            ) ==> slot < outputs ==> after[slot as int] == finals[i]) by {
                if i < n - 1 && steps[i].output.is_some() {
                    assert(steps[i].output != steps[n - 1].output);
                }
            }
        }
        assert forall|slot: int|
            0 <= slot < outputs && (forall|i: int|
                0 <= i < n ==> (#[trigger] steps[i]).output != Some(
                    slot as usize,
                )) implies #[trigger] after[slot] == Matrix4::unit() by {
            assert(steps[n - 1].output != Some(slot as usize));
            assert(after[slot] == before[slot]);
        }
    }
}

/// Puts the final matrix of each step at the step's output slot, among
/// `outputs` matrices that start as the identity. `None` when there is not
/// one final matrix for each step, or an output slot is not below
/// `outputs`.
pub fn scatter(steps: &Vec<Step>, outputs: usize, finals: &Vec<Matrix4>) -> (transforms: Option<
    Vec<Matrix4>,
>)
    ensures
        transforms.is_some() <==> finals@.len() == steps@.len() && outputs_below(
            steps@,
            outputs as nat,
        ),
        transforms matches Some(t) ==> t@ == scattered(steps@, finals@, outputs as nat) && t@.len()
            == outputs,
{
    let n = steps.len();
    if finals.len() != n {
        return None;
    }
    let mut transforms: Vec<Matrix4> = Vec::new();
    let mut slot: usize = 0;
    while slot < outputs
        invariant
            0 <= slot <= outputs,
            transforms@.len() == slot,
            forall|k: int| 0 <= k < slot ==> transforms@[k] == Matrix4::unit(),
        decreases outputs - slot,
    {
        transforms.push(Matrix4::identity());
        slot += 1;
    }
    assert(transforms@ =~= scattered_first(steps@, finals@, outputs as nat, 0));
    let mut i: usize = 0;
    while i < n
        invariant
            0 <= i <= n,
            n == steps@.len(),
            n == finals@.len(),
            transforms@.len() == outputs,
            transforms@ == scattered_first(steps@, finals@, outputs as nat, i as nat),
            forall|k: int|
                0 <= k < i ==> ((#[trigger] steps@[k]).output matches Some(s) ==> s < outputs),
        decreases n - i,
    {
        match steps[i].output {
            Some(s) => {
                if s >= outputs {
                    assert(!(steps@[i as int].output matches Some(s) ==> s < outputs));
                    return None;
                }
                transforms.set(s, finals[i]);
            },
            None => {},
        }
        i += 1;
    }
    Some(transforms)
}

/// Whether the final matrices `finals`, one list for each keyframe with one
/// matrix for each step of the walk, can be made into the keyframes of the
/// first track, resampled at `frame_time`, for `skeleton`.
pub open spec fn bakeable(
    skeleton: SkeletonView,
    bone_animations: Seq<Track>,
    frame_time: int,
    finals: Seq<Vec<Matrix4>>,
) -> bool {
    &&& skeleton.root matches Some(root) && ready(
        root,
        local_tracks_of(skeleton.joint_names, bone_animations),
        skeleton.attached(),
    )
    &&& finals.len() == frame_count(duration_of(bone_animations[0].sample_times@), frame_time) + 1
    &&& forall|key: int|
        0 <= key < finals.len() ==> (#[trigger] finals[key])@.len() == skeleton.joint_names.len()
}

/// Makes the keyframes of the first track, resampled at `frame_time`, of
/// the final matrices of the steps of the walk through `skeleton`: each
/// keyframe holds one matrix for each bone with vertices attached, the
/// final matrix of each step at the step's output slot.
pub fn bake(
    skeleton: &Skeleton,
    bone_animations: &Vec<Track>,
    frame_time: i64,
    finals: &Vec<Vec<Matrix4>>,
) -> (keys: Option<Vec<Keyframe>>)
    requires
        bone_animations@.len() > 0,
        resamplable(bone_animations@[0].sample_times@, frame_time as int),
    ensures
        keys.is_some() <==> bakeable(skeleton@, bone_animations@, frame_time as int, finals@),
        keys matches Some(keys) ==> {
            &&& keys_fit(
                bone_animations@[0].sample_times@,
                frame_time as int,
                skeleton@.attached(),
                keys@,
            )
            &&& forall|key: int|
                0 <= key < keys@.len() ==> (#[trigger] keys@[key]).transforms@.len()
                    == skeleton@.attached() && keys@[key].transforms@ == scattered(
                    plan_of(
                        skeleton@.root.unwrap(),
                        None,
                        0,
                        local_tracks_of(skeleton@.joint_names, bone_animations@),
                    ),
                    finals@[key]@,
                    skeleton@.attached(),
                )
        },
{
    let plan = match compute_final_transforms(skeleton, bone_animations) {
        Some(plan) => plan,
        None => {
            return None;
        },
    };
    let samples = resample(&bone_animations[0].sample_times, frame_time);
    let n = samples.len();
    if finals.len() != n {
        return None;
    }
    let ghost times = bone_animations@[0].sample_times@;
    let mut keys: Vec<Keyframe> = Vec::new();
    let mut k: usize = 0;
    while k < n
        invariant
            0 <= k <= n,
            n == samples@.len(),
            n == finals@.len(),
            n == frame_count(duration_of(times), frame_time as int) + 1,
            keys@.len() == k,
            plan.outputs == skeleton@.attached(),
            plan.steps@.len() == skeleton@.joint_names.len(),
            outputs_below(plan.steps@, plan.outputs as nat),
            forall|key: int|
                0 <= key < n ==> #[trigger] samples@[key] == sample_at(
                    times,
                    frame_time as int,
                    key as nat,
                ),
            forall|key: int|
                0 <= key < k ==> (#[trigger] finals@[key])@.len() == plan.steps@.len(),
            forall|key: int|
                0 <= key < k ==> (#[trigger] keys@[key]).start_time == sample_at(
                    times,
                    frame_time as int,
                    key as nat,
                ).start_time && keys@[key].transforms@.len() == plan.outputs
                    && keys@[key].transforms@ == scattered(
                    plan.steps@,
                    finals@[key]@,
                    plan.outputs as nat,
                ),
        decreases n - k,
    {
        let transforms = match scatter(&plan.steps, plan.outputs, &finals[k]) {
            Some(transforms) => transforms,
            None => {
                assert(finals@[k as int]@.len() != skeleton@.joint_names.len());
                return None;
            },
        };
        assert(samples@[k as int] == sample_at(times, frame_time as int, k as nat));
        keys.push(Keyframe { transforms, start_time: samples[k].start_time });
        k += 1;
    }
    Some(keys)
}

/// Makes the animation of the first track, resampled at `frame_time`, of
/// the final matrices of the steps of the walk through `skeleton`. Each of
/// its keyframes holds one matrix for each bone with vertices attached.
pub fn bake_animation(
    skeleton: &Skeleton,
    bone_animations: &Vec<Track>,
    frame_time: i64,
    finals: &Vec<Vec<Matrix4>>,
) -> (animation: Option<Animation>)
    requires
        bone_animations@.len() > 0,
        resamplable(bone_animations@[0].sample_times@, frame_time as int),
    ensures
        animation.is_some() <==> bakeable(skeleton@, bone_animations@, frame_time as int, finals@),
        animation matches Some(a) ==> {
            &&& a@.duration == duration_of(bone_animations@[0].sample_times@)
            &&& a@.frame_time == frame_time
            &&& a@.keys.len() == frame_count(a@.duration, a@.frame_time) + 1
            &&& forall|key: int|
                0 <= key < a@.keys.len() ==> (#[trigger] a@.keys[key]).transforms@.len()
                    == skeleton@.attached() && a@.keys[key].transforms@ == scattered(
                    plan_of(
                        skeleton@.root.unwrap(),
                        None,
                        0,
                        local_tracks_of(skeleton@.joint_names, bone_animations@),
                    ),
                    finals@[key]@,
                    skeleton@.attached(),
                ) && a@.keys[key].start_time == sample_at(
                    bone_animations@[0].sample_times@,
                    frame_time as int,
                    key as nat,
                ).start_time
        },
{
    match bake(skeleton, bone_animations, frame_time, finals) {
        Some(keys) => Some(Animation::new(skeleton, bone_animations, frame_time, keys)),
        None => None,
    }
}

/// In a keyframe baked for a skeleton made of joints with different names,
/// the output slot of each bone with vertices attached holds the final
/// matrix of that bone's step, and each slot is that of one bone.
pub proof fn lemma_bake_fills_outputs(
    skeleton: SkeletonView,
    joints: Seq<Joint>,
    bind: BindData,
    tracks: Seq<Option<usize>>,
    finals: Seq<Matrix4>,
)
    requires
        skeleton.wf(),
        skeleton == built(joints, bind, joints.len()),
        joints.len() <= usize::MAX,
        forall|i: int, j: int|
            0 <= i < joints.len() && 0 <= j < joints.len() && i != j ==> (#[trigger] joints[i]).name@
                != (#[trigger] joints[j]).name@,
        skeleton.root matches Some(root) && ready(root, tracks, skeleton.attached()),
    ensures
        ({
            let plan = plan_of(skeleton.root.unwrap(), None, 0, tracks);
            let transforms = scattered(plan, finals, skeleton.attached());
            &&& transforms.len() == skeleton.attached()
            &&& forall|i: int|
                0 <= i < plan.len() ==> ((#[trigger] plan[i]).output matches Some(slot) ==> slot
                    < skeleton.attached() && transforms[slot as int] == finals[i])
            &&& forall|slot: usize| slot < skeleton.attached() ==> #[trigger] gives(plan, slot)
            &&& distinct_outputs(plan)
        }),
{
    let plan = plan_of(skeleton.root.unwrap(), None, 0, tracks);
    lemma_plan_fills_outputs(skeleton, joints, bind, tracks);
    lemma_scattered(plan, finals, skeleton.attached(), plan.len());
}

} // verus!
