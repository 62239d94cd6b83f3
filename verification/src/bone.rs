//! Bones and the subtrees below them.

use crate::matrix::{same_number, Matrix4};
use crate::skeleton::Skeleton;
use vstd::prelude::*;
use vstd::std_specs::cmp::PartialEqSpecImpl;

verus! {

/// Mathematical model of a bone and of the subtree below it.
pub struct BoneView {
    pub name: usize,
    pub parent: Option<usize>,
    pub children: Seq<BoneView>,
    pub inverse_bind_pose: Matrix4,
    pub vertices_attached: bool,
    pub idx_transform: Option<usize>,
}

impl BoneView {
    /// A bone without children.
    pub open spec fn leaf(
        name: usize,
        parent: Option<usize>,
        inverse_bind_pose: Matrix4,
        vertices_attached: bool,
        idx_transform: Option<usize>,
    ) -> BoneView {
        BoneView {
            name,
            parent,
            children: Seq::empty(),
            inverse_bind_pose,
            vertices_attached,
            idx_transform,
        }
    }

    /// Whether some bone of this subtree carries the name index `name`.
    pub open spec fn contains(self, name: usize) -> bool
        decreases self,
    {
        self.name == name || exists|i: int|
            0 <= i < self.children.len() && (#[trigger] self.children[i]).contains(name)
    }

    /// Number of bones of this subtree.
    pub open spec fn size(self) -> nat
        decreases self, 0nat,
    {
        1 + size_of_first(self.children, self.children.len())
    }

    /// Number of bones of this subtree that have vertices attached.
    pub open spec fn attached(self) -> nat
        decreases self, 0nat,
    {
        (if self.vertices_attached {
            1nat
        } else {
            0nat
        }) + attached_of_first(self.children, self.children.len())
    }

    /// Number of bones of this subtree that carry the name index `name`.
    pub open spec fn count(self, name: usize) -> nat
        decreases self, 0nat,
    {
        (if self.name == name {
            1nat
        } else {
            0nat
        }) + count_of_first(self.children, name, self.children.len())
    }

    /// Whether `p` holds of every bone of this subtree.
    pub open spec fn every(self, p: spec_fn(BoneView) -> bool) -> bool
        decreases self,
    {
        &&& p(self)
        &&& forall|i: int| 0 <= i < self.children.len() ==> (#[trigger] self.children[i]).every(p)
    }

    /// This bone without its children.
    pub open spec fn head(self) -> BoneView {
        BoneView { children: Seq::empty(), ..self }
    }

    /// Number of places in this subtree where a bone whose parent is `name`
    /// is attached: the bones named `name` that are reached from the top
    /// without passing another bone of that name.
    pub open spec fn attach_points(self, name: usize) -> nat
        decreases self, 0nat,
    {
        if self.name == name {
            1
        } else {
            attach_points_of_first(self.children, name, self.children.len())
        }
    }

    /// Whether every bone of this subtree has a name index below `names`,
    /// has an output slot exactly if vertices are attached to it, and is
    /// named as the parent by each of its children.
    pub open spec fn consistent(self, names: nat) -> bool
        decreases self,
    {
        &&& self.name < names
        &&& self.vertices_attached <==> self.idx_transform.is_some()
        &&& forall|i: int|
            0 <= i < self.children.len() ==> (#[trigger] self.children[i]).parent == Some(self.name)
                && self.children[i].consistent(names)
    }

    /// Whether in this subtree the children of each bone come with rising
    /// name indices, all of them above that of the bone.
    pub open spec fn ordered(self) -> bool
        decreases self,
    {
        &&& forall|i: int|
            0 <= i < self.children.len() ==> (#[trigger] self.children[i]).name > self.name
                && self.children[i].ordered()
        &&& forall|i: int, j: int|
            0 <= i < j < self.children.len() ==> (#[trigger] self.children[i]).name < (
            #[trigger] self.children[j]).name
    }

    /// The subtree after `bone` was offered to it: `bone` becomes the last
    /// child of each bone that is named as its parent and is reached without
    /// passing another such bone.
    pub open spec fn inserted(self, bone: BoneView) -> BoneView
        decreases self, 0nat,
    {
        if bone.parent == Some(self.name) {
            BoneView { children: self.children.push(bone), ..self }
        } else {
            BoneView { children: inserted_first(self.children, bone, self.children.len()), ..self }
        }
    }

    /// Structural equality, with the matrices compared by the numbers they
    /// hold.
    pub open spec fn same(self, other: BoneView) -> bool
        decreases self,
    {
        &&& self.name == other.name
        &&& self.parent == other.parent
        &&& self.inverse_bind_pose.same(other.inverse_bind_pose)
        &&& self.vertices_attached == other.vertices_attached
        &&& self.idx_transform == other.idx_transform
        &&& self.children.len() == other.children.len()
        &&& forall|i: int|
            0 <= i < self.children.len() ==> (#[trigger] self.children[i]).same(other.children[i])
    }
}

/// The first `n` bones of `bones`, each after `bone` was offered to it.
pub open spec fn inserted_first(bones: Seq<BoneView>, bone: BoneView, n: nat) -> Seq<BoneView>
    decreases bones, n,
{
    if n == 0 || n > bones.len() {
        Seq::empty()
    } else {
        inserted_first(bones, bone, (n - 1) as nat).push(bones[n - 1].inserted(bone))
    }
}

/// `inserted_first` offers the bone to each of the first `n` bones in turn.
pub proof fn lemma_inserted_first(bones: Seq<BoneView>, bone: BoneView, n: nat)
    requires
        n <= bones.len(),
    ensures
        inserted_first(bones, bone, n).len() == n,
        forall|i: int|
            0 <= i < n ==> #[trigger] inserted_first(bones, bone, n)[i] == bones[i].inserted(bone),
    decreases n,
{
    if n > 0 {
        lemma_inserted_first(bones, bone, (n - 1) as nat);
        assert(inserted_first(bones, bone, n) == inserted_first(bones, bone, (n - 1) as nat).push(
            bones[n - 1].inserted(bone),
        ));
    } else {
        assert(inserted_first(bones, bone, n) == Seq::<BoneView>::empty());
    }
}

/// Number of bones in the subtrees of the first `n` bones of `bones`.
pub open spec fn size_of_first(bones: Seq<BoneView>, n: nat) -> nat
    decreases bones, n,
{
    if n == 0 || n > bones.len() {
        0
    } else {
        size_of_first(bones, (n - 1) as nat) + bones[n - 1].size()
    }
}

/// Number of bones with vertices attached in the subtrees of the first `n`
/// bones of `bones`.
pub open spec fn attached_of_first(bones: Seq<BoneView>, n: nat) -> nat
    decreases bones, n,
{
    if n == 0 || n > bones.len() {
        0
    } else {
        attached_of_first(bones, (n - 1) as nat) + bones[n - 1].attached()
    }
}

/// Number of bones that carry the name index `name` in the subtrees of the
/// first `n` bones of `bones`.
pub open spec fn count_of_first(bones: Seq<BoneView>, name: usize, n: nat) -> nat
    decreases bones, n,
{
    if n == 0 || n > bones.len() {
        0
    } else {
        count_of_first(bones, name, (n - 1) as nat) + bones[n - 1].count(name)
    }
}

/// Number of attach points for `name` in the subtrees of the first `n` bones
/// of `bones`.
pub open spec fn attach_points_of_first(bones: Seq<BoneView>, name: usize, n: nat) -> nat
    decreases bones, n,
{
    if n == 0 || n > bones.len() {
        0
    } else {
        attach_points_of_first(bones, name, (n - 1) as nat) + bones[n - 1].attach_points(name)
    }
}

/// The counts over the first `n` bones depend on those bones alone.
pub proof fn lemma_first_agree(a: Seq<BoneView>, b: Seq<BoneView>, name: usize, n: nat)
    requires
        n <= a.len(),
        n <= b.len(),
        forall|i: int| 0 <= i < n ==> a[i] == b[i],
    ensures
        size_of_first(a, n) == size_of_first(b, n),
        attached_of_first(a, n) == attached_of_first(b, n),
        attach_points_of_first(a, name, n) == attach_points_of_first(b, name, n),
        count_of_first(a, name, n) == count_of_first(b, name, n),
    decreases n,
{
    if n > 0 {
        lemma_first_agree(a, b, name, (n - 1) as nat);
        assert(count_of_first(a, name, n) == count_of_first(a, name, (n - 1) as nat) + a[n
            - 1].count(name));
        assert(size_of_first(a, n) == size_of_first(a, (n - 1) as nat) + a[n - 1].size());
        assert(attached_of_first(a, n) == attached_of_first(a, (n - 1) as nat) + a[n
            - 1].attached());
        assert(attach_points_of_first(a, name, n) == attach_points_of_first(a, name, (n - 1) as nat)
            + a[n - 1].attach_points(name));
    } else {
        assert(size_of_first(a, n) == 0);
        assert(attached_of_first(a, n) == 0);
        assert(attach_points_of_first(a, name, n) == 0);
        assert(count_of_first(a, name, n) == 0);
    }
}

/// Offering a childless bone with a name that the subtree does not hold yet
/// adds one bone at each attach point for its parent, and makes each of them
/// an attach point for its own name.
pub proof fn lemma_inserted_leaf(tree: BoneView, bone: BoneView, name: usize)
    requires
        bone.parent.is_some(),
        bone.children.len() == 0,
        tree.attach_points(bone.name) == 0,
    ensures
        tree.inserted(bone).size() == tree.size() + tree.attach_points(bone.parent.unwrap()),
        tree.inserted(bone).attach_points(name) == tree.attach_points(name) + (if name == bone.name {
            tree.attach_points(bone.parent.unwrap())
        } else {
            0
        }),
        tree.inserted(bone).count(name) == tree.count(name) + (if name == bone.name {
            tree.attach_points(bone.parent.unwrap())
        } else {
            0
        }),
    decreases tree, 0nat,
{
    let n = tree.children.len();
    let after = tree.inserted(bone);
    let parent = bone.parent.unwrap();
    assert(bone.size() == 1 + size_of_first(bone.children, 0));
    assert(size_of_first(bone.children, 0) == 0);
    assert(attach_points_of_first(bone.children, name, 0) == 0);
    assert(bone.attach_points(name) == if bone.name == name {
        1nat
    } else {
        0nat
    });
    assert(count_of_first(bone.children, name, 0) == 0);
    assert(bone.count(name) == if bone.name == name {
        1nat
    } else {
        0nat
    });
    assert(tree.name != bone.name);
    assert(after.count(name) == (if after.name == name {
        1nat
    } else {
        0nat
    }) + count_of_first(after.children, name, after.children.len()));
    assert(after.size() == 1 + size_of_first(after.children, after.children.len()));
    assert(tree.size() == 1 + size_of_first(tree.children, n));
    if bone.parent == Some(tree.name) {
        assert(after.children == tree.children.push(bone));
        assert(tree.attach_points(parent) == 1);
        lemma_first_agree(after.children, tree.children, name, n);
        assert(size_of_first(after.children, n + 1) == size_of_first(after.children, n)
            + after.children[n as int].size());
        assert(attach_points_of_first(after.children, name, n + 1) == attach_points_of_first(
            after.children,
            name,
            n,
        ) + after.children[n as int].attach_points(name));
        assert(count_of_first(after.children, name, n + 1) == count_of_first(
            after.children,
            name,
            n,
        ) + after.children[n as int].count(name));
    } else {
        assert(after.children == inserted_first(tree.children, bone, n));
        lemma_inserted_first(tree.children, bone, n);
        assert(attach_points_of_first(tree.children, bone.name, n) == 0);
        lemma_inserted_leaf_first(tree.children, bone, name, n);
    }
}

/// `lemma_inserted_leaf`, for the first `n` bones of `bones`.
pub proof fn lemma_inserted_leaf_first(bones: Seq<BoneView>, bone: BoneView, name: usize, n: nat)
    requires
        n <= bones.len(),
        bone.parent.is_some(),
        bone.children.len() == 0,
        attach_points_of_first(bones, bone.name, n) == 0,
    ensures
        size_of_first(inserted_first(bones, bone, bones.len()), n) == size_of_first(bones, n)
            + attach_points_of_first(bones, bone.parent.unwrap(), n),
        attach_points_of_first(inserted_first(bones, bone, bones.len()), name, n)
            == attach_points_of_first(bones, name, n) + (if name == bone.name {
            attach_points_of_first(bones, bone.parent.unwrap(), n)
        } else {
            0
        }),
        count_of_first(inserted_first(bones, bone, bones.len()), name, n) == count_of_first(
            bones,
            name,
            n,
        ) + (if name == bone.name {
            attach_points_of_first(bones, bone.parent.unwrap(), n)
        } else {
            0
        }),
    decreases bones, n,
{
    let after = inserted_first(bones, bone, bones.len());
    let parent = bone.parent.unwrap();
    lemma_inserted_first(bones, bone, bones.len());
    if n > 0 {
        let m = (n - 1) as nat;
        assert(attach_points_of_first(bones, bone.name, n) == attach_points_of_first(
            bones,
            bone.name,
            m,
        ) + bones[n - 1].attach_points(bone.name));
        lemma_inserted_leaf_first(bones, bone, name, m);
        lemma_inserted_leaf(bones[n - 1], bone, name);
        assert(size_of_first(after, n) == size_of_first(after, m) + after[n - 1].size());
        assert(size_of_first(bones, n) == size_of_first(bones, m) + bones[n - 1].size());
        assert(attach_points_of_first(after, name, n) == attach_points_of_first(after, name, m)
            + after[n - 1].attach_points(name));
        assert(attach_points_of_first(bones, name, n) == attach_points_of_first(bones, name, m)
            + bones[n - 1].attach_points(name));
        assert(attach_points_of_first(bones, parent, n) == attach_points_of_first(bones, parent, m)
            + bones[n - 1].attach_points(parent));
        assert(count_of_first(after, name, n) == count_of_first(after, name, m) + after[n
            - 1].count(name));
        assert(count_of_first(bones, name, n) == count_of_first(bones, name, m) + bones[n
            - 1].count(name));
    } else {
        assert(size_of_first(after, n) == 0);
        assert(size_of_first(bones, n) == 0);
        assert(attach_points_of_first(after, name, n) == 0);
        assert(attach_points_of_first(bones, name, n) == 0);
        assert(attach_points_of_first(bones, parent, n) == 0);
        assert(count_of_first(after, name, n) == 0);
        assert(count_of_first(bones, name, n) == 0);
    }
}

/// A subtree that is consistent for some number of names is consistent for
/// any larger number.
pub proof fn lemma_consistent_more_names(tree: BoneView, names: nat, more: nat)
    requires
        tree.consistent(names),
        names <= more,
    ensures
        tree.consistent(more),
    decreases tree,
{
    assert forall|i: int| 0 <= i < tree.children.len() implies (#[trigger] tree.children[i]).parent
        == Some(tree.name) && tree.children[i].consistent(more) by {
        lemma_consistent_more_names(tree.children[i], names, more);
    }
}

/// Offering a consistent childless bone to a consistent subtree leaves the
/// subtree consistent.
pub proof fn lemma_inserted_consistent(tree: BoneView, bone: BoneView, names: nat)
    requires
        tree.consistent(names),
        bone.consistent(names),
        bone.parent.is_some(),
    ensures
        tree.inserted(bone).consistent(names),
    decreases tree,
{
    let after = tree.inserted(bone);
    let n = tree.children.len();
    if bone.parent == Some(tree.name) {
        assert forall|i: int| 0 <= i < after.children.len() implies (
        #[trigger] after.children[i]).parent == Some(after.name) && after.children[i].consistent(
            names,
        ) by {
            if i < n {
                assert(after.children[i] == tree.children[i]);
            }
        }
    } else {
        lemma_inserted_first(tree.children, bone, n);
        assert forall|i: int| 0 <= i < after.children.len() implies (
        #[trigger] after.children[i]).parent == Some(after.name) && after.children[i].consistent(
            names,
        ) by {
            lemma_inserted_consistent(tree.children[i], bone, names);
            lemma_inserted_keeps_head(tree.children[i], bone);
        }
    }
}

/// Offering a childless bone with a name index above all others to an
/// ordered subtree leaves the subtree ordered.
pub proof fn lemma_inserted_ordered(tree: BoneView, bone: BoneView)
    requires
        tree.ordered(),
        tree.consistent(bone.name as nat),
        bone.children.len() == 0,
        bone.parent.is_some(),
    ensures
        tree.inserted(bone).ordered(),
    decreases tree,
{
    let after = tree.inserted(bone);
    let n = tree.children.len();
    if bone.parent == Some(tree.name) {
        assert forall|i: int| 0 <= i < after.children.len() implies (
        #[trigger] after.children[i]).name > after.name && after.children[i].ordered() by {
            if i < n {
                assert(after.children[i] == tree.children[i]);
            }
        }
        assert forall|i: int, j: int| 0 <= i < j < after.children.len() implies (
        #[trigger] after.children[i]).name < (#[trigger] after.children[j]).name by {
            assert(after.children[i] == tree.children[i]);
            assert(tree.children[i].consistent(bone.name as nat));
            if j < n {
                assert(after.children[j] == tree.children[j]);
            }
        }
    } else {
        lemma_inserted_first(tree.children, bone, n);
        assert forall|i: int| 0 <= i < after.children.len() implies (
        #[trigger] after.children[i]).name > after.name && after.children[i].ordered() by {
            assert(tree.children[i].consistent(bone.name as nat));
            lemma_inserted_ordered(tree.children[i], bone);
            lemma_inserted_keeps_head(tree.children[i], bone);
        }
        assert forall|i: int, j: int| 0 <= i < j < after.children.len() implies (
        #[trigger] after.children[i]).name < (#[trigger] after.children[j]).name by {
            lemma_inserted_keeps_head(tree.children[i], bone);
            lemma_inserted_keeps_head(tree.children[j], bone);
        }
    }
}

/// Offering a bone to a subtree changes nothing of the top bone but its
/// children.
pub proof fn lemma_inserted_keeps_head(tree: BoneView, bone: BoneView)
    ensures
        tree.inserted(bone).name == tree.name,
        tree.inserted(bone).parent == tree.parent,
        tree.inserted(bone).inverse_bind_pose == tree.inverse_bind_pose,
        tree.inserted(bone).vertices_attached == tree.vertices_attached,
        tree.inserted(bone).idx_transform == tree.idx_transform,
{
}

/// What holds of every bone of a subtree and of a childless bone, and does
/// not depend on a bone's children, holds of every bone of the subtree
/// after the bone was offered to it.
pub proof fn lemma_inserted_every(tree: BoneView, bone: BoneView, p: spec_fn(BoneView) -> bool)
    requires
        tree.every(p),
        p(bone),
        bone.children.len() == 0,
        forall|b: BoneView| #[trigger] p(b) == p(b.head()),
    ensures
        tree.inserted(bone).every(p),
    decreases tree,
{
    let after = tree.inserted(bone);
    let n = tree.children.len();
    assert(after.head() == tree.head());
    assert(p(after) == p(after.head()));
    assert(p(tree) == p(tree.head()));
    if bone.parent == Some(tree.name) {
        assert forall|i: int| 0 <= i < after.children.len() implies (
        #[trigger] after.children[i]).every(p) by {
            if i < n {
                assert(after.children[i] == tree.children[i]);
            } else {
                assert(after.children[i] == bone);
            }
        }
    } else {
        lemma_inserted_first(tree.children, bone, n);
        assert forall|i: int| 0 <= i < after.children.len() implies (
        #[trigger] after.children[i]).every(p) by {
            lemma_inserted_every(tree.children[i], bone, p);
        }
    }
}

/// Equality of subtrees does not depend on the side.
pub proof fn lemma_bone_same_symmetric(a: BoneView, b: BoneView)
    requires
        a.same(b),
    ensures
        b.same(a),
    decreases a,
{
    assert forall|i: int| 0 <= i < b.children.len() implies (#[trigger] b.children[i]).same(
        a.children[i],
    ) by {
        assert(a.children[i].same(b.children[i]));
        lemma_bone_same_symmetric(a.children[i], b.children[i]);
    }
    assert forall|r: int, c: int| 0 <= r < 4 && 0 <= c < 4 implies same_number(
        #[trigger] b.inverse_bind_pose.at(r, c),
        a.inverse_bind_pose.at(r, c),
    ) by {
        assert(same_number(a.inverse_bind_pose.at(r, c), b.inverse_bind_pose.at(r, c)));
    }
}

/// Two subtrees that equal a third equal each other.
pub proof fn lemma_bone_same_transitive(a: BoneView, b: BoneView, c: BoneView)
    requires
        a.same(b),
        b.same(c),
    ensures
        a.same(c),
    decreases a,
{
    assert forall|i: int| 0 <= i < a.children.len() implies (#[trigger] a.children[i]).same(
        c.children[i],
    ) by {
        assert(a.children[i].same(b.children[i]));
        assert(b.children[i].same(c.children[i]));
        lemma_bone_same_transitive(a.children[i], b.children[i], c.children[i]);
    }
    assert forall|r: int, k: int| 0 <= r < 4 && 0 <= k < 4 implies same_number(
        #[trigger] a.inverse_bind_pose.at(r, k),
        c.inverse_bind_pose.at(r, k),
    ) by {
        assert(same_number(a.inverse_bind_pose.at(r, k), b.inverse_bind_pose.at(r, k)));
        assert(same_number(b.inverse_bind_pose.at(r, k), c.inverse_bind_pose.at(r, k)));
    }
}

/// Equal subtrees have as many bones with vertices attached.
pub proof fn lemma_same_attached(a: BoneView, b: BoneView)
    requires
        a.same(b),
    ensures
        a.attached() == b.attached(),
    decreases a, 0nat,
{
    lemma_same_attached_first(a.children, b.children, a.children.len());
}

/// `lemma_same_attached`, for the first `n` bones of two lists.
pub proof fn lemma_same_attached_first(a: Seq<BoneView>, b: Seq<BoneView>, n: nat)
    requires
        n <= a.len(),
        n <= b.len(),
        forall|i: int| 0 <= i < n ==> (#[trigger] a[i]).same(b[i]),
    ensures
        attached_of_first(a, n) == attached_of_first(b, n),
    decreases a, n,
{
    if n > 0 {
        lemma_same_attached_first(a, b, (n - 1) as nat);
        assert(a[n - 1].same(b[n - 1]));
        lemma_same_attached(a[n - 1], b[n - 1]);
        assert(attached_of_first(a, n) == attached_of_first(a, (n - 1) as nat) + a[n
            - 1].attached());
        assert(attached_of_first(b, n) == attached_of_first(b, (n - 1) as nat) + b[n
            - 1].attached());
    } else {
        assert(attached_of_first(a, n) == 0);
        assert(attached_of_first(b, n) == 0);
    }
}

/// No more bones have vertices attached than there are bones.
pub proof fn lemma_attached_le_size(tree: BoneView)
    ensures
        tree.attached() <= tree.size(),
    decreases tree, 0nat,
{
    lemma_attached_le_size_first(tree.children, tree.children.len());
}

/// `lemma_attached_le_size`, for the first `n` bones of `bones`.
pub proof fn lemma_attached_le_size_first(bones: Seq<BoneView>, n: nat)
    requires
        n <= bones.len(),
    ensures
        attached_of_first(bones, n) <= size_of_first(bones, n),
    decreases bones, n,
{
    if n > 0 {
        lemma_attached_le_size_first(bones, (n - 1) as nat);
        lemma_attached_le_size(bones[n - 1]);
        assert(attached_of_first(bones, n) == attached_of_first(bones, (n - 1) as nat) + bones[n
            - 1].attached());
        assert(size_of_first(bones, n) == size_of_first(bones, (n - 1) as nat) + bones[n
            - 1].size());
    } else {
        assert(attached_of_first(bones, n) == 0);
    }
}

/// The count over the first `n` bones does not exceed the count over the
/// first `m`, when `n <= m`.
pub proof fn lemma_attached_of_first_grows(bones: Seq<BoneView>, n: nat, m: nat)
    requires
        n <= m <= bones.len(),
    ensures
        attached_of_first(bones, n) <= attached_of_first(bones, m),
        n > 0 ==> attached_of_first(bones, n) == attached_of_first(bones, (n - 1) as nat) + bones[n
            - 1].attached(),
    decreases m,
{
    if n < m {
        lemma_attached_of_first_grows(bones, n, (m - 1) as nat);
    }
}

/// A node of the bone hierarchy, which owns the bones below it.
#[derive(Debug)]
pub struct Bone {
    name_idx: usize,
    parent_name_idx: Option<usize>,
    children: Vec<Bone>,
    inverse_bind_pose: Matrix4,
    vertices_attached: bool,
    pub idx_transform: Option<usize>,
}

impl View for Bone {
    type V = BoneView;

    closed spec fn view(&self) -> BoneView
        decreases self, 0nat,
    {
        BoneView {
            name: self.name_idx,
            parent: self.parent_name_idx,
            children: views_of_first(self.children@, self.children@.len()),
            inverse_bind_pose: self.inverse_bind_pose,
            vertices_attached: self.vertices_attached,
            idx_transform: self.idx_transform,
        }
    }
}

/// Models of the first `n` bones of `bones`.
spec fn views_of_first(bones: Seq<Bone>, n: nat) -> Seq<BoneView>
    decreases bones, n,
{
    if n == 0 || n > bones.len() {
        Seq::empty()
    } else {
        views_of_first(bones, (n - 1) as nat).push(bones[n - 1].view())
    }
}

proof fn lemma_views_of_first(bones: Seq<Bone>, n: nat)
    requires
        n <= bones.len(),
    ensures
        views_of_first(bones, n).len() == n,
        forall|i: int| 0 <= i < n ==> #[trigger] views_of_first(bones, n)[i] == bones[i]@,
    decreases n,
{
    if n > 0 {
        lemma_views_of_first(bones, (n - 1) as nat);
        assert(views_of_first(bones, n) == views_of_first(bones, (n - 1) as nat).push(bones[n - 1].view()));
    } else {
        assert(views_of_first(bones, n) == Seq::<BoneView>::empty());
    }
}

impl Clone for Bone {
    fn clone(&self) -> (r: Self)
        ensures
            r@ == self@,
        decreases self,
    {
        let mut children: Vec<Bone> = Vec::new();
        let mut i: usize = 0;
        while i < self.children.len()
            invariant
                0 <= i <= self.children.len(),
                children@.len() == i,
                forall|j: int| 0 <= j < i ==> (#[trigger] children@[j])@ == self.children@[j]@,
            decreases self.children.len() - i,
        {
            let c = self.children[i].clone();
            children.push(c);
            i += 1;
        }
        let r = Bone {
            name_idx: self.name_idx,
            parent_name_idx: self.parent_name_idx,
            children,
            inverse_bind_pose: self.inverse_bind_pose,
            vertices_attached: self.vertices_attached,
            idx_transform: self.idx_transform,
        };
        proof {
            r.unfold_view();
            self.unfold_view();
            assert(r@.children =~= self@.children);
        }
        r
    }
}

impl Bone {
    /// How the model of a bone follows from its fields.
    proof fn unfold_view(&self)
        ensures
            self@.name == self.name_idx,
            self@.parent == self.parent_name_idx,
            self@.inverse_bind_pose == self.inverse_bind_pose,
            self@.vertices_attached == self.vertices_attached,
            self@.idx_transform == self.idx_transform,
            self@.children.len() == self.children@.len(),
            forall|i: int|
                0 <= i < self.children@.len() ==> #[trigger] self@.children[i] == self.children@[i]@,
    {
        lemma_views_of_first(self.children@, self.children@.len());
    }

    /// A bone without children.
    pub fn new(
        name_idx: usize,
        parent_name_idx: Option<usize>,
        inverse_bind_pose: Matrix4,
        vertices_attached: bool,
        idx_transform: Option<usize>,
    ) -> (bone: Self)
        ensures
            bone@ == BoneView::leaf(
                name_idx,
                parent_name_idx,
                inverse_bind_pose,
                vertices_attached,
                idx_transform,
            ),
    {
        let bone = Bone {
            name_idx,
            parent_name_idx,
            children: Vec::new(),
            inverse_bind_pose,
            vertices_attached,
            idx_transform,
        };
        proof {
            bone.unfold_view();
            assert(bone@.children =~= Seq::empty());
        }
        bone
    }

    /// A bone with the bones `children` below it, in their order.
    pub fn with_children(
        name_idx: usize,
        parent_name_idx: Option<usize>,
        inverse_bind_pose: Matrix4,
        vertices_attached: bool,
        idx_transform: Option<usize>,
        children: Vec<Bone>,
    ) -> (bone: Self)
        ensures
            bone@.head() == BoneView::leaf(
                name_idx,
                parent_name_idx,
                inverse_bind_pose,
                vertices_attached,
                idx_transform,
            ),
            bone@.children.len() == children@.len(),
            forall|i: int| 0 <= i < children@.len() ==> #[trigger] bone@.children[i] == children@[i]@,
    {
        let bone = Bone {
            name_idx,
            parent_name_idx,
            children,
            inverse_bind_pose,
            vertices_attached,
            idx_transform,
        };
        proof {
            bone.unfold_view();
        }
        bone
    }

    /// Searches this subtree for a bone with the name index `name_idx`.
    pub fn contains(&self, name_idx: usize) -> (found: bool)
        ensures
            found == self@.contains(name_idx),
        decreases self,
    {
        proof {
            self.unfold_view();
        }
        if self.name_idx == name_idx {
            return true;
        }
        let mut i: usize = 0;
        while i < self.children.len()
            invariant
                0 <= i <= self.children.len(),
                self@.children.len() == self.children.len(),
                forall|j: int|
                    0 <= j < self.children.len() ==> #[trigger] self@.children[j]
                        == self.children@[j]@,
                forall|j: int| 0 <= j < i ==> !(#[trigger] self@.children[j]).contains(name_idx),
            decreases self.children.len() - i,
        {
            if self.children[i].contains(name_idx) {
                assert(self@.children[i as int].contains(name_idx));
                return true;
            }
            i += 1;
        }
        false
    }

    /// Offers `bone` to this subtree: a copy of it becomes the last child of
    /// the bone that it names as its parent.
    pub fn add(&mut self, bone: &Bone)
        requires
            bone@.parent.is_some(),
        ensures
            final(self)@ == old(self)@.inserted(bone@),
        decreases *old(self),
    {
        proof {
            self.unfold_view();
        }
        if bone.parent_name_idx.unwrap() == self.name_idx {
            proof {
                bone.unfold_view();
            }
            let copy = bone.clone();
            self.children.push(copy);
            proof {
                self.unfold_view();
                assert(self@.children =~= old(self)@.children.push(bone@));
            }
        } else {
            proof {
                bone.unfold_view();
            }
            let n = self.children.len();
            let mut i: usize = 0;
            while i < n
                invariant
                    0 <= i <= n,
                    n == self.children.len(),
                    n == old(self).children.len(),
                    bone@.parent.is_some(),
                    self.name_idx == old(self).name_idx,
                    self.parent_name_idx == old(self).parent_name_idx,
                    self.inverse_bind_pose == old(self).inverse_bind_pose,
                    self.vertices_attached == old(self).vertices_attached,
                    self.idx_transform == old(self).idx_transform,
                    forall|j: int|
                        0 <= j < i ==> (#[trigger] self.children@[j])@ == old(
                            self,
                        ).children@[j]@.inserted(bone@),
                    forall|j: int| i <= j < n ==> #[trigger] self.children@[j] == old(self).children@[j],
                decreases n - i,
            {
                self.children[i].add(bone);
                i += 1;
            }
            proof {
                self.unfold_view();
                lemma_inserted_first(old(self)@.children, bone@, n as nat);
                assert(self@.children =~= inserted_first(old(self)@.children, bone@, n as nat));
            }
        }
    }

    /// The position of this bone's name in the skeleton's name table.
    pub fn get_name_idx(&self) -> (name_idx: usize)
        ensures
            name_idx == self@.name,
    {
        proof {
            self.unfold_view();
        }
        self.name_idx
    }

    /// The name index of this bone's parent, if it has one.
    pub fn get_parent_name_idx(&self) -> (parent_name_idx: Option<usize>)
        ensures
            parent_name_idx == self@.parent,
    {
        proof {
            self.unfold_view();
        }
        self.parent_name_idx
    }

    /// The output slot of this bone, if it has one.
    pub fn get_idx_transform(&self) -> (idx_transform: Option<usize>)
        ensures
            idx_transform == self@.idx_transform,
    {
        proof {
            self.unfold_view();
        }
        self.idx_transform
    }

    /// The matrix that takes bind-pose global space to this bone's space.
    pub fn get_inverse_bind_pose(&self) -> (pose: &Matrix4)
        ensures
            *pose == self@.inverse_bind_pose,
    {
        proof {
            self.unfold_view();
        }
        &self.inverse_bind_pose
    }

    /// The bones directly below this one, if there are any.
    pub fn get_children(&self) -> (children: Option<&Vec<Bone>>)
        ensures
            children.is_none() <==> self@.children.len() == 0,
            children matches Some(v) ==> v@.len() == self@.children.len() && forall|i: int|
                0 <= i < v@.len() ==> (#[trigger] v@[i])@ == self@.children[i],
    {
        proof {
            self.unfold_view();
        }
        if self.children.len() == 0 {
            None
        } else {
            Some(&self.children)
        }
    }

    /// The name of this bone in the name table of `skeleton`.
    pub fn get_name<'a>(&self, skeleton: &'a Skeleton) -> (name: &'a str)
        requires
            self@.name < skeleton@.joint_names.len(),
        ensures
            name@ == skeleton@.joint_names[self@.name as int],
    {
        proof {
            self.unfold_view();
        }
        skeleton.get_joint_names()[self.name_idx].as_str()
    }

    /// Compares two subtrees bone by bone.
    pub fn is_same(&self, other: &Bone) -> (same: bool)
        ensures
            same == self@.same(other@),
        decreases self,
    {
        proof {
            self.unfold_view();
            other.unfold_view();
        }
        if self.name_idx != other.name_idx || self.parent_name_idx != other.parent_name_idx
            || self.vertices_attached != other.vertices_attached || self.idx_transform
            != other.idx_transform || self.inverse_bind_pose != other.inverse_bind_pose
            || self.children.len() != other.children.len() {
            return false;
        }
        let n = self.children.len();
        let mut i: usize = 0;
        while i < n
            invariant
                0 <= i <= n,
                n == self.children.len(),
                n == other.children.len(),
                n == self@.children.len(),
                n == other@.children.len(),
                forall|j: int| 0 <= j < n ==> #[trigger] self@.children[j] == self.children@[j]@,
                forall|j: int| 0 <= j < n ==> #[trigger] other@.children[j] == other.children@[j]@,
                forall|j: int|
                    0 <= j < i ==> (#[trigger] self@.children[j]).same(other@.children[j]),
            decreases n - i,
        {
            if !self.children[i].is_same(&other.children[i]) {
                assert(!self@.children[i as int].same(other@.children[i as int]));
                return false;
            }
            i += 1;
        }
        true
    }

    /// Whether vertices are attached to this bone.
    pub fn has_vertices_attached(&self) -> (attached: bool)
        ensures
            attached == self@.vertices_attached,
    {
        proof {
            self.unfold_view();
        }
        self.vertices_attached
    }

    /// Adds to `num_bones` the number of bones of this subtree that have
    /// vertices attached.
    pub fn get_num_vertices_attached_bones(&self, num_bones: &mut usize)
        requires
            *old(num_bones) + self@.attached() <= usize::MAX,
        ensures
            *final(num_bones) == *old(num_bones) + self@.attached(),
        decreases self,
    {
        proof {
            self.unfold_view();
        }
        if self.vertices_attached {
            *num_bones = *num_bones + 1;
        }
        let n = self.children.len();
        let mut i: usize = 0;
        while i < n
            invariant
                0 <= i <= n,
                n == self.children.len(),
                n == self@.children.len(),
                forall|j: int| 0 <= j < n ==> #[trigger] self@.children[j] == self.children@[j]@,
                *old(num_bones) + self@.attached() <= usize::MAX,
                *num_bones == *old(num_bones) + (if self@.vertices_attached {
                    1nat
                } else {
                    0nat
                }) + attached_of_first(self@.children, i as nat),
            decreases n - i,
        {
            proof {
                lemma_attached_of_first_grows(self@.children, (i + 1) as nat, n as nat);
            }
            self.children[i].get_num_vertices_attached_bones(num_bones);
            i += 1;
        }
    }
}

impl PartialEq for Bone {
    fn eq(&self, other: &Self) -> (r: bool) {
        self.is_same(other)
    }
}

impl PartialEqSpecImpl for Bone {
    open spec fn obeys_eq_spec() -> bool {
        true
    }

    open spec fn eq_spec(&self, other: &Self) -> bool {
        self@.same(other@)
    }
}

} // verus!
