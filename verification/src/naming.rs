//! Names of joints and paths of animated properties.

use vstd::prelude::*;

verus! {

/// The character that stands for `c` in a full joint name: a space becomes
/// an underscore.
pub open spec fn underscored(c: char) -> char {
    if c == ' ' {
        '_'
    } else {
        c
    }
}

/// The full name of a joint that bind data lists under `short_name` for the
/// skeleton `skeleton_name`: the skeleton's name with each space replaced by
/// an underscore, an underscore, and the short name.
pub open spec fn bind_joint_name(skeleton_name: Seq<char>, short_name: Seq<char>) -> Seq<char> {
    Seq::new(skeleton_name.len(), |i: int| underscored(skeleton_name[i])) + seq!['_'] + short_name
}

/// Whether `full_name` is the full name of the joint `short_name` of the
/// skeleton `skeleton_name`.
pub fn is_bind_joint_name(skeleton_name: &str, short_name: &str, full_name: &str) -> (r: bool)
    ensures
        r == (bind_joint_name(skeleton_name@, short_name@) == full_name@),
{
    let ls = skeleton_name.unicode_len();
    let lj = short_name.unicode_len();
    let lf = full_name.unicode_len();
    if lf <= ls || lf - ls - 1 != lj {
        return false;
    }
    let ghost expected = bind_joint_name(skeleton_name@, short_name@);
    let mut i: usize = 0;
    while i < ls
        invariant
            0 <= i <= ls,
            ls == skeleton_name@.len(),
            lj == short_name@.len(),
            lf == full_name@.len(),
            lf == ls + 1 + lj,
            expected == bind_joint_name(skeleton_name@, short_name@),
            forall|k: int| 0 <= k < i ==> full_name@[k] == expected[k],
        decreases ls - i,
    {
        let c = skeleton_name.get_char(i);
        let want = if c == ' ' {
            '_'
        } else {
            c
        };
        if full_name.get_char(i) != want {
            assert(full_name@[i as int] != expected[i as int]);
            return false;
        }
        i += 1;
    }
    if full_name.get_char(ls) != '_' {
        assert(full_name@[ls as int] != expected[ls as int]);
        return false;
    }
    let mut j: usize = 0;
    while j < lj
        invariant
            0 <= j <= lj,
            ls == skeleton_name@.len(),
            lj == short_name@.len(),
            lf == full_name@.len(),
            lf == ls + 1 + lj,
            expected == bind_joint_name(skeleton_name@, short_name@),
            forall|k: int| 0 <= k < ls + 1 + j ==> full_name@[k] == expected[k],
        decreases lj - j,
    {
        if full_name.get_char(ls + 1 + j) != short_name.get_char(j) {
            assert(full_name@[ls + 1 + j] != expected[ls + 1 + j]);
            return false;
        }
        j += 1;
    }
    assert(full_name@ =~= expected);
    true
}

/// The part of `path` before its first `/`, or all of it when it has none.
pub open spec fn first_segment(path: Seq<char>) -> Seq<char>
    decreases path.len(),
{
    if path.len() == 0 || path[0] == '/' {
        Seq::empty()
    } else {
        seq![path[0]] + first_segment(path.drop_first())
    }
}

/// The first segment of a path is what stands before position `end`, when
/// no `/` stands before `end` and the path ends or has a `/` there.
pub proof fn lemma_first_segment(path: Seq<char>, end: int)
    requires
        0 <= end <= path.len(),
        forall|k: int| 0 <= k < end ==> path[k] != '/',
        end == path.len() || path[end] == '/',
    ensures
        first_segment(path) == path.take(end),
    decreases end,
{
    if end == 0 {
        assert(path.take(0) =~= Seq::empty());
    } else {
        let rest = path.drop_first();
        assert forall|k: int| 0 <= k < end - 1 implies rest[k] != '/' by {
            assert(rest[k] == path[k + 1]);
        }
        lemma_first_segment(rest, end - 1);
        assert(path.take(end) =~= seq![path[0]] + rest.take(end - 1));
    }
}

/// Whether the first segment of `path` is `name`.
pub fn first_segment_is(path: &str, name: &str) -> (r: bool)
    ensures
        r == (first_segment(path@) == name@),
{
    let lp = path.unicode_len();
    let ln = name.unicode_len();
    let mut i: usize = 0;
    while i < lp && i < ln
        invariant
            0 <= i <= lp,
            i <= ln,
            lp == path@.len(),
            ln == name@.len(),
            forall|k: int| 0 <= k < i ==> path@[k] != '/' && path@[k] == name@[k],
        decreases lp - i,
    {
        let c = path.get_char(i);
        if c == '/' {
            proof {
                lemma_first_segment(path@, i as int);
            }
            return false;
        }
        if c != name.get_char(i) {
            proof {
                lemma_first_segment_starts(path@, (i + 1) as int);
            }
            return false;
        }
        i += 1;
    }
    if i < lp {
        if path.get_char(i) == '/' {
            proof {
                lemma_first_segment(path@, i as int);
                assert(path@.take(i as int) =~= name@);
            }
            true
        } else {
            proof {
                lemma_first_segment_starts(path@, (i + 1) as int);
            }
            false
        }
    } else {
        proof {
            lemma_first_segment(path@, i as int);
            if ln == i {
                assert(path@.take(i as int) =~= name@);
            }
        }
        ln == i
    }
}

/// The first segment of a path starts with what stands before the path's
/// first `/`.
pub proof fn lemma_first_segment_starts(path: Seq<char>, n: int)
    requires
        0 <= n <= path.len(),
        forall|k: int| 0 <= k < n ==> path[k] != '/',
    ensures
        first_segment(path).len() >= n,
        forall|k: int| 0 <= k < n ==> first_segment(path)[k] == path[k],
    decreases n,
{
    if n > 0 {
        let rest = path.drop_first();
        assert forall|k: int| 0 <= k < n - 1 implies rest[k] != '/' by {
            assert(rest[k] == path[k + 1]);
        }
        lemma_first_segment_starts(rest, n - 1);
        assert forall|k: int| 0 <= k < n implies first_segment(path)[k] == path[k] by {
            if k > 0 {
                assert(first_segment(path)[k] == first_segment(rest)[k - 1]);
                assert(rest[k - 1] == path[k]);
            }
        }
    }
}

/// Position of the first `/` of `path` at or after `from`, or the length of
/// `path` when there is none.
fn find_slash(path: &str, from: usize) -> (end: usize)
    requires
        from <= path@.len(),
    ensures
        from <= end <= path@.len() <= usize::MAX,
        forall|k: int| from <= k < end ==> path@[k] != '/',
        end == path@.len() || path@[end as int] == '/',
{
    let n = path.unicode_len();
    let mut i: usize = from;
    while i < n
        invariant
            from <= i <= n,
            n == path@.len(),
            forall|k: int| from <= k < i ==> path@[k] != '/',
        decreases n - i,
    {
        if path.get_char(i) == '/' {
            return i;
        }
        i += 1;
    }
    i
}

/// What follows the first segment of `path` and its `/`.
pub open spec fn after_first_segment(path: Seq<char>) -> Seq<char> {
    path.skip(first_segment(path).len() as int + 1)
}

/// The second segment of the path of an animated property, which names the
/// animation.
pub fn extract_anim_name_from_target(target: &str) -> (name: &str)
    requires
        first_segment(target@).len() < target@.len(),
    ensures
        name@ == first_segment(after_first_segment(target@)),
{
    let first = find_slash(target, 0);
    proof {
        lemma_first_segment(target@, first as int);
    }
    assert(first < target@.len());
    let second = find_slash(target, first + 1);
    proof {
        let rest = after_first_segment(target@);
        assert(rest == target@.skip(first + 1));
        assert forall|k: int| 0 <= k < second - first - 1 implies rest[k] != '/' by {
            assert(rest[k] == target@[first + 1 + k]);
        }
        lemma_first_segment(rest, second - first - 1);
        assert(rest.take(second - first - 1) =~= target@.subrange(first + 1, second as int));
    }
    target.substring_char(first + 1, second)
}

} // verus!
