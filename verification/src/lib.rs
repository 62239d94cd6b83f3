//! Bakes skeletal animation for skinned meshes: rebuilds the bone hierarchy
//! of a scene from its flat joint records, resamples the scene's animation
//! tracks at a fixed step, plans the walk through the hierarchy that turns
//! the poses of one instant into final bone matrices, and merges the clips
//! of several scenes that share one rig.
//!
//! Numbers are carried as binary32 bit patterns and time is counted in
//! whole ticks, so that every rule of the library is stated and proved over
//! integers. Arithmetic on the numbers themselves is left to the caller,
//! who carries out the plans that the library makes.

pub mod animation;
pub mod bone;
pub mod document;
pub mod matrix;
pub mod naming;
pub mod propagation;
pub mod skeleton;
pub mod transform;
pub mod utils;
pub mod vertices;

pub use animation::Animations;
pub use vertices::Vertices;

use animation::{animated, clip_of, clip_ready, is_clip_ready, AnimationView, Keyframe};
use document::Document;
use skeleton::{lemma_same_symmetric, lemma_same_transitive};
use vertices::{is_all_triangles, is_mesh_ready, mesh_ready, parse_vertices, vertices_of};
use vstd::prelude::*;

verus! {

/// Why an asset could not be loaded.
#[derive(Clone, Copy, Debug, PartialEq, Eq, Structural)]
pub enum Error {
    /// A file holds no mesh.
    EmptyFile,
    /// A mesh holds a primitive that is not a list of triangles.
    PrimitiveNotTriangles,
    /// Two files that should share a rig have different skeletons.
    SkeletonNotEqual,
    /// Two files that should share a mesh have different vertices.
    VerticesNotEqual,
}

/// What one file holds, and what all files of an asset hold together: the
/// mesh, and the clips if the mesh is animated.
#[derive(Debug)]
pub struct Data {
    pub vertices: Vertices,
    pub animations: Option<Animations>,
}

/// Whether the file `name` can be read from its document or be refused:
/// its mesh can, and if the mesh is read and the file has a name, `keys`
/// can be made into its clip.
pub open spec fn parsable(
    name: Option<&str>,
    doc: Document,
    frame_time: int,
    keys: Seq<Keyframe>,
) -> bool {
    &&& mesh_ready(doc)
    &&& vertices_of(doc).is_ok() && name.is_some() ==> clip_ready(doc, frame_time, keys)
}

/// Checks whether the file `name` can be read from its document or be
/// refused.
pub fn can_parse(name: Option<&str>, doc: &Document, frame_time: i64, keys: &Vec<Keyframe>) -> (r:
    bool)
    ensures
        r == parsable(name, *doc, frame_time as int, keys@),
{
    if !is_mesh_ready(doc) {
        return false;
    }
    let has_mesh = match &doc.objects {
        Some(objects) => objects.len() > 0 && is_all_triangles(&objects[0].mesh),
        None => false,
    };
    if has_mesh && name.is_some() {
        is_clip_ready(doc, frame_time, keys)
    } else {
        true
    }
}

/// Reads what the file `name` holds from its document: the mesh, and where
/// the document is animated, its clip under the file's name, made of the
/// keyframes `keys`. A file without a mesh or without a name is refused as
/// empty, and one with a primitive that is no list of triangles as such.
pub fn parse_collada_doc(
    name: Option<&str>,
    doc: &Document,
    frame_time: i64,
    keys: Vec<Keyframe>,
) -> (r: Result<Data, Error>)
    requires
        parsable(name, *doc, frame_time as int, keys@),
    ensures
        r.is_ok() <==> vertices_of(*doc).is_ok() && name.is_some(),
        match r {
            Ok(data) => {
                &&& vertices_of(*doc) == Ok::<vertices::VerticesView, Error>(data.vertices@)
                &&& name.is_some()
                &&& data.animations.is_some() == animated(*doc)
                &&& data.animations matches Some(a) ==> a@ == clip_of(
                    name.unwrap()@,
                    *doc,
                    frame_time as int,
                    keys@,
                )
            },
            Err(e) => match vertices_of(*doc) {
                Ok(_) => name.is_none() && e == Error::EmptyFile,
                Err(refused) => e == refused,
            },
        },
{
    let vertices = match parse_vertices(doc) {
        Ok(vertices) => vertices,
        Err(e) => {
            return Err(e);
        },
    };
    match name {
        Some(name) => {
            let animations = Animations::new(name, doc, frame_time, keys);
            Ok(Data { vertices, animations })
        },
        None => Err(Error::EmptyFile),
    }
}

/// What keeps two files from belonging to one asset, if anything does:
/// different vertices; or else animations in only one of them, or
/// animations for different skeletons.
pub open spec fn mismatch(cur: Data, next: Data) -> Option<Error> {
    if !cur.vertices.same(next.vertices) {
        Some(Error::VerticesNotEqual)
    } else {
        match (cur.animations, next.animations) {
            (Some(a), Some(b)) => if a@.skeleton.same(b@.skeleton) {
                None
            } else {
                Some(Error::SkeletonNotEqual)
            },
            (None, None) => None,
            _ => Some(Error::SkeletonNotEqual),
        }
    }
}

/// The file that file `i` of `n` is compared with: the one after it, and
/// for the last file the second one.
pub open spec fn next_of(i: int, n: int) -> int {
    1 + i % (n - 1)
}

/// The first mismatch among the first `k` comparisons of the files of
/// `data`, each file taken with the one that `next_of` gives.
pub open spec fn first_mismatch(data: Seq<Data>, k: nat) -> Option<Error>
    decreases k,
{
    if k == 0 || k > data.len() || data.len() < 2 {
        None
    } else {
        match first_mismatch(data, (k - 1) as nat) {
            Some(e) => Some(e),
            None => mismatch(data[k - 1], data[next_of(k - 1, data.len() as int)]),
        }
    }
}

/// The clips of the first file with those of the files after it, up to file
/// `k`, merged in their order.
pub open spec fn merged_clips(data: Seq<Data>, k: nat) -> Map<Seq<char>, AnimationView>
    decreases k,
{
    if k <= 1 || k > data.len() {
        data[0].animations.unwrap()@.anims
    } else {
        merged_clips(data, (k - 1) as nat).union_prefer_right(
            data[k - 1].animations.unwrap()@.anims,
        )
    }
}

/// Whether the files can be made into one asset or be refused: there is a
/// file, and if the files match and are animated, each but the first holds
/// one clip.
pub open spec fn loadable(data: Seq<Data>) -> bool {
    &&& data.len() > 0
    &&& first_mismatch(data, data.len()).is_none() && data[0].animations.is_some() ==> forall|
        i: int,
    |
        1 <= i < data.len() ==> ((#[trigger] data[i]).animations matches Some(a)
            && a@.single_clip())
}

/// Compares file `i` with the file that `next_of` gives.
fn compare(data: &Vec<Data>, i: usize) -> (r: Option<Error>)
    requires
        data@.len() >= 2,
        i < data@.len(),
    ensures
        r == mismatch(data@[i as int], data@[next_of(i as int, data@.len() as int)]),
{
    let n = data.len();
    let next: usize = 1 + i % (n - 1);
    let cur = &data[i];
    let next = &data[next];
    if !cur.vertices.is_same(&next.vertices) {
        return Some(Error::VerticesNotEqual);
    }
    match (&cur.animations, &next.animations) {
        (Some(a), Some(b)) => {
            if a.get_skeleton().is_same(b.get_skeleton()) {
                None
            } else {
                Some(Error::SkeletonNotEqual)
            }
        },
        (None, None) => None,
        _ => Some(Error::SkeletonNotEqual),
    }
}

/// Files that match pairwise have all animations or none, and animated
/// ones all have the skeleton of the first.
proof fn lemma_all_match(data: Seq<Data>, i: nat)
    requires
        data.len() >= 2,
        i < data.len(),
        first_mismatch(data, data.len()).is_none(),
    ensures
        data[0].animations.is_some() == data[i as int].animations.is_some(),
        data[0].animations.is_some() ==> data[0].animations.unwrap()@.skeleton.same(
            data[i as int].animations.unwrap()@.skeleton,
        ),
    decreases i,
{
    lemma_no_mismatch(data, data.len(), 0);
    if i == 0 {
        if data[0].animations.is_some() {
            let a = data[0].animations.unwrap()@.skeleton;
            let b = data[1].animations.unwrap()@.skeleton;
            lemma_same_symmetric(a, b);
            lemma_same_transitive(a, b, a);
        }
    } else {
        lemma_all_match(data, (i - 1) as nat);
        lemma_no_mismatch(data, data.len(), i - 1);
        assert(next_of(i - 1, data.len() as int) == i) by (nonlinear_arith)
            requires
                1 <= i < data.len(),
        ;
        if data[0].animations.is_some() {
            lemma_same_transitive(
                data[0].animations.unwrap()@.skeleton,
                data[i - 1].animations.unwrap()@.skeleton,
                data[i as int].animations.unwrap()@.skeleton,
            );
        }
    }
}

/// Where the first `k` comparisons show no mismatch, none of them does.
proof fn lemma_no_mismatch(data: Seq<Data>, k: nat, i: int)
    requires
        data.len() >= 2,
        0 <= i < k <= data.len(),
        first_mismatch(data, k).is_none(),
    ensures
        mismatch(data[i], data[next_of(i, data.len() as int)]).is_none(),
    decreases k,
{
    if i < k - 1 {
        lemma_no_mismatch(data, (k - 1) as nat, i);
    }
}

/// Finds the first mismatch between two files.
pub fn find_mismatch(data: &Vec<Data>) -> (r: Option<Error>)
    ensures
        r == first_mismatch(data@, data@.len()),
        r matches Some(e) ==> data@.len() >= 2 && (e == Error::VerticesNotEqual || e
            == Error::SkeletonNotEqual),
{
    let n = data.len();
    if n >= 2 {
        let mut i: usize = 0;
        while i < n
            invariant
                0 <= i <= n,
                n == data@.len(),
                n >= 2,
                first_mismatch(data@, i as nat).is_none(),
            decreases n - i,
        {
            match compare(data, i) {
                Some(e) => {
                    proof {
                        lemma_mismatch_stays(data@, (i + 1) as nat, n as nat);
                    }
                    return Some(e);
                },
                None => {},
            }
            i += 1;
        }
    }
    None
}

/// Checks whether the files can be made into one asset or be refused.
#[verifier::loop_isolation(false)]
pub fn is_loadable(data: &Vec<Data>) -> (r: bool)
    ensures
        r == loadable(data@),
{
    let n = data.len();
    if n == 0 {
        return false;
    }
    if find_mismatch(data).is_some() || data[0].animations.is_none() {
        return true;
    }
    let mut i: usize = 1;
    while i < n
        invariant
            1 <= i <= n,
            n == data@.len(),
            forall|j: int|
                1 <= j < i ==> ((#[trigger] data@[j]).animations matches Some(a)
                    && a@.single_clip()),
        decreases n - i,
    {
        let single = match &data[i].animations {
            Some(a) => a.len() == 1,
            None => false,
        };
        if !single {
            assert(!(data@[i as int].animations matches Some(a) && a@.single_clip()));
            return false;
        }
        i += 1;
    }
    true
}

/// Whether `r` is the asset that the files `data` make together: `Err` with
/// the first mismatch between two files, or else the mesh of the first file
/// with the clips of all files, merged in their order.
pub open spec fn loaded(data: Seq<Data>, r: Result<Data, Error>) -> bool {
    match r {
        Ok(asset) => {
            &&& first_mismatch(data, data.len()).is_none()
            &&& asset.vertices == data[0].vertices
            &&& asset.animations.is_some() == data[0].animations.is_some()
            &&& asset.animations matches Some(a) ==> a@.skeleton
                == data[0].animations.unwrap()@.skeleton && a@.anims == merged_clips(
                data,
                data.len(),
            )
        },
        Err(e) => first_mismatch(data, data.len()) == Some(e) && data.len() >= 2 && (e
            == Error::VerticesNotEqual || e == Error::SkeletonNotEqual),
    }
}

/// The first failure among the first `n` files, in their order.
pub open spec fn first_failure(files: Seq<Result<Data, Error>>, n: nat) -> Option<Error>
    decreases n,
{
    if n == 0 || n > files.len() {
        None
    } else {
        match first_failure(files, (n - 1) as nat) {
            Some(e) => Some(e),
            None => match files[n - 1] {
                Ok(_) => None,
                Err(e) => Some(e),
            },
        }
    }
}

/// What the files hold, where none of them failed.
pub open spec fn parsed(files: Seq<Result<Data, Error>>) -> Seq<Data> {
    Seq::new(files.len(), |i: int| files[i].unwrap())
}

/// A failure among the first `n` files is the first among any more.
pub proof fn lemma_failure_stays(files: Seq<Result<Data, Error>>, n: nat, m: nat)
    requires
        n <= m <= files.len(),
        first_failure(files, n).is_some(),
    ensures
        first_failure(files, m) == first_failure(files, n),
    decreases m,
{
    if n < m {
        lemma_failure_stays(files, n, (m - 1) as nat);
    }
}

/// Where no file among the first `n` failed, there is no failure among
/// them.
pub proof fn lemma_no_failure(files: Seq<Result<Data, Error>>, n: nat)
    requires
        n <= files.len(),
        forall|j: int| 0 <= j < n ==> (#[trigger] files[j]).is_ok(),
    ensures
        first_failure(files, n).is_none(),
    decreases n,
{
    if n > 0 {
        lemma_no_failure(files, (n - 1) as nat);
    }
}

/// One file that failed makes the load of a directory fail with its error,
/// whatever the number and the order of the files that did not fail.
pub proof fn lemma_one_failure(files: Seq<Result<Data, Error>>, i: int)
    requires
        0 <= i < files.len(),
        files[i].is_err(),
        forall|j: int| 0 <= j < files.len() && j != i ==> (#[trigger] files[j]).is_ok(),
    ensures
        first_failure(files, files.len()) == Some(files[i]->Err_0),
{
    lemma_no_failure(files, i as nat);
    assert(first_failure(files, (i + 1) as nat) == Some(files[i]->Err_0));
    lemma_failure_stays(files, (i + 1) as nat, files.len());
}

/// Makes one asset of what was read of the files of a directory, in their
/// order: `Err` with the first failure of a file, and else what `load`
/// makes of what the files hold. `None` when no file failed but the files
/// cannot be loaded.
#[verifier::loop_isolation(false)]
pub fn load_parsed(files: Vec<Result<Data, Error>>) -> (r: Option<Result<Data, Error>>)
    ensures
        match first_failure(files@, files@.len()) {
            Some(e) => r == Some(Err::<Data, Error>(e)),
            None => (r.is_some() <==> loadable(parsed(files@))) && (r matches Some(asset)
                ==> loaded(parsed(files@), asset)),
        },
{
    let ghost all = files@;
    let n = files.len();
    let mut rest = files;
    let mut data: Vec<Data> = Vec::new();
    let mut k: usize = 0;
    while rest.len() > 0
        invariant
            0 <= k <= n,
            n == all.len(),
            all == files@,
            rest@ == all.subrange(k as int, n as int),
            data@.len() == k,
            forall|j: int| 0 <= j < k ==> #[trigger] all[j] == Ok::<Data, Error>(data@[j]),
            first_failure(all, k as nat).is_none(),
        decreases rest.len(),
    {
        let file = rest.remove(0);
        proof {
            assert(file == all[k as int]);
            assert(rest@ =~= all.subrange(k + 1, n as int));
        }
        match file {
            Ok(d) => {
                data.push(d);
            },
            Err(e) => {
                proof {
                    assert(first_failure(all, (k + 1) as nat) == Some(e));
                    lemma_failure_stays(all, (k + 1) as nat, n as nat);
                }
                return Some(Err(e));
            },
        }
        k += 1;
    }
    assert(data@ =~= parsed(all));
    if is_loadable(&data) {
        Some(load(data))
    } else {
        None
    }
}

/// Makes one asset of the files of a directory: `Err` with the first
/// mismatch between two files, or else the mesh of the first file with the
/// clips of all files, merged in their order.
pub fn load(data: Vec<Data>) -> (r: Result<Data, Error>)
    requires
        loadable(data@),
    ensures
        r.is_ok() <==> first_mismatch(data@, data@.len()).is_none(),
        loaded(data@, r),
{
    let n = data.len();
    match find_mismatch(&data) {
        Some(e) => {
            return Err(e);
        },
        None => {},
    }
    let ghost files = data@;
    let mut data = data;
    let Data { vertices, animations } = data.remove(0);
    match animations {
        Some(mut animations) => {
            let mut k: usize = 1;
            while data.len() > 0
                invariant
                    1 <= k <= n,
                    n == files.len(),
                    loadable(files),
                    first_mismatch(files, n as nat).is_none(),
                    files[0].animations.is_some(),
                    data@ == files.subrange(k as int, n as int),
                    animations@.skeleton == files[0].animations.unwrap()@.skeleton,
                    animations@.anims == merged_clips(files, k as nat),
                decreases data.len(),
            {
                let d = data.remove(0);
                proof {
                    assert(d == files[k as int]);
                    lemma_all_match(files, k as nat);
                    assert(data@ =~= files.subrange(k + 1, n as int));
                }
                animations.append(d.animations.unwrap());
                k += 1;
            }
            Ok(Data { vertices, animations: Some(animations) })
        },
        None => Ok(Data { vertices, animations: None }),
    }
}

/// A mismatch among the first `k` comparisons is the first among any more.
proof fn lemma_mismatch_stays(data: Seq<Data>, k: nat, m: nat)
    requires
        k <= m <= data.len(),
        first_mismatch(data, k).is_some(),
    ensures
        first_mismatch(data, m) == first_mismatch(data, k),
    decreases m,
{
    if k < m {
        lemma_mismatch_stays(data, k, (m - 1) as nat);
    }
}

} // verus!
