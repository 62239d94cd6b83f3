//! Meshes, and how they are read from the primitives of a scene object.

use crate::document::{BindData, Document, Object, PrimitiveElement, Triangles, VertexWeight};
use crate::matrix::{number_eq, same_number};
use crate::Error;
use vstd::prelude::*;
use vstd::std_specs::cmp::PartialEqSpecImpl;

verus! {

/// A mesh, one entry per corner of a triangle. The numbers are binary32 bit
/// patterns.
#[derive(Debug)]
pub struct Vertices {
    pub positions: Vec<[u32; 3]>,
    pub normals: Vec<[u32; 3]>,
    pub texcoords: Vec<[u32; 2]>,
    /// The weights of the two bones that move each vertex, for a skinned
    /// mesh.
    pub weights: Option<Vec<[u32; 2]>>,
    /// The two bones that move each vertex, for a skinned mesh.
    pub bone_ids: Option<Vec<[i32; 2]>>,
    pub indices: Vec<u32>,
}

/// Whether two lists of triples hold the same numbers.
pub open spec fn same_triples(a: Seq<[u32; 3]>, b: Seq<[u32; 3]>) -> bool {
    &&& a.len() == b.len()
    &&& forall|i: int, k: int|
        0 <= i < a.len() && 0 <= k < 3 ==> same_number(#[trigger] a[i][k], b[i][k])
}

/// Whether two lists of pairs hold the same numbers.
pub open spec fn same_pairs(a: Seq<[u32; 2]>, b: Seq<[u32; 2]>) -> bool {
    &&& a.len() == b.len()
    &&& forall|i: int, k: int|
        0 <= i < a.len() && 0 <= k < 2 ==> same_number(#[trigger] a[i][k], b[i][k])
}

impl Vertices {
    /// Equality of two meshes, field by field, with the numbers compared by
    /// their values.
    pub open spec fn same(self, other: Vertices) -> bool {
        &&& same_triples(self.positions@, other.positions@)
        &&& same_triples(self.normals@, other.normals@)
        &&& same_pairs(self.texcoords@, other.texcoords@)
        &&& match (self.weights, other.weights) {
            (Some(a), Some(b)) => same_pairs(a@, b@),
            (None, None) => true,
            _ => false,
        }
        &&& match (self.bone_ids, other.bone_ids) {
            (Some(a), Some(b)) => a@ == b@,
            (None, None) => true,
            _ => false,
        }
        &&& self.indices@ == other.indices@
    }

    /// Compares two meshes.
    pub fn is_same(&self, other: &Vertices) -> (same: bool)
        ensures
            same == self.same(*other),
    {
        if !triples_eq(&self.positions, &other.positions) || !triples_eq(
            &self.normals,
            &other.normals,
        ) || !pairs_eq(&self.texcoords, &other.texcoords) {
            return false;
        }
        let weights = match (&self.weights, &other.weights) {
            (Some(a), Some(b)) => pairs_eq(a, b),
            (None, None) => true,
            _ => false,
        };
        if !weights {
            return false;
        }
        let bone_ids = match (&self.bone_ids, &other.bone_ids) {
            (Some(a), Some(b)) => bone_ids_eq(a, b),
            (None, None) => true,
            _ => false,
        };
        if !bone_ids {
            return false;
        }
        indices_eq(&self.indices, &other.indices)
    }
}

/// Compares two lists of triples of numbers.
pub fn triples_eq(a: &Vec<[u32; 3]>, b: &Vec<[u32; 3]>) -> (same: bool)
    ensures
        same == same_triples(a@, b@),
{
    if a.len() != b.len() {
        return false;
    }
    let n = a.len();
    let mut i: usize = 0;
    while i < n
        invariant
            0 <= i <= n,
            n == a@.len(),
            n == b@.len(),
            forall|j: int, k: int| 0 <= j < i && 0 <= k < 3 ==> same_number(#[trigger] a@[j][k], b@[j][k]),
        decreases n - i,
    {
        let x = &a[i];
        let y = &b[i];
        if !number_eq(x[0], y[0]) || !number_eq(x[1], y[1]) || !number_eq(x[2], y[2]) {
            assert(!same_number(a@[i as int][0], b@[i as int][0]) || !same_number(
                a@[i as int][1],
                b@[i as int][1],
            ) || !same_number(a@[i as int][2], b@[i as int][2]));
            return false;
        }
        i += 1;
    }
    true
}

/// Compares two lists of pairs of numbers.
pub fn pairs_eq(a: &Vec<[u32; 2]>, b: &Vec<[u32; 2]>) -> (same: bool)
    ensures
        same == same_pairs(a@, b@),
{
    if a.len() != b.len() {
        return false;
    }
    let n = a.len();
    let mut i: usize = 0;
    while i < n
        invariant
            0 <= i <= n,
            n == a@.len(),
            n == b@.len(),
            forall|j: int, k: int| 0 <= j < i && 0 <= k < 2 ==> same_number(#[trigger] a@[j][k], b@[j][k]),
        decreases n - i,
    {
        let x = &a[i];
        let y = &b[i];
        if !number_eq(x[0], y[0]) || !number_eq(x[1], y[1]) {
            assert(!same_number(a@[i as int][0], b@[i as int][0]) || !same_number(
                a@[i as int][1],
                b@[i as int][1],
            ));
            return false;
        }
        i += 1;
    }
    true
}

/// Compares two lists of pairs of bone indices.
pub fn bone_ids_eq(a: &Vec<[i32; 2]>, b: &Vec<[i32; 2]>) -> (same: bool)
    ensures
        same == (a@ == b@),
{
    if a.len() != b.len() {
        return false;
    }
    let n = a.len();
    let mut i: usize = 0;
    while i < n
        invariant
            0 <= i <= n,
            n == a@.len(),
            n == b@.len(),
            forall|j: int| 0 <= j < i ==> a@[j] == b@[j],
        decreases n - i,
    {
        let x = &a[i];
        let y = &b[i];
        if x[0] != y[0] || x[1] != y[1] {
            assert(a@[i as int] != b@[i as int]);
            return false;
        }
        assert(a@[i as int]@ =~= b@[i as int]@);
        i += 1;
    }
    assert(a@ =~= b@);
    true
}

/// Compares two lists of indices.
pub fn indices_eq(a: &Vec<u32>, b: &Vec<u32>) -> (same: bool)
    ensures
        same == (a@ == b@),
{
    if a.len() != b.len() {
        return false;
    }
    let n = a.len();
    let mut i: usize = 0;
    while i < n
        invariant
            0 <= i <= n,
            n == a@.len(),
            n == b@.len(),
            forall|j: int| 0 <= j < i ==> a@[j] == b@[j],
        decreases n - i,
    {
        if a[i] != b[i] {
            return false;
        }
        i += 1;
    }
    assert(a@ =~= b@);
    true
}

impl PartialEq for Vertices {
    fn eq(&self, other: &Self) -> (r: bool) {
        self.is_same(other)
    }
}

impl PartialEqSpecImpl for Vertices {
    open spec fn obeys_eq_spec() -> bool {
        true
    }

    open spec fn eq_spec(&self, other: &Self) -> bool {
        self.same(*other)
    }
}

/// Number of influences on `vertex` among the first `n` vertex weights.
pub open spec fn influences_in_first(weights: Seq<VertexWeight>, vertex: usize, n: nat) -> nat
    decreases n,
{
    if n == 0 || n > weights.len() {
        0
    } else {
        influences_in_first(weights, vertex, (n - 1) as nat) + (if weights[n - 1].vertex == vertex {
            1nat
        } else {
            0nat
        })
    }
}

/// Position among the first `n` vertex weights of the influence on `vertex`
/// that `rank` influences on it precede.
pub open spec fn influence_in_first(
    weights: Seq<VertexWeight>,
    vertex: usize,
    rank: nat,
    n: nat,
) -> Option<int>
    decreases n,
{
    if n == 0 || n > weights.len() {
        None
    } else {
        match influence_in_first(weights, vertex, rank, (n - 1) as nat) {
            Some(k) => Some(k),
            None => if weights[n - 1].vertex == vertex && influences_in_first(
                weights,
                vertex,
                (n - 1) as nat,
            ) == rank {
                Some(n - 1)
            } else {
                None
            },
        }
    }
}

/// The weight of the influence of the given rank on `vertex` among the
/// first `n` vertex weights, and zero where there is none.
pub open spec fn skin_weight(bind: BindData, vertex: usize, rank: nat, n: nat) -> u32 {
    match influence_in_first(bind.vertex_weights@, vertex, rank, n) {
        Some(k) => bind.weights@[bind.vertex_weights@[k].weight as int],
        None => 0,
    }
}

/// The joint of the influence of the given rank on `vertex` among the first
/// `n` vertex weights, and zero where there is none.
pub open spec fn skin_joint(bind: BindData, vertex: usize, rank: nat, n: nat) -> i32 {
    match influence_in_first(bind.vertex_weights@, vertex, rank, n) {
        Some(k) => bind.vertex_weights@[k].joint as i32,
        None => 0,
    }
}

/// Whether the vertex weights fit a mesh of `vertices` vertices: each names
/// a vertex of the mesh, and each of the first two on a vertex names a
/// weight that the bind data holds.
pub open spec fn skinnable(bind: BindData, vertices: nat) -> bool {
    forall|k: int|
        0 <= k < bind.vertex_weights@.len() ==> {
            &&& (#[trigger] bind.vertex_weights@[k]).vertex < vertices
            &&& influences_in_first(bind.vertex_weights@, bind.vertex_weights@[k].vertex, k as nat)
                < 2 ==> bind.vertex_weights@[k].weight < bind.weights@.len()
        }
}

/// No more influences are among the first `n` vertex weights than `n`.
pub proof fn lemma_influences_bound(weights: Seq<VertexWeight>, vertex: usize, n: nat)
    ensures
        influences_in_first(weights, vertex, n) <= n,
    decreases n,
{
    if n > 0 && n <= weights.len() {
        lemma_influences_bound(weights, vertex, (n - 1) as nat);
    }
}

/// An influence found among the first `n` vertex weights is one that fewer
/// than `n` precede, on that vertex, with that rank.
pub proof fn lemma_influence_found(weights: Seq<VertexWeight>, vertex: usize, rank: nat, n: nat)
    requires
        n <= weights.len(),
    ensures
        match influence_in_first(weights, vertex, rank, n) {
            Some(k) => 0 <= k < n && weights[k].vertex == vertex && influences_in_first(
                weights,
                vertex,
                k as nat,
            ) == rank,
            None => influences_in_first(weights, vertex, n) <= rank,
        },
    decreases n,
{
    if n > 0 {
        lemma_influence_found(weights, vertex, rank, (n - 1) as nat);
    }
}

/// How the influences among the first `n + 1` vertex weights follow from
/// those among the first `n`.
pub proof fn lemma_influence_step(weights: Seq<VertexWeight>, vertex: usize, rank: nat, n: nat)
    requires
        n < weights.len(),
    ensures
        influences_in_first(weights, vertex, n + 1) == influences_in_first(weights, vertex, n) + (
        if weights[n as int].vertex == vertex {
            1nat
        } else {
            0nat
        }),
        influence_in_first(weights, vertex, rank, n + 1) == (match influence_in_first(
            weights,
            vertex,
            rank,
            n,
        ) {
            Some(k) => Some(k),
            None => if weights[n as int].vertex == vertex && influences_in_first(
                weights,
                vertex,
                n,
            ) == rank {
                Some(n as int)
            } else {
                None
            },
        }),
        influences_in_first(weights, vertex, n) == rank ==> influence_in_first(
            weights,
            vertex,
            rank,
            n,
        ).is_none(),
{
    lemma_influence_found(weights, vertex, rank, n);
    match influence_in_first(weights, vertex, rank, n) {
        Some(k) => {
            lemma_influences_grow(weights, vertex, (k + 1) as nat, n);
        },
        None => {},
    }
}

/// The number of influences among the first `n` vertex weights does not
/// exceed that among the first `m`, when `n <= m`.
pub proof fn lemma_influences_grow(weights: Seq<VertexWeight>, vertex: usize, n: nat, m: nat)
    requires
        n <= m <= weights.len(),
    ensures
        influences_in_first(weights, vertex, n) <= influences_in_first(weights, vertex, m),
    decreases m,
{
    if n < m {
        lemma_influences_grow(weights, vertex, n, (m - 1) as nat);
    }
}

/// Checks whether the vertex weights fit a mesh of `vertices` vertices.
#[verifier::rlimit(50)]
pub fn is_skinnable(bind: &BindData, vertices: usize) -> (r: bool)
    ensures
        r == skinnable(*bind, vertices as nat),
{
    let n = bind.vertex_weights.len();
    let mut counts: Vec<usize> = vec![0usize; vertices];
    let mut k: usize = 0;
    while k < n
        invariant
            0 <= k <= n,
            n == bind.vertex_weights@.len(),
            counts@.len() == vertices,
            forall|v: usize|
                v < vertices ==> #[trigger] counts@[v as int] == influences_in_first(
                    bind.vertex_weights@,
                    v,
                    k as nat,
                ),
            forall|j: int|
                0 <= j < k ==> {
                    &&& (#[trigger] bind.vertex_weights@[j]).vertex < vertices
                    &&& influences_in_first(
                        bind.vertex_weights@,
                        bind.vertex_weights@[j].vertex,
                        j as nat,
                    ) < 2 ==> bind.vertex_weights@[j].weight < bind.weights@.len()
                },
        decreases n - k,
    {
        let vw = bind.vertex_weights[k];
        if vw.vertex >= vertices {
            assert(!(bind.vertex_weights@[k as int].vertex < vertices));
            return false;
        }
        let cur = counts[vw.vertex];
        if cur < 2 && vw.weight >= bind.weights.len() {
            assert(influences_in_first(
                bind.vertex_weights@,
                bind.vertex_weights@[k as int].vertex,
                k as nat,
            ) < 2 && !(bind.vertex_weights@[k as int].weight < bind.weights@.len()));
            return false;
        }
        proof {
            lemma_influences_bound(bind.vertex_weights@, vw.vertex, k as nat);
        }
        let ghost before = counts@;
        counts.set(vw.vertex, cur + 1);
        proof {
            assert forall|v: usize| v < vertices implies #[trigger] counts@[v as int]
                == influences_in_first(bind.vertex_weights@, v, (k + 1) as nat) by {
                lemma_influence_step(bind.vertex_weights@, v, 0, k as nat);
                assert(before[v as int] == influences_in_first(
                    bind.vertex_weights@,
                    v,
                    k as nat,
                ));
            }
        }
        k += 1;
    }
    true
}

/// The weights of the first two influences on each vertex of a mesh of
/// `vertices` vertices.
pub open spec fn skin_weights_of(bind: BindData, vertices: nat) -> Seq<[u32; 2]> {
    Seq::new(
        vertices,
        |v: int|
            [
                skin_weight(bind, v as usize, 0, bind.vertex_weights@.len()),
                skin_weight(bind, v as usize, 1, bind.vertex_weights@.len()),
            ],
    )
}

/// The joints of the first two influences on each vertex of a mesh of
/// `vertices` vertices.
pub open spec fn skin_joints_of(bind: BindData, vertices: nat) -> Seq<[i32; 2]> {
    Seq::new(
        vertices,
        |v: int|
            [
                skin_joint(bind, v as usize, 0, bind.vertex_weights@.len()),
                skin_joint(bind, v as usize, 1, bind.vertex_weights@.len()),
            ],
    )
}

/// Tables that hold the first two influences on each vertex are the
/// skinning tables.
#[verifier::rlimit(50)]
pub proof fn lemma_skin_tables(bind: BindData, vertices: nat, w: Seq<[u32; 2]>, b: Seq<[i32; 2]>)
    requires
        w.len() == vertices,
        b.len() == vertices,
        vertices <= usize::MAX,
        forall|v: usize, rank: nat|
            v < vertices && rank < 2 ==> (#[trigger] w[v as int][rank as int]) == skin_weight(
                bind,
                v,
                rank,
                bind.vertex_weights@.len(),
            ),
        forall|v: usize, rank: nat|
            v < vertices && rank < 2 ==> (#[trigger] b[v as int][rank as int]) == skin_joint(
                bind,
                v,
                rank,
                bind.vertex_weights@.len(),
            ),
    ensures
        w == skin_weights_of(bind, vertices),
        b == skin_joints_of(bind, vertices),
{
    let n = bind.vertex_weights@.len();
    assert forall|v: int| 0 <= v < vertices implies #[trigger] w[v] == skin_weights_of(
        bind,
        vertices,
    )[v] by {
        let u = v as usize;
        let expected = skin_weights_of(bind, vertices)[v];
        assert(w[u as int][0nat as int] == skin_weight(bind, u, 0, n));
        assert(w[u as int][1nat as int] == skin_weight(bind, u, 1, n));
        assert(expected[0] == skin_weight(bind, u, 0, n));
        assert(expected[1] == skin_weight(bind, u, 1, n));
        assert(w[v]@ =~= expected@);
    }
    assert(w =~= skin_weights_of(bind, vertices));
    assert forall|v: int| 0 <= v < vertices implies #[trigger] b[v] == skin_joints_of(
        bind,
        vertices,
    )[v] by {
        let u = v as usize;
        let expected = skin_joints_of(bind, vertices)[v];
        assert(b[u as int][0nat as int] == skin_joint(bind, u, 0, n));
        assert(b[u as int][1nat as int] == skin_joint(bind, u, 1, n));
        assert(expected[0] == skin_joint(bind, u, 0, n));
        assert(expected[1] == skin_joint(bind, u, 1, n));
        assert(b[v]@ =~= expected@);
    }
    assert(b =~= skin_joints_of(bind, vertices));
}

/// Gives each vertex of a mesh of `vertices` vertices its first two
/// influences: their weights, and their joints. What a vertex lacks is
/// zero, and what it has beyond two is dropped.
#[verifier::rlimit(50)]
pub fn skin(bind: &BindData, vertices: usize) -> (r: (Vec<[u32; 2]>, Vec<[i32; 2]>))
    requires
        skinnable(*bind, vertices as nat),
    ensures
        r.0@ == skin_weights_of(*bind, vertices as nat),
        r.1@ == skin_joints_of(*bind, vertices as nat),
{
    let n = bind.vertex_weights.len();
    let mut w: Vec<[u32; 2]> = vec![[0u32; 2]; vertices];
    let mut b: Vec<[i32; 2]> = vec![[0i32; 2]; vertices];
    let mut counts: Vec<usize> = vec![0usize; vertices];
    let mut k: usize = 0;
    while k < n
        invariant
            0 <= k <= n,
            n == bind.vertex_weights@.len(),
            skinnable(*bind, vertices as nat),
            w@.len() == vertices,
            b@.len() == vertices,
            counts@.len() == vertices,
            forall|v: usize|
                v < vertices ==> #[trigger] counts@[v as int] == influences_in_first(
                    bind.vertex_weights@,
                    v,
                    k as nat,
                ),
            forall|v: usize, rank: nat|
                v < vertices && rank < 2 ==> (#[trigger] w@[v as int][rank as int]) == skin_weight(
                    *bind,
                    v,
                    rank,
                    k as nat,
                ),
            forall|v: usize, rank: nat|
                v < vertices && rank < 2 ==> (#[trigger] b@[v as int][rank as int]) == skin_joint(
                    *bind,
                    v,
                    rank,
                    k as nat,
                ),
        decreases n - k,
    {
        let vw = bind.vertex_weights[k];
        let vertex = vw.vertex;
        assert(bind.vertex_weights@[k as int].vertex < vertices);
        let cur = counts[vertex];
        let ghost w_before = w@;
        let ghost b_before = b@;
        let ghost counts_before = counts@;
        proof {
            lemma_influences_bound(bind.vertex_weights@, vertex, k as nat);
        }
        if cur < 2 {
            let weight = bind.weights[vw.weight];
            let mut weights = w[vertex];
            weights[cur] = weight;
            w.set(vertex, weights);
            let mut joints = b[vertex];
            joints[cur] = vw.joint as i32;
            b.set(vertex, joints);
        }
        counts.set(vertex, cur + 1);
        proof {
            assert forall|v: usize| v < vertices implies #[trigger] counts@[v as int]
                == influences_in_first(bind.vertex_weights@, v, (k + 1) as nat) by {
                lemma_influence_step(bind.vertex_weights@, v, 0, k as nat);
                assert(counts_before[v as int] == influences_in_first(
                    bind.vertex_weights@,
                    v,
                    k as nat,
                ));
            }
            assert forall|v: usize, rank: nat| v < vertices && rank < 2 implies (
            #[trigger] w@[v as int][rank as int]) == skin_weight(*bind, v, rank, (k + 1) as nat) by {
                lemma_influence_step(bind.vertex_weights@, v, rank, k as nat);
                assert(counts_before[v as int] == influences_in_first(
                    bind.vertex_weights@,
                    v,
                    k as nat,
                ));
                assert(w_before[v as int][rank as int] == skin_weight(*bind, v, rank, k as nat));
            }
            assert forall|v: usize, rank: nat| v < vertices && rank < 2 implies (
            #[trigger] b@[v as int][rank as int]) == skin_joint(*bind, v, rank, (k + 1) as nat) by {
                lemma_influence_step(bind.vertex_weights@, v, rank, k as nat);
                assert(counts_before[v as int] == influences_in_first(
                    bind.vertex_weights@,
                    v,
                    k as nat,
                ));
                assert(b_before[v as int][rank as int] == skin_joint(*bind, v, rank, k as nat));
            }
        }
        k += 1;
    }
    proof {
        lemma_skin_tables(*bind, vertices as nat, w@, b@);
    }
    (w, b)
}

/// One corner of a triangle of positions in a table.
pub open spec fn corner(triangle: (usize, usize, usize), c: int) -> usize {
    if c == 0 {
        triangle.0
    } else if c == 1 {
        triangle.1
    } else {
        triangle.2
    }
}

/// The entries of `table` that the corners of `triangles` name, triangle
/// after triangle.
pub open spec fn gathered<T>(table: Seq<T>, triangles: Seq<(usize, usize, usize)>) -> Seq<T> {
    Seq::new(3 * triangles.len(), |i: int| table[corner(triangles[i / 3], i % 3) as int])
}

/// Whether each corner of `triangles` names an entry of a table of `len`
/// entries.
pub open spec fn corners_within(triangles: Seq<(usize, usize, usize)>, len: nat) -> bool {
    forall|i: int|
        0 <= i < triangles.len() ==> (#[trigger] triangles[i]).0 < len && triangles[i].1 < len
            && triangles[i].2 < len
}

/// Appends to `out` the entries of `table` that the corners of `triangles`
/// name.
pub fn gather<T: Copy>(table: &Vec<T>, triangles: &Vec<(usize, usize, usize)>, out: &mut Vec<T>)
    requires
        corners_within(triangles@, table@.len()),
    ensures
        final(out)@ == old(out)@ + gathered(table@, triangles@),
{
    let n = triangles.len();
    let mut i: usize = 0;
    while i < n
        invariant
            0 <= i <= n,
            n == triangles@.len(),
            corners_within(triangles@, table@.len()),
            out@.len() == old(out)@.len() + 3 * i,
            forall|j: int| 0 <= j < old(out)@.len() ==> out@[j] == old(out)@[j],
            forall|j: int|
                0 <= j < 3 * i ==> out@[old(out)@.len() + j] == gathered(table@, triangles@)[j],
        decreases n - i,
    {
        let triangle = triangles[i];
        assert(triangles@[i as int].0 < table@.len());
        out.push(table[triangle.0]);
        out.push(table[triangle.1]);
        out.push(table[triangle.2]);
        i += 1;
    }
    assert(out@ =~= old(out)@ + gathered(table@, triangles@));
}

/// Checks whether each corner of `triangles` names an entry of a table of
/// `len` entries.
pub fn are_corners_within(triangles: &Vec<(usize, usize, usize)>, len: usize) -> (r: bool)
    ensures
        r == corners_within(triangles@, len as nat),
{
    let n = triangles.len();
    let mut i: usize = 0;
    while i < n
        invariant
            0 <= i <= n,
            n == triangles@.len(),
            forall|j: int|
                0 <= j < i ==> (#[trigger] triangles@[j]).0 < len && triangles@[j].1 < len
                    && triangles@[j].2 < len,
        decreases n - i,
    {
        let triangle = triangles[i];
        if triangle.0 >= len || triangle.1 >= len || triangle.2 >= len {
            return false;
        }
        i += 1;
    }
    true
}

/// Mathematical model of a mesh.
pub struct VerticesView {
    pub positions: Seq<[u32; 3]>,
    pub normals: Seq<[u32; 3]>,
    pub texcoords: Seq<[u32; 2]>,
    pub weights: Option<Seq<[u32; 2]>>,
    pub bone_ids: Option<Seq<[i32; 2]>>,
    pub indices: Seq<u32>,
}

impl View for Vertices {
    type V = VerticesView;

    open spec fn view(&self) -> VerticesView {
        VerticesView {
            positions: self.positions@,
            normals: self.normals@,
            texcoords: self.texcoords@,
            weights: match self.weights {
                Some(weights) => Some(weights@),
                None => None,
            },
            bone_ids: match self.bone_ids {
                Some(bone_ids) => Some(bone_ids@),
                None => None,
            },
            indices: self.indices@,
        }
    }
}

/// The triangles of a primitive, or none where it is no list of triangles.
pub open spec fn triangles_of(primitive: PrimitiveElement) -> Seq<(usize, usize, usize)> {
    match primitive {
        PrimitiveElement::Triangles(t) => t.vertices@,
        PrimitiveElement::Polylist => Seq::empty(),
    }
}

/// The normal indices of a primitive's triangles.
pub open spec fn normals_of(primitive: PrimitiveElement) -> Seq<(usize, usize, usize)> {
    match primitive {
        PrimitiveElement::Triangles(t) => match t.normals {
            Some(normals) => normals@,
            None => Seq::empty(),
        },
        PrimitiveElement::Polylist => Seq::empty(),
    }
}

/// The texture indices of a primitive's triangles.
pub open spec fn tex_vertices_of(primitive: PrimitiveElement) -> Seq<(usize, usize, usize)> {
    match primitive {
        PrimitiveElement::Triangles(t) => match t.tex_vertices {
            Some(tex_vertices) => tex_vertices@,
            None => Seq::empty(),
        },
        PrimitiveElement::Polylist => Seq::empty(),
    }
}

/// The entries of `table` that the corners of the first `n` primitives
/// name by vertex.
pub open spec fn by_vertex<T>(table: Seq<T>, mesh: Seq<PrimitiveElement>, n: nat) -> Seq<T>
    decreases n,
{
    if n == 0 || n > mesh.len() {
        Seq::empty()
    } else {
        by_vertex(table, mesh, (n - 1) as nat) + gathered(table, triangles_of(mesh[n - 1]))
    }
}

/// The entries of `table` that the corners of the first `n` primitives
/// name by normal.
pub open spec fn by_normal<T>(table: Seq<T>, mesh: Seq<PrimitiveElement>, n: nat) -> Seq<T>
    decreases n,
{
    if n == 0 || n > mesh.len() {
        Seq::empty()
    } else {
        by_normal(table, mesh, (n - 1) as nat) + gathered(table, normals_of(mesh[n - 1]))
    }
}

/// The entries of `table` that the corners of the first `n` primitives
/// name by texture vertex.
pub open spec fn by_tex_vertex<T>(table: Seq<T>, mesh: Seq<PrimitiveElement>, n: nat) -> Seq<T>
    decreases n,
{
    if n == 0 || n > mesh.len() {
        Seq::empty()
    } else {
        by_tex_vertex(table, mesh, (n - 1) as nat) + gathered(table, tex_vertices_of(mesh[n - 1]))
    }
}

/// The numbers from 0 up to `n`.
pub open spec fn counted(n: nat) -> Seq<u32> {
    Seq::new(n, |i: int| i as u32)
}

/// The indices of the corners of the first `n` primitives: each primitive
/// numbers its corners from 0.
pub open spec fn indices_of(mesh: Seq<PrimitiveElement>, n: nat) -> Seq<u32>
    decreases n,
{
    if n == 0 || n > mesh.len() {
        Seq::empty()
    } else {
        indices_of(mesh, (n - 1) as nat) + counted(3 * triangles_of(mesh[n - 1]).len())
    }
}

/// Number of corners of the triangles of the first `n` primitives.
pub open spec fn corners_of(mesh: Seq<PrimitiveElement>, n: nat) -> nat
    decreases n,
{
    if n == 0 || n > mesh.len() {
        0
    } else {
        corners_of(mesh, (n - 1) as nat) + 3 * triangles_of(mesh[n - 1]).len()
    }
}

/// A mesh has one position, one normal, one texture vertex and one index
/// for each corner of its triangles, and one row of a table that is
/// gathered by vertex.
pub proof fn lemma_one_for_each_corner<T>(object: Object, table: Seq<T>, n: nat)
    requires
        n <= object.mesh@.len(),
        forall|i: int| 0 <= i < n ==> expandable(#[trigger] object.mesh@[i], object),
    ensures
        by_vertex(object.vertices@, object.mesh@, n).len() == corners_of(object.mesh@, n),
        by_normal(object.normals@, object.mesh@, n).len() == corners_of(object.mesh@, n),
        by_tex_vertex(object.tex_vertices@, object.mesh@, n).len() == corners_of(object.mesh@, n),
        by_vertex(table, object.mesh@, n).len() == corners_of(object.mesh@, n),
        indices_of(object.mesh@, n).len() == corners_of(object.mesh@, n),
    decreases n,
{
    if n > 0 {
        lemma_one_for_each_corner(object, table, (n - 1) as nat);
        assert(expandable(object.mesh@[n - 1], object));
    }
}

/// Whether every primitive is a list of triangles.
pub open spec fn all_triangles(mesh: Seq<PrimitiveElement>) -> bool {
    forall|i: int| 0 <= i < mesh.len() ==> (#[trigger] mesh[i]) is Triangles
}

/// Whether a primitive can be expanded against the tables of `object`: it
/// has normal and texture indices for each of its triangles, its corners
/// can be numbered, and they name entries of the tables.
pub open spec fn expandable(primitive: PrimitiveElement, object: Object) -> bool {
    match primitive {
        PrimitiveElement::Triangles(t) => {
            &&& t.normals matches Some(normals) && normals@.len() == t.vertices@.len()
            &&& t.tex_vertices matches Some(tex_vertices) && tex_vertices@.len()
                == t.vertices@.len()
            &&& 3 * t.vertices@.len() <= u32::MAX
            &&& corners_within(t.vertices@, object.vertices@.len())
            &&& corners_within(normals_of(primitive), object.normals@.len())
            &&& corners_within(tex_vertices_of(primitive), object.tex_vertices@.len())
        },
        PrimitiveElement::Polylist => false,
    }
}

/// Whether the bind data of a document fit its first object, where the
/// document is animated.
pub open spec fn skin_ready(doc: Document, object: Object) -> bool {
    doc.animations.is_some() ==> (doc.bind_data matches Some(bind_data) && bind_data@.len() > 0
        && skinnable(bind_data@[0], object.vertices@.len()))
}

/// Whether the mesh of a document can be read or refused.
pub open spec fn mesh_ready(doc: Document) -> bool {
    match doc.objects {
        Some(objects) => objects@.len() > 0 ==> {
            &&& skin_ready(doc, objects@[0])
            &&& all_triangles(objects@[0].mesh@) ==> forall|i: int|
                0 <= i < objects@[0].mesh@.len() ==> expandable(
                    #[trigger] objects@[0].mesh@[i],
                    objects@[0],
                )
        },
        None => true,
    }
}

/// The mesh that a document describes: the first object's triangles, corner
/// by corner, with the two influences of each corner's vertex where the
/// document is animated. A document without objects has no mesh, and one
/// with a primitive that is no list of triangles is refused.
pub open spec fn vertices_of(doc: Document) -> Result<VerticesView, Error> {
    match doc.objects {
        Some(objects) => if objects@.len() == 0 {
            Err(Error::EmptyFile)
        } else if !all_triangles(objects@[0].mesh@) {
            Err(Error::PrimitiveNotTriangles)
        } else {
            let object = objects@[0];
            let mesh = object.mesh@;
            Ok(
                VerticesView {
                    positions: by_vertex(object.vertices@, mesh, mesh.len()),
                    normals: by_normal(object.normals@, mesh, mesh.len()),
                    texcoords: by_tex_vertex(object.tex_vertices@, mesh, mesh.len()),
                    weights: if doc.animations.is_some() {
                        Some(
                            by_vertex(
                                skin_weights_of(doc.bind_data.unwrap()@[0], object.vertices@.len()),
                                mesh,
                                mesh.len(),
                            ),
                        )
                    } else {
                        None
                    },
                    bone_ids: if doc.animations.is_some() {
                        Some(
                            by_vertex(
                                skin_joints_of(doc.bind_data.unwrap()@[0], object.vertices@.len()),
                                mesh,
                                mesh.len(),
                            ),
                        )
                    } else {
                        None
                    },
                    indices: indices_of(mesh, mesh.len()),
                },
            )
        },
        None => Err(Error::EmptyFile),
    }
}

/// Whether every primitive is a list of triangles.
pub fn is_all_triangles(mesh: &Vec<PrimitiveElement>) -> (r: bool)
    ensures
        r == all_triangles(mesh@),
{
    let n = mesh.len();
    let mut i: usize = 0;
    while i < n
        invariant
            0 <= i <= n,
            n == mesh@.len(),
            forall|j: int| 0 <= j < i ==> (#[trigger] mesh@[j]) is Triangles,
        decreases n - i,
    {
        match &mesh[i] {
            PrimitiveElement::Triangles(_) => {},
            PrimitiveElement::Polylist => {
                assert(!(mesh@[i as int] is Triangles));
                return false;
            },
        }
        i += 1;
    }
    true
}

/// Checks whether a primitive can be expanded against the tables of
/// `object`.
pub fn is_expandable(primitive: &PrimitiveElement, object: &Object) -> (r: bool)
    ensures
        r == expandable(*primitive, *object),
{
    match primitive {
        PrimitiveElement::Triangles(t) => {
            let normals = match &t.normals {
                Some(normals) => normals,
                None => {
                    return false;
                },
            };
            let tex_vertices = match &t.tex_vertices {
                Some(tex_vertices) => tex_vertices,
                None => {
                    return false;
                },
            };
            normals.len() == t.vertices.len() && tex_vertices.len() == t.vertices.len()
                && t.vertices.len() <= 0x5555_5555 && are_corners_within(
                &t.vertices,
                object.vertices.len(),
            ) && are_corners_within(normals, object.normals.len()) && are_corners_within(
                tex_vertices,
                object.tex_vertices.len(),
            )
        },
        PrimitiveElement::Polylist => false,
    }
}

/// Checks whether the mesh of a document can be read or refused.
#[verifier::loop_isolation(false)]
pub fn is_mesh_ready(doc: &Document) -> (r: bool)
    ensures
        r == mesh_ready(*doc),
{
    let objects = match &doc.objects {
        Some(objects) => objects,
        None => {
            return true;
        },
    };
    if objects.len() == 0 {
        return true;
    }
    let object = &objects[0];
    if doc.animations.is_some() {
        let skinned = match &doc.bind_data {
            Some(bind_data) => bind_data.len() > 0 && is_skinnable(
                &bind_data[0],
                object.vertices.len(),
            ),
            None => false,
        };
        if !skinned {
            return false;
        }
    }
    if !is_all_triangles(&object.mesh) {
        return true;
    }
    let n = object.mesh.len();
    let mut i: usize = 0;
    while i < n
        invariant
            0 <= i <= n,
            n == object.mesh@.len(),
            forall|j: int| 0 <= j < i ==> expandable(#[trigger] object.mesh@[j], *object),
        decreases n - i,
    {
        if !is_expandable(&object.mesh[i], object) {
            assert(!expandable(object.mesh@[i as int], *object));
            return false;
        }
        i += 1;
    }
    true
}

/// Appends to `indices` the numbers from 0 up to `n`.
fn count_up(n: u32, indices: &mut Vec<u32>)
    ensures
        final(indices)@ == old(indices)@ + counted(n as nat),
{
    let mut idx: u32 = 0;
    while idx < n
        invariant
            0 <= idx <= n,
            indices@ == old(indices)@ + counted(idx as nat),
        decreases n - idx,
    {
        indices.push(idx);
        assert(indices@ =~= old(indices)@ + counted((idx + 1) as nat));
        idx += 1;
    }
}

/// Reads the mesh of a document.
#[verifier::rlimit(50)]
pub fn parse_vertices(doc: &Document) -> (r: Result<Vertices, Error>)
    requires
        mesh_ready(*doc),
    ensures
        r.is_ok() <==> vertices_of(*doc).is_ok(),
        match r {
            Ok(vertices) => {
                &&& vertices_of(*doc) == Ok::<VerticesView, Error>(vertices@)
                &&& vertices.normals@.len() == vertices.positions@.len()
                &&& vertices.texcoords@.len() == vertices.positions@.len()
                &&& vertices.indices@.len() == vertices.positions@.len()
                &&& vertices.weights.is_some() == doc.animations.is_some()
                &&& vertices.bone_ids.is_some() == doc.animations.is_some()
                &&& vertices.weights matches Some(weights) ==> weights@.len()
                    == vertices.positions@.len()
                &&& vertices.bone_ids matches Some(bone_ids) ==> bone_ids@.len()
                    == vertices.positions@.len()
            },
            Err(e) => vertices_of(*doc) == Err::<VerticesView, Error>(e) && (e == Error::EmptyFile
                || e == Error::PrimitiveNotTriangles),
        },
{
    let objects = match &doc.objects {
        Some(objects) => objects,
        None => {
            return Err(Error::EmptyFile);
        },
    };
    if objects.len() == 0 {
        return Err(Error::EmptyFile);
    }
    let object = &objects[0];
    let skinned = doc.animations.is_some();
    let (w, b) = if skinned {
        let bind = &doc.bind_data.as_ref().unwrap()[0];
        let (w, b) = skin(bind, object.vertices.len());
        (w, b)
    } else {
        (Vec::new(), Vec::new())
    };
    if !is_all_triangles(&object.mesh) {
        return Err(Error::PrimitiveNotTriangles);
    }
    let mut positions: Vec<[u32; 3]> = Vec::new();
    let mut normals: Vec<[u32; 3]> = Vec::new();
    let mut texcoords: Vec<[u32; 2]> = Vec::new();
    let mut weights: Vec<[u32; 2]> = Vec::new();
    let mut bone_ids: Vec<[i32; 2]> = Vec::new();
    let mut indices: Vec<u32> = Vec::new();
    let n = object.mesh.len();
    let mut i: usize = 0;
    while i < n
        invariant
            0 <= i <= n,
            n == object.mesh@.len(),
            forall|j: int| 0 <= j < n ==> expandable(#[trigger] object.mesh@[j], *object),
            skinned ==> w@.len() == object.vertices@.len() && b@.len() == object.vertices@.len(),
            positions@ == by_vertex(object.vertices@, object.mesh@, i as nat),
            normals@ == by_normal(object.normals@, object.mesh@, i as nat),
            texcoords@ == by_tex_vertex(object.tex_vertices@, object.mesh@, i as nat),
            skinned ==> weights@ == by_vertex(w@, object.mesh@, i as nat),
            skinned ==> bone_ids@ == by_vertex(b@, object.mesh@, i as nat),
            indices@ == indices_of(object.mesh@, i as nat),
        decreases n - i,
    {
        assert(expandable(object.mesh@[i as int], *object));
        proof {
            let mesh = object.mesh@;
            let k = (i + 1) as nat;
            assert(by_vertex(object.vertices@, mesh, k) == by_vertex(
                object.vertices@,
                mesh,
                i as nat,
            ) + gathered(object.vertices@, triangles_of(mesh[i as int])));
            assert(by_normal(object.normals@, mesh, k) == by_normal(
                object.normals@,
                mesh,
                i as nat,
            ) + gathered(object.normals@, normals_of(mesh[i as int])));
            assert(by_tex_vertex(object.tex_vertices@, mesh, k) == by_tex_vertex(
                object.tex_vertices@,
                mesh,
                i as nat,
            ) + gathered(object.tex_vertices@, tex_vertices_of(mesh[i as int])));
            assert(by_vertex(w@, mesh, k) == by_vertex(w@, mesh, i as nat) + gathered(
                w@,
                triangles_of(mesh[i as int]),
            ));
            assert(by_vertex(b@, mesh, k) == by_vertex(b@, mesh, i as nat) + gathered(
                b@,
                triangles_of(mesh[i as int]),
            ));
            assert(indices_of(mesh, k) == indices_of(mesh, i as nat) + counted(
                3 * triangles_of(mesh[i as int]).len(),
            ));
        }
        match &object.mesh[i] {
            PrimitiveElement::Triangles(triangles) => {
                let normals_idx = triangles.normals.as_ref().unwrap();
                let texcoords_idx = triangles.tex_vertices.as_ref().unwrap();
                let positions_idx = &triangles.vertices;
                gather(&object.vertices, positions_idx, &mut positions);
                gather(&object.normals, normals_idx, &mut normals);
                gather(&object.tex_vertices, texcoords_idx, &mut texcoords);
                if skinned {
                    gather(&w, positions_idx, &mut weights);
                    gather(&b, positions_idx, &mut bone_ids);
                }
                count_up((3 * positions_idx.len()) as u32, &mut indices);
            },
            PrimitiveElement::Polylist => {},
        }
        i += 1;
    }
    proof {
        lemma_one_for_each_corner(*object, w@, n as nat);
        lemma_one_for_each_corner(*object, b@, n as nat);
    }
    Ok(
        Vertices {
            positions,
            normals,
            texcoords,
            weights: if skinned {
                Some(weights)
            } else {
                None
            },
            bone_ids: if skinned {
                Some(bone_ids)
            } else {
                None
            },
            indices,
        },
    )
}

} // verus!
