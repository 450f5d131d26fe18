//! The bit-packed graph: a vertex count and a lower-triangle edge store.
//! The edge between `i < j` lives at bit `j * (j - 1) / 2 + i`.

use vstd::prelude::*;
use vstd::arithmetic::div_mod::{lemma_div_denominator, lemma_div_multiples_vanish};
use vstd::arithmetic::power2::{pow2, lemma_pow2_adds, lemma2_to64};
use vstd::bits::lemma_usize_shl_is_mul;
use vstd::string::StringSliceAdditionalSpecFns;
use crate::bitvec::BitVec;
use crate::graph_like::GraphLike;
use crate::codec::{b64_enc, b64_encode, b64_encode_append, b64_decode, contains_pad,
    GraphParseError, lemma_b64_enc_same_len};

verus! {

/// The number of unordered pairs of vertices below `n`: the length of the
/// lower-triangle edge store.
pub open spec fn tri(n: int) -> int {
    n * (n - 1) / 2
}

pub proof fn lemma_tri_step(j: int)
    requires
        j >= 0,
    ensures
        tri(j) + j == tri(j + 1),
{
    let p = j * (j - 1);
    if j % 2 == 0 {
        let t = j / 2;
        assert(j == 2 * t);
        assert(p == 2 * (t * (j - 1))) by (nonlinear_arith)
            requires
                j == 2 * t && p == j * (j - 1),
        ;
        lemma_div_multiples_vanish(t * (j - 1), 2);
    } else {
        let t = (j - 1) / 2;
        assert(j - 1 == 2 * t);
        assert(p == 2 * (j * t)) by (nonlinear_arith)
            requires
                j - 1 == 2 * t && p == j * (j - 1),
        ;
        lemma_div_multiples_vanish(j * t, 2);
    }
    let u = p / 2;
    assert(p == 2 * u);
    assert((j + 1) * j == p + 2 * j) by (nonlinear_arith)
        requires
            p == j * (j - 1),
    ;
    assert((j + 1) * j == 2 * (u + j));
    lemma_div_multiples_vanish(u + j, 2);
}

pub proof fn lemma_tri_mono(a: int, b: int)
    requires
        0 <= a <= b,
    ensures
        tri(a) <= tri(b),
    decreases b - a,
{
    if a < b {
        lemma_tri_mono(a, b - 1);
        lemma_tri_step(b - 1);
    }
}

pub proof fn lemma_tri_index(i: int, j: int, n: int)
    requires
        0 <= i < j < n,
    ensures
        0 <= tri(j) + i < tri(n),
        0 <= tri(j) + i < tri(j + 1),
{
    assert(j * (j - 1) >= 0) by (nonlinear_arith)
        requires
            j >= 1,
    ;
    lemma_tri_step(j);
    lemma_tri_mono(j + 1, n);
}

/// Child `k` of a graph on `n` vertices joins the new vertex `n` to each
/// old vertex `j` whose bit is set in `k`.
pub open spec fn ext_bit(k: int, j: int) -> bool {
    (k / (pow2(j as nat) as int)) % 2 == 1
}

#[derive(Debug)]
pub struct Graph {
    pub num_verts: usize,
    pub edges: BitVec,
}

impl Clone for Graph {
    fn clone(&self) -> (r: Self)
        ensures
            r.num_verts == self.num_verts,
            r.edges.len == self.edges.len,
            r.edges.vec@ == self.edges.vec@,
    {
        Graph { num_verts: self.num_verts, edges: self.edges.clone() }
    }
}

impl GraphLike for Graph {
    open spec fn verts(&self) -> nat {
        self.num_verts as nat
    }

    open spec fn edge(&self, i: int, j: int) -> bool {
        if i < j {
            self.edges@[tri(j) + i]
        } else {
            self.edges@[tri(i) + j]
        }
    }

    open spec fn wf(&self) -> bool {
        &&& 1 <= self.num_verts <= 64
        &&& self.edges.wf()
        &&& self.edges.len == tri(self.num_verts as int)
    }

    fn num_verts(&self) -> (r: usize) {
        self.num_verts
    }

    fn get_edge(&self, n: usize, m: usize) -> (r: bool) {
        let n1 = if m < n {
            m
        } else {
            n
        };
        let m1 = if m < n {
            n
        } else {
            m
        };
        proof {
            assert(m1 * m1 - m1 == m1 * (m1 - 1)) by (nonlinear_arith);
            lemma_tri_index(n1 as int, m1 as int, self.num_verts as int);
        }
        self.edges.get((m1 * m1 - m1) / 2 + n1)
    }
}

/// The spec-level edge relation is symmetric in its two arguments.
pub proof fn lemma_edge_symmetry(g: &Graph, i: int, j: int)
    requires
        i != j,
    ensures
        g.edge(i, j) == g.edge(j, i),
{
}

/// The chosen vertices together with `v` form a monochromatic
/// complete subgraph on three vertices through `v`.
pub open spec fn k3_ok<G: GraphLike>(g: &G, col: bool, v: int, a: int, b: int) -> bool {
    &&& 0 <= a < b < g.verts()
    &&& a != v && b != v
    &&& g.edge(v, a) == col && g.edge(v, b) == col
    &&& g.edge(a, b) == col
}

/// How many choices of the level-2 vertex below `e` complete a
/// monochromatic clique through `v`, given the earlier choices.
pub open spec fn k3_cnt2<G: GraphLike>(g: &G, col: bool, v: int, a: int, e: int) -> nat
    decreases e,
{
    if e <= a + 1 || e <= 0 {
        0
    } else {
        k3_cnt2(g, col, v, a, e - 1) + (if k3_ok(g, col, v, a, e - 1) {
            1nat
        } else {
            0nat
        })
    }
}

/// How many choices of the level-1 vertex below `e` complete a
/// monochromatic clique through `v`, given the earlier choices.
pub open spec fn k3_cnt1<G: GraphLike>(g: &G, col: bool, v: int, e: int) -> nat
    decreases e,
{
    if e <= 0 || e <= 0 {
        0
    } else {
        k3_cnt1(g, col, v, e - 1) + k3_cnt2(g, col, v, e - 1, g.verts() as int)
    }
}

pub proof fn lemma_k3_cnt2_zero<G: GraphLike>(g: &G, col: bool, v: int, a: int, e: int)
    requires
        forall|b: int| !#[trigger] k3_ok(g, col, v, a, b),
    ensures
        k3_cnt2(g, col, v, a, e) == 0,
    decreases e,
{
    if !(e <= a + 1 || e <= 0) {
        lemma_k3_cnt2_zero(g, col, v, a, e - 1);
    }
}

pub proof fn lemma_k3_cnt2_bound<G: GraphLike>(g: &G, col: bool, v: int, a: int, e: int)
    requires
        g.verts() <= 64,
        e <= 64,
    ensures
        k3_cnt2(g, col, v, a, e) <= (if e <= 0 {
            0int
        } else {
            e
        }),
    decreases e,
{
    if !(e <= a + 1 || e <= 0) {
        lemma_k3_cnt2_bound(g, col, v, a, e - 1);
    }
}

pub proof fn lemma_k3_cnt1_bound<G: GraphLike>(g: &G, col: bool, v: int, e: int)
    requires
        g.verts() <= 64,
        e <= 64,
    ensures
        k3_cnt1(g, col, v, e) <= (if e <= 0 {
            0int
        } else {
            e * 64
        }),
    decreases e,
{
    if !(e <= 0 || e <= 0) {
        lemma_k3_cnt1_bound(g, col, v, e - 1);
        lemma_k3_cnt2_bound(g, col, v, e - 1, g.verts() as int);
    }
}

/// The chosen vertices together with `v` form a monochromatic
/// complete subgraph on four vertices through `v`.
pub open spec fn k4_ok(g: &Graph, col: bool, v: int, a: int, b: int, c: int) -> bool {
    &&& 0 <= a < b < c < g.verts()
    &&& a != v && b != v && c != v
    &&& g.edge(v, a) == col && g.edge(v, b) == col && g.edge(v, c) == col
    &&& g.edge(a, b) == col && g.edge(a, c) == col && g.edge(b, c) == col
}

/// How many choices of the level-3 vertex below `e` complete a
/// monochromatic clique through `v`, given the earlier choices.
pub open spec fn k4_cnt3(g: &Graph, col: bool, v: int, a: int, b: int, e: int) -> nat
    decreases e,
{
    if e <= b + 1 || e <= 0 {
        0
    } else {
        k4_cnt3(g, col, v, a, b, e - 1) + (if k4_ok(g, col, v, a, b, e - 1) {
            1nat
        } else {
            0nat
        })
    }
}

/// How many choices of the level-2 vertex below `e` complete a
/// monochromatic clique through `v`, given the earlier choices.
pub open spec fn k4_cnt2(g: &Graph, col: bool, v: int, a: int, e: int) -> nat
    decreases e,
{
    if e <= a + 1 || e <= 0 {
        0
    } else {
        k4_cnt2(g, col, v, a, e - 1) + k4_cnt3(g, col, v, a, e - 1, g.verts() as int)
    }
}

/// How many choices of the level-1 vertex below `e` complete a
/// monochromatic clique through `v`, given the earlier choices.
pub open spec fn k4_cnt1(g: &Graph, col: bool, v: int, e: int) -> nat
    decreases e,
{
    if e <= 0 || e <= 0 {
        0
    } else {
        k4_cnt1(g, col, v, e - 1) + k4_cnt2(g, col, v, e - 1, g.verts() as int)
    }
}

pub proof fn lemma_k4_cnt3_zero(g: &Graph, col: bool, v: int, a: int, b: int, e: int)
    requires
        forall|c: int| !#[trigger] k4_ok(g, col, v, a, b, c),
    ensures
        k4_cnt3(g, col, v, a, b, e) == 0,
    decreases e,
{
    if !(e <= b + 1 || e <= 0) {
        lemma_k4_cnt3_zero(g, col, v, a, b, e - 1);
    }
}

pub proof fn lemma_k4_cnt2_zero(g: &Graph, col: bool, v: int, a: int, e: int)
    requires
        forall|b: int, c: int| !#[trigger] k4_ok(g, col, v, a, b, c),
    ensures
        k4_cnt2(g, col, v, a, e) == 0,
    decreases e,
{
    if !(e <= a + 1 || e <= 0) {
        lemma_k4_cnt2_zero(g, col, v, a, e - 1);
        lemma_k4_cnt3_zero(g, col, v, a, e - 1, g.verts() as int);
    }
}

pub proof fn lemma_k4_cnt3_bound(g: &Graph, col: bool, v: int, a: int, b: int, e: int)
    requires
        g.verts() <= 64,
        e <= 64,
    ensures
        k4_cnt3(g, col, v, a, b, e) <= (if e <= 0 {
            0int
        } else {
            e
        }),
    decreases e,
{
    if !(e <= b + 1 || e <= 0) {
        lemma_k4_cnt3_bound(g, col, v, a, b, e - 1);
    }
}

pub proof fn lemma_k4_cnt2_bound(g: &Graph, col: bool, v: int, a: int, e: int)
    requires
        g.verts() <= 64,
        e <= 64,
    ensures
        k4_cnt2(g, col, v, a, e) <= (if e <= 0 {
            0int
        } else {
            e * 64
        }),
    decreases e,
{
    if !(e <= a + 1 || e <= 0) {
        lemma_k4_cnt2_bound(g, col, v, a, e - 1);
        lemma_k4_cnt3_bound(g, col, v, a, e - 1, g.verts() as int);
    }
}

pub proof fn lemma_k4_cnt1_bound(g: &Graph, col: bool, v: int, e: int)
    requires
        g.verts() <= 64,
        e <= 64,
    ensures
        k4_cnt1(g, col, v, e) <= (if e <= 0 {
            0int
        } else {
            e * 4096
        }),
    decreases e,
{
    if !(e <= 0 || e <= 0) {
        lemma_k4_cnt1_bound(g, col, v, e - 1);
        lemma_k4_cnt2_bound(g, col, v, e - 1, g.verts() as int);
    }
}

/// The chosen vertices together with `v` form a monochromatic
/// complete subgraph on five vertices through `v`.
pub open spec fn k5_ok(g: &Graph, col: bool, v: int, a: int, b: int, c: int, d: int) -> bool {
    &&& 0 <= a < b < c < d < g.verts()
    &&& a != v && b != v && c != v && d != v
    &&& g.edge(v, a) == col && g.edge(v, b) == col && g.edge(v, c) == col && g.edge(v, d) == col
    &&& g.edge(a, b) == col && g.edge(a, c) == col && g.edge(a, d) == col && g.edge(b, c) == col && g.edge(b, d) == col && g.edge(c, d) == col
}

/// How many choices of the level-4 vertex below `e` complete a
/// monochromatic clique through `v`, given the earlier choices.
pub open spec fn k5_cnt4(g: &Graph, col: bool, v: int, a: int, b: int, c: int, e: int) -> nat
    decreases e,
{
    if e <= c + 1 || e <= 0 {
        0
    } else {
        k5_cnt4(g, col, v, a, b, c, e - 1) + (if k5_ok(g, col, v, a, b, c, e - 1) {
            1nat
        } else {
            0nat
        })
    }
}

/// How many choices of the level-3 vertex below `e` complete a
/// monochromatic clique through `v`, given the earlier choices.
pub open spec fn k5_cnt3(g: &Graph, col: bool, v: int, a: int, b: int, e: int) -> nat
    decreases e,
{
    if e <= b + 1 || e <= 0 {
        0
    } else {
        k5_cnt3(g, col, v, a, b, e - 1) + k5_cnt4(g, col, v, a, b, e - 1, g.verts() as int)
    }
}

/// How many choices of the level-2 vertex below `e` complete a
/// monochromatic clique through `v`, given the earlier choices.
pub open spec fn k5_cnt2(g: &Graph, col: bool, v: int, a: int, e: int) -> nat
    decreases e,
{
    if e <= a + 1 || e <= 0 {
        0
    } else {
        k5_cnt2(g, col, v, a, e - 1) + k5_cnt3(g, col, v, a, e - 1, g.verts() as int)
    }
}

/// How many choices of the level-1 vertex below `e` complete a
/// monochromatic clique through `v`, given the earlier choices.
pub open spec fn k5_cnt1(g: &Graph, col: bool, v: int, e: int) -> nat
    decreases e,
{
    if e <= 0 || e <= 0 {
        0
    } else {
        k5_cnt1(g, col, v, e - 1) + k5_cnt2(g, col, v, e - 1, g.verts() as int)
    }
}

pub proof fn lemma_k5_cnt4_zero(g: &Graph, col: bool, v: int, a: int, b: int, c: int, e: int)
    requires
        forall|d: int| !#[trigger] k5_ok(g, col, v, a, b, c, d),
    ensures
        k5_cnt4(g, col, v, a, b, c, e) == 0,
    decreases e,
{
    if !(e <= c + 1 || e <= 0) {
        lemma_k5_cnt4_zero(g, col, v, a, b, c, e - 1);
    }
}

pub proof fn lemma_k5_cnt3_zero(g: &Graph, col: bool, v: int, a: int, b: int, e: int)
    requires
        forall|c: int, d: int| !#[trigger] k5_ok(g, col, v, a, b, c, d),
    ensures
        k5_cnt3(g, col, v, a, b, e) == 0,
    decreases e,
{
    if !(e <= b + 1 || e <= 0) {
        lemma_k5_cnt3_zero(g, col, v, a, b, e - 1);
        lemma_k5_cnt4_zero(g, col, v, a, b, e - 1, g.verts() as int);
    }
}

pub proof fn lemma_k5_cnt2_zero(g: &Graph, col: bool, v: int, a: int, e: int)
    requires
        forall|b: int, c: int, d: int| !#[trigger] k5_ok(g, col, v, a, b, c, d),
    ensures
        k5_cnt2(g, col, v, a, e) == 0,
    decreases e,
{
    if !(e <= a + 1 || e <= 0) {
        lemma_k5_cnt2_zero(g, col, v, a, e - 1);
        lemma_k5_cnt3_zero(g, col, v, a, e - 1, g.verts() as int);
    }
}

pub proof fn lemma_k5_cnt4_bound(g: &Graph, col: bool, v: int, a: int, b: int, c: int, e: int)
    requires
        g.verts() <= 64,
        e <= 64,
    ensures
        k5_cnt4(g, col, v, a, b, c, e) <= (if e <= 0 {
            0int
        } else {
            e
        }),
    decreases e,
{
    if !(e <= c + 1 || e <= 0) {
        lemma_k5_cnt4_bound(g, col, v, a, b, c, e - 1);
    }
}

pub proof fn lemma_k5_cnt3_bound(g: &Graph, col: bool, v: int, a: int, b: int, e: int)
    requires
        g.verts() <= 64,
        e <= 64,
    ensures
        k5_cnt3(g, col, v, a, b, e) <= (if e <= 0 {
            0int
        } else {
            e * 64
        }),
    decreases e,
{
    if !(e <= b + 1 || e <= 0) {
        lemma_k5_cnt3_bound(g, col, v, a, b, e - 1);
        lemma_k5_cnt4_bound(g, col, v, a, b, e - 1, g.verts() as int);
    }
}

pub proof fn lemma_k5_cnt2_bound(g: &Graph, col: bool, v: int, a: int, e: int)
    requires
        g.verts() <= 64,
        e <= 64,
    ensures
        k5_cnt2(g, col, v, a, e) <= (if e <= 0 {
            0int
        } else {
            e * 4096
        }),
    decreases e,
{
    if !(e <= a + 1 || e <= 0) {
        lemma_k5_cnt2_bound(g, col, v, a, e - 1);
        lemma_k5_cnt3_bound(g, col, v, a, e - 1, g.verts() as int);
    }
}

pub proof fn lemma_k5_cnt1_bound(g: &Graph, col: bool, v: int, e: int)
    requires
        g.verts() <= 64,
        e <= 64,
    ensures
        k5_cnt1(g, col, v, e) <= (if e <= 0 {
            0int
        } else {
            e * 262144
        }),
    decreases e,
{
    if !(e <= 0 || e <= 0) {
        lemma_k5_cnt1_bound(g, col, v, e - 1);
        lemma_k5_cnt2_bound(g, col, v, e - 1, g.verts() as int);
    }
}

/// `child` is the `k`-th one-vertex extension of `parent`: one more
/// vertex, the old edges kept bit for bit, and the new vertex adjacent to
/// exactly the old vertices whose bit is set in `k`.
pub open spec fn is_extension(parent: &Graph, child: Graph, k: int) -> bool {
    &&& child.wf()
    &&& child.num_verts == parent.num_verts + 1
    &&& forall|i: int, j: int|
        0 <= i < j < parent.num_verts ==> child.edge(i, j) == parent.edge(i, j)
    &&& forall|j: int|
        0 <= j < parent.num_verts ==> (child.edge(j, parent.num_verts as int) <==> ext_bit(k, j))
}

impl Graph {
    /// A graph on `n` vertices with every edge absent.
    pub fn new(n: usize) -> (r: Self)
        requires
            1 <= n <= 64,
        ensures
            r.wf(),
            r.num_verts == n,
            forall|i: int, j: int| 0 <= i < j < n ==> !r.edge(i, j),
    {
        proof {
            assert(n * (n - 1) <= 64 * 63) by (nonlinear_arith)
                requires
                    n <= 64,
            ;
            lemma_tri_mono(n as int, 64);
        }
        let num_edges = n * (n - 1) / 2;
        let mut e = BitVec::new();
        let mut t: usize = 0;
        while t < num_edges
            invariant
                t <= num_edges,
                num_edges == tri(n as int),
                num_edges <= tri(64),
                e.wf(),
                e.len == t,
                forall|b: int| 0 <= b < t ==> !e@[b],
            decreases num_edges - t,
        {
            e.push(false);
            t = t + 1;
        }
        let r = Graph { num_verts: n, edges: e };
        proof {
            assert forall|i: int, j: int| 0 <= i < j < n implies !r.edge(i, j) by {
                lemma_tri_index(i, j, n as int);
            }
        }
        r
    }

    /// Every one-vertex extension of this graph, in ascending order of the
    /// adjacency pattern of the new vertex.
    pub fn get_next_size(&self) -> (r: Vec<Graph>)
        requires
            self.wf(),
            self.num_verts <= 20,
        ensures
            r@.len() == pow2(self.num_verts as nat),
            forall|t: int| 0 <= t < r@.len() ==> is_extension(self, #[trigger] r@[t], t),
    {
        let nv = self.num_verts;
        proof {
            lemma2_to64();
            lemma_usize_shl_is_mul(1usize, nv);
        }
        let limit: usize = 1usize << nv;
        let mut r: Vec<Graph> = Vec::new();
        let mut k: usize = 0;
        while k < limit
            invariant
                self.wf(),
                nv == self.num_verts,
                nv <= 20,
                limit == pow2(nv as nat),
                r@.len() == k,
                k <= limit,
                forall|t: int| 0 <= t < k ==> is_extension(self, #[trigger] r@[t], t),
            decreases limit - k,
        {
            let mut g = self.clone();
            g.num_verts = nv + 1;
            let mut cur = k;
            proof {
                lemma2_to64();
                assert(cur as int == k as int / (pow2(0) as int));
                assert(g.edges@ =~= self.edges@ + Seq::new(0, |t: int| ext_bit(k as int, t)));
                lemma_tri_mono(nv as int, 20);
            }
            let mut j: usize = 0;
            while j < nv
                invariant
                    self.wf(),
                    nv == self.num_verts,
                    nv <= 20,
                    j <= nv,
                    g.num_verts == nv + 1,
                    g.edges.wf(),
                    g.edges.len == tri(nv as int) + j,
                    tri(nv as int) <= tri(20),
                    g.edges@ == self.edges@ + Seq::new(j as nat, |t: int| ext_bit(k as int, t)),
                    cur as int == k as int / (pow2(j as nat) as int),
                decreases nv - j,
            {
                let ghost pre = g.edges@;
                proof {
                    vstd::arithmetic::power2::lemma_pow2_pos(j as nat);
                }
                g.edges.push(cur % 2 == 1);
                proof {
                    assert((cur % 2 == 1) == ext_bit(k as int, j as int));
                    assert(g.edges@ =~= self.edges@ + Seq::new(
                        (j + 1) as nat,
                        |t: int| ext_bit(k as int, t),
                    ));
                    lemma_pow2_adds(j as nat, 1);
                    lemma2_to64();
                    lemma_div_denominator(k as int, pow2(j as nat) as int, 2);
                }
                cur = cur / 2;
                j = j + 1;
            }
            proof {
                lemma_tri_step(nv as int);
                assert(g.edges.len == tri(nv as int + 1));
                assert forall|i: int, j2: int| 0 <= i < j2 < nv implies g.edge(i, j2) == self.edge(
                    i,
                    j2,
                ) by {
                    lemma_tri_index(i, j2, nv as int);
                }
                assert forall|j2: int| 0 <= j2 < nv implies (g.edge(j2, nv as int) <==> ext_bit(
                    k as int,
                    j2,
                )) by {
                    if nv >= 1 {
                        lemma_tri_index(0, nv as int, nv as int + 1);
                    }
                    assert(g.edges@[tri(nv as int) + j2] == Seq::new(
                        nv as nat,
                        |t: int| ext_bit(k as int, t),
                    )[j2]);
                }
                assert(is_extension(self, g, k as int));
            }
            r.push(g);
            k = k + 1;
        }
        r
    }

    /// The catalog form of the packed edge bytes: standard base64, no
    /// padding.
    pub fn to_string(&self) -> (r: String)
        ensures
            r@ == b64_enc(self.edges.vec@),
    {
        b64_encode(&self.edges.vec)
    }

    /// Appends the catalog form of the packed edge bytes to `buf`.
    pub fn to_string_append(&self, buf: &mut String)
        ensures
            final(buf)@ == old(buf)@ + b64_enc(self.edges.vec@),
    {
        b64_encode_append(&self.edges.vec, buf)
    }

    /// Decodes a catalog string; the vertex count is supplied out of band
    /// and fixes the expected byte count.  Exactly the canonical unpadded
    /// encodings of a byte sequence of that count are accepted.
    pub fn from_str(s: &str, num_verts: usize) -> (r: Result<Graph, GraphParseError>)
        requires
            1 <= num_verts <= 64,
        ensures
            r matches Ok(g) ==> {
                &&& g.wf()
                &&& g.num_verts == num_verts
                &&& s@ == b64_enc(g.edges.vec@)
            },
            forall|b: Seq<u8>|
                (b.len() == (tri(num_verts as int) + 7) / 8 && s@ == b64_enc(b)
                    && !s.spec_bytes().contains(61u8)) ==> (r matches Ok(g) && g.edges.vec@ == b),
            (r matches Err(_)) <==> (s.spec_bytes().contains(61u8) || !(exists|b: Seq<u8>|
                b.len() == (tri(num_verts as int) + 7) / 8 && s@ == b64_enc(b))),
    {
        if contains_pad(s) {
            proof {
                assert forall|b: Seq<u8>|
                    !(b.len() == (tri(num_verts as int) + 7) / 8 && s@ == b64_enc(b)
                        && !s.spec_bytes().contains(61u8)) by {}
            }
            return Err(GraphParseError::BadBase64);
        }
        proof {
            assert(num_verts * (num_verts - 1) <= 64 * 63) by (nonlinear_arith)
                requires
                    num_verts <= 64,
            ;
            lemma_tri_mono(num_verts as int, 64);
        }
        let num_edges = num_verts * (num_verts - 1) / 2;
        let nbytes = (num_edges + 7) / 8;
        match b64_decode(s) {
            Ok(v) => {
                if v.len() != nbytes {
                    proof {
                        assert forall|b: Seq<u8>|
                            b.len() == (tri(num_verts as int) + 7) / 8 implies s@ != b64_enc(
                            b,
                        ) by {
                            if s@ == b64_enc(b) {
                                lemma_b64_enc_same_len(v@, b);
                            }
                        }
                    }
                    Err(GraphParseError::BadBase64)
                } else {
                    let g = Graph {
                        num_verts,
                        edges: BitVec { len: num_edges as u16, vec: v },
                    };
                    proof {
                        assert(g.wf());
                        assert forall|b: Seq<u8>|
                            (b.len() == (tri(num_verts as int) + 7) / 8 && s@ == b64_enc(b))
                            implies g.edges.vec@ == b by {
                            lemma_b64_enc_same_len(g.edges.vec@, b);
                        }
                    }
                    Ok(g)
                }
            },
            Err(_) => {
                proof {
                    assert forall|b: Seq<u8>|
                        b.len() == (tri(num_verts as int) + 7) / 8 implies s@ != b64_enc(b) by {}
                }
                Err(GraphParseError::BadBase64)
            },
        }
    }

    /// For each vertex, how many monochromatic triangles of
    /// colour `col` pass through it.
    pub fn label_k3s(&self, col: bool) -> (r: Vec<u32>)
        requires
            self.wf(),
        ensures
            r@.len() == self.num_verts,
            forall|v: int|
                0 <= v < self.num_verts ==> #[trigger] r@[v] == k3_cnt1(
                    self,
                    col,
                    v,
                    self.num_verts as int,
                ),
    {
        let nv = self.num_verts;
        let mut ans: Vec<u32> = Vec::new();
        let mut v: usize = 0;
        while v < nv
            invariant
                self.wf(),
                nv == self.num_verts,
                v <= nv,
                ans@.len() == v,
                forall|w: int| 0 <= w < v ==> #[trigger] ans@[w] == k3_cnt1(self, col, w, nv as int),
            decreases nv - v,
        {
            let mut count: u32 = 0;
            let mut a: usize = 0;
            while a < nv
                invariant
                    self.wf(),
                    nv == self.num_verts,
                    v < nv,
                    a <= nv,
                    count == k3_cnt1(self, col, v as int, a as int),
                decreases nv - a,
            {
                if a != v && self.get_edge(v, a) == col {
                    let mut b: usize = a + 1;
                    while b < nv
                        invariant
                            self.wf(),
                            nv == self.num_verts,
                            v < nv,
                            a < b,
                            b <= nv,
                            a < nv,
                            a != v,
                            self.edge(v as int, a as int) == col,
                            count == k3_cnt1(self, col, v as int, a as int) + k3_cnt2(self, col, v as int, a as int, b as int),
                        decreases nv - b,
                    {
                        if b != v && self.get_edge(v, b) == col && self.get_edge(a, b) == col {
                            proof {
                                assert(k3_ok(self, col, v as int, a as int, b as int));
                                lemma_k3_cnt1_bound(self, col, v as int, a as int);
                                lemma_k3_cnt2_bound(self, col, v as int, a as int, b as int);
                            }
                            count = count + 1;
                        } else {
                            proof {
                                assert(!k3_ok(self, col, v as int, a as int, b as int));
                            }
                        }
                        b = b + 1;
                    }
                } else {
                    proof {
                        assert forall|b: int| !#[trigger] k3_ok(self, col, v as int, a as int, b) by {}
                        lemma_k3_cnt2_zero(self, col, v as int, a as int, nv as int);
                    }
                }
                a = a + 1;
            }
            ans.push(count);
            v = v + 1;
        }
        ans
    }

    /// For each vertex, how many monochromatic complete four-cliques of
    /// colour `col` pass through it.
    pub fn label_k4s(&self, col: bool) -> (r: Vec<u32>)
        requires
            self.wf(),
        ensures
            r@.len() == self.num_verts,
            forall|v: int|
                0 <= v < self.num_verts ==> #[trigger] r@[v] == k4_cnt1(
                    self,
                    col,
                    v,
                    self.num_verts as int,
                ),
    {
        let nv = self.num_verts;
        let mut ans: Vec<u32> = Vec::new();
        let mut v: usize = 0;
        while v < nv
            invariant
                self.wf(),
                nv == self.num_verts,
                v <= nv,
                ans@.len() == v,
                forall|w: int| 0 <= w < v ==> #[trigger] ans@[w] == k4_cnt1(self, col, w, nv as int),
            decreases nv - v,
        {
            let mut count: u32 = 0;
            let mut a: usize = 0;
            while a < nv
                invariant
                    self.wf(),
                    nv == self.num_verts,
                    v < nv,
                    a <= nv,
                    count == k4_cnt1(self, col, v as int, a as int),
                decreases nv - a,
            {
                if a != v && self.get_edge(v, a) == col {
                    let mut b: usize = a + 1;
                    while b < nv
                        invariant
                            self.wf(),
                            nv == self.num_verts,
                            v < nv,
                            a < b,
                            b <= nv,
                            a < nv,
                            a != v,
                            self.edge(v as int, a as int) == col,
                            count == k4_cnt1(self, col, v as int, a as int) + k4_cnt2(self, col, v as int, a as int, b as int),
                        decreases nv - b,
                    {
                        if b != v && self.get_edge(v, b) == col && self.get_edge(a, b) == col {
                            let mut c: usize = b + 1;
                            while c < nv
                                invariant
                                    self.wf(),
                                    nv == self.num_verts,
                                    v < nv,
                                    a < b < c,
                                    c <= nv,
                                    a < nv,
                                    b < nv,
                                    a != v,
                                    self.edge(v as int, a as int) == col,
                                    b != v,
                                    self.edge(v as int, b as int) == col,
                                    self.edge(a as int, b as int) == col,
                                    count == k4_cnt1(self, col, v as int, a as int) + k4_cnt2(self, col, v as int, a as int, b as int) + k4_cnt3(self, col, v as int, a as int, b as int, c as int),
                                decreases nv - c,
                            {
                                if c != v && self.get_edge(v, c) == col && self.get_edge(a, c) == col && self.get_edge(b, c) == col {
                                    proof {
                                        assert(k4_ok(self, col, v as int, a as int, b as int, c as int));
                                        lemma_k4_cnt1_bound(self, col, v as int, a as int);
                                        lemma_k4_cnt2_bound(self, col, v as int, a as int, b as int);
                                        lemma_k4_cnt3_bound(self, col, v as int, a as int, b as int, c as int);
                                    }
                                    count = count + 1;
                                } else {
                                    proof {
                                        assert(!k4_ok(self, col, v as int, a as int, b as int, c as int));
                                    }
                                }
                                c = c + 1;
                            }
                        } else {
                            proof {
                                assert forall|c: int| !#[trigger] k4_ok(self, col, v as int, a as int, b as int, c) by {}
                                lemma_k4_cnt3_zero(self, col, v as int, a as int, b as int, nv as int);
                            }
                        }
                        b = b + 1;
                    }
                } else {
                    proof {
                        assert forall|b: int, c: int| !#[trigger] k4_ok(self, col, v as int, a as int, b, c) by {}
                        lemma_k4_cnt2_zero(self, col, v as int, a as int, nv as int);
                    }
                }
                a = a + 1;
            }
            ans.push(count);
            v = v + 1;
        }
        ans
    }

    /// For each vertex, how many monochromatic complete five-cliques of
    /// colour `col` pass through it.
    pub fn label_k5s(&self, col: bool) -> (r: Vec<u32>)
        requires
            self.wf(),
        ensures
            r@.len() == self.num_verts,
            forall|v: int|
                0 <= v < self.num_verts ==> #[trigger] r@[v] == k5_cnt1(
                    self,
                    col,
                    v,
                    self.num_verts as int,
                ),
    {
        let nv = self.num_verts;
        let mut ans: Vec<u32> = Vec::new();
        let mut v: usize = 0;
        while v < nv
            invariant
                self.wf(),
                nv == self.num_verts,
                v <= nv,
                ans@.len() == v,
                forall|w: int| 0 <= w < v ==> #[trigger] ans@[w] == k5_cnt1(self, col, w, nv as int),
            decreases nv - v,
        {
            let mut count: u32 = 0;
            let mut a: usize = 0;
            while a < nv
                invariant
                    self.wf(),
                    nv == self.num_verts,
                    v < nv,
                    a <= nv,
                    count == k5_cnt1(self, col, v as int, a as int),
                decreases nv - a,
            {
                if a != v && self.get_edge(v, a) == col {
                    let mut b: usize = a + 1;
                    while b < nv
                        invariant
                            self.wf(),
                            nv == self.num_verts,
                            v < nv,
                            a < b,
                            b <= nv,
                            a < nv,
                            a != v,
                            self.edge(v as int, a as int) == col,
                            count == k5_cnt1(self, col, v as int, a as int) + k5_cnt2(self, col, v as int, a as int, b as int),
                        decreases nv - b,
                    {
                        if b != v && self.get_edge(v, b) == col && self.get_edge(a, b) == col {
                            let mut c: usize = b + 1;
                            while c < nv
                                invariant
                                    self.wf(),
                                    nv == self.num_verts,
                                    v < nv,
                                    a < b < c,
                                    c <= nv,
                                    a < nv,
                                    b < nv,
                                    a != v,
                                    self.edge(v as int, a as int) == col,
                                    b != v,
                                    self.edge(v as int, b as int) == col,
                                    self.edge(a as int, b as int) == col,
                                    count == k5_cnt1(self, col, v as int, a as int) + k5_cnt2(self, col, v as int, a as int, b as int) + k5_cnt3(self, col, v as int, a as int, b as int, c as int),
                                decreases nv - c,
                            {
                                if c != v && self.get_edge(v, c) == col && self.get_edge(a, c) == col && self.get_edge(b, c) == col {
                                    let mut d: usize = c + 1;
                                    while d < nv
                                        invariant
                                            self.wf(),
                                            nv == self.num_verts,
                                            v < nv,
                                            a < b < c < d,
                                            d <= nv,
                                            a < nv,
                                            b < nv,
                                            c < nv,
                                            a != v,
                                            self.edge(v as int, a as int) == col,
                                            b != v,
                                            self.edge(v as int, b as int) == col,
                                            c != v,
                                            self.edge(v as int, c as int) == col,
                                            self.edge(a as int, b as int) == col,
                                            self.edge(a as int, c as int) == col,
                                            self.edge(b as int, c as int) == col,
                                            count == k5_cnt1(self, col, v as int, a as int) + k5_cnt2(self, col, v as int, a as int, b as int) + k5_cnt3(self, col, v as int, a as int, b as int, c as int) + k5_cnt4(self, col, v as int, a as int, b as int, c as int, d as int),
                                        decreases nv - d,
                                    {
                                        if d != v && self.get_edge(v, d) == col && self.get_edge(a, d) == col && self.get_edge(b, d) == col && self.get_edge(c, d) == col {
                                            proof {
                                                assert(k5_ok(self, col, v as int, a as int, b as int, c as int, d as int));
                                                lemma_k5_cnt1_bound(self, col, v as int, a as int);
                                                lemma_k5_cnt2_bound(self, col, v as int, a as int, b as int);
                                                lemma_k5_cnt3_bound(self, col, v as int, a as int, b as int, c as int);
                                                lemma_k5_cnt4_bound(self, col, v as int, a as int, b as int, c as int, d as int);
                                            }
                                            count = count + 1;
                                        } else {
                                            proof {
                                                assert(!k5_ok(self, col, v as int, a as int, b as int, c as int, d as int));
                                            }
                                        }
                                        d = d + 1;
                                    }
                                } else {
                                    proof {
                                        assert forall|d: int| !#[trigger] k5_ok(self, col, v as int, a as int, b as int, c as int, d) by {}
                                        lemma_k5_cnt4_zero(self, col, v as int, a as int, b as int, c as int, nv as int);
                                    }
                                }
                                c = c + 1;
                            }
                        } else {
                            proof {
                                assert forall|c: int, d: int| !#[trigger] k5_ok(self, col, v as int, a as int, b as int, c, d) by {}
                                lemma_k5_cnt3_zero(self, col, v as int, a as int, b as int, nv as int);
                            }
                        }
                        b = b + 1;
                    }
                } else {
                    proof {
                        assert forall|b: int, c: int, d: int| !#[trigger] k5_ok(self, col, v as int, a as int, b, c, d) by {}
                        lemma_k5_cnt2_zero(self, col, v as int, a as int, nv as int);
                    }
                }
                a = a + 1;
            }
            ans.push(count);
            v = v + 1;
        }
        ans
    }
}

} // verus!
