//! A byte-per-edge graph: the same lower-triangle layout as the
//! bit-packed store, held as one boolean per edge.  It shares the clique
//! queries through the graph capability and carries its own, simpler,
//! labeling formula.

use vstd::prelude::*;
use vstd::arithmetic::power2::{pow2, lemma_pow2_adds, lemma_pow2_pos, lemma2_to64};
use vstd::arithmetic::div_mod::lemma_div_denominator;
use vstd::bits::{lemma_usize_shl_is_mul, lemma_u32_shl_is_mul};
use crate::graph::{tri, lemma_tri_step, lemma_tri_mono, lemma_tri_index, ext_bit, k3_cnt1,
    lemma_k3_cnt1_bound};
use crate::graph_like::GraphLike;

verus! {

#[derive(Debug)]
pub struct Graph {
    pub num_verts: usize,
    pub edges: Vec<bool>,
}

impl Clone for Graph {
    fn clone(&self) -> (r: Self)
        ensures
            r.num_verts == self.num_verts,
            r.edges@ == self.edges@,
    {
        let e = self.edges.clone();
        proof {
            assert(e@ =~= self.edges@);
        }
        Graph { num_verts: self.num_verts, edges: e }
    }
}

impl GraphLike for Graph {
    open spec fn verts(&self) -> nat {
        self.num_verts as nat
    }

    open spec fn edge(&self, i: int, j: int) -> bool {
        if i < j {
            self.edges@[tri(j) + i]
        } else {
            self.edges@[tri(i) + j]
        }
    }

    open spec fn wf(&self) -> bool {
        &&& 1 <= self.num_verts <= 64
        &&& self.edges@.len() == tri(self.num_verts as int)
    }

    fn num_verts(&self) -> (r: usize) {
        self.num_verts
    }

    fn get_edge(&self, n: usize, m: usize) -> (r: bool) {
        let n1 = if m < n {
            m
        } else {
            n
        };
        let m1 = if m < n {
            n
        } else {
            m
        };
        proof {
            assert(m1 * m1 - m1 == m1 * (m1 - 1) && m1 * m1 <= 64 * 64) by (nonlinear_arith)
                requires
                    0 <= m1 < 64,
            ;
            lemma_tri_index(n1 as int, m1 as int, self.num_verts as int);
        }
        self.edges[(m1 * m1 - m1) / 2 + n1]
    }
}

/// The spec-level edge relation is symmetric in its two arguments.
pub proof fn lemma_edge_symmetry_vec(g: &Graph, i: int, j: int)
    requires
        i != j,
    ensures
        g.edge(i, j) == g.edge(j, i),
{
}

/// `child` is the `k`-th one-vertex extension of `parent`.
pub open spec fn is_extension(parent: &Graph, child: Graph, k: int) -> bool {
    &&& child.wf()
    &&& child.num_verts == parent.num_verts + 1
    &&& forall|i: int, j: int|
        0 <= i < j < parent.num_verts ==> child.edge(i, j) == parent.edge(i, j)
    &&& forall|j: int|
        0 <= j < parent.num_verts ==> (child.edge(j, parent.num_verts as int) <==> ext_bit(k, j))
}

/// The weighted degree of `v`: the sum of the degrees of its neighbours
/// below `e`.
pub open spec fn wdeg_upto(g: &Graph, v: int, e: int) -> nat
    decreases e,
{
    if e <= 0 {
        0
    } else {
        wdeg_upto(g, v, e - 1) + (if e - 1 != v && g.edge(v, e - 1) {
            crate::graph_like::deg(g, e - 1)
        } else {
            0nat
        })
    }
}

pub proof fn lemma_wdeg_upto_bound(g: &Graph, v: int, e: int)
    requires
        g.verts() <= 64,
    ensures
        wdeg_upto(g, v, e) <= (if e <= 0 {
            0int
        } else {
            e * 64
        }),
    decreases e,
{
    if e > 0 {
        lemma_wdeg_upto_bound(g, v, e - 1);
        crate::graph_like::lemma_deg_upto_bound(g, e - 1, g.verts() as int);
    }
}

/// The packed label of a vertex: a set high bit, then the degree, the
/// weighted degree and the triangle count in separate bit fields.
pub open spec fn packed_label(g: &Graph, v: int) -> u32 {
    ((0x80000000 + crate::graph_like::deg(g, v) * 0x100000 + wdeg_upto(g, v, g.verts() as int)
        * 0x100 + k3_cnt1(g, true, v, g.verts() as int)) as u32)
}

/// What this representation's labeling engine assigns to each vertex.
pub open spec fn label_formula(g: &Graph) -> Seq<u32> {
    if g.verts() < 2 {
        seq![0u32]
    } else {
        Seq::new(g.verts(), |v: int| packed_label(g, v))
    }
}

impl Graph {
    /// A graph on `n` vertices with every edge absent.
    pub fn new(n: usize) -> (r: Self)
        requires
            1 <= n <= 64,
        ensures
            r.wf(),
            r.num_verts == n,
            forall|i: int, j: int| 0 <= i < j < n ==> !r.edge(i, j),
    {
        proof {
            assert(n * (n - 1) <= 64 * 63) by (nonlinear_arith)
                requires
                    n <= 64,
            ;
        }
        let num_edges = n * (n - 1) / 2;
        let mut e: Vec<bool> = Vec::new();
        let mut t: usize = 0;
        while t < num_edges
            invariant
                t <= num_edges,
                e@.len() == t,
                forall|b: int| 0 <= b < t ==> !e@[b],
            decreases num_edges - t,
        {
            e.push(false);
            t = t + 1;
        }
        let r = Graph { num_verts: n, edges: e };
        proof {
            assert forall|i: int, j: int| 0 <= i < j < n implies !r.edge(i, j) by {
                lemma_tri_index(i, j, n as int);
            }
        }
        r
    }

    /// Every one-vertex extension of this graph, in ascending order of
    /// the adjacency pattern of the new vertex.
    pub fn get_next_size(&self) -> (r: Vec<Graph>)
        requires
            self.wf(),
            self.num_verts <= 20,
        ensures
            r@.len() == pow2(self.num_verts as nat),
            forall|t: int| 0 <= t < r@.len() ==> is_extension(self, #[trigger] r@[t], t),
    {
        let nv = self.num_verts;
        proof {
            lemma2_to64();
            lemma_usize_shl_is_mul(1usize, nv);
        }
        let limit: usize = 1usize << nv;
        let mut r: Vec<Graph> = Vec::new();
        let mut k: usize = 0;
        while k < limit
            invariant
                self.wf(),
                nv == self.num_verts,
                nv <= 20,
                limit == pow2(nv as nat),
                r@.len() == k,
                k <= limit,
                forall|t: int| 0 <= t < k ==> is_extension(self, #[trigger] r@[t], t),
            decreases limit - k,
        {
            let mut g = self.clone();
            g.num_verts = nv + 1;
            let mut cur = k;
            proof {
                lemma2_to64();
                assert(cur as int == k as int / (pow2(0) as int));
                assert(g.edges@ =~= self.edges@ + Seq::new(0, |t: int| ext_bit(k as int, t)));
            }
            let mut j: usize = 0;
            while j < nv
                invariant
                    self.wf(),
                    nv == self.num_verts,
                    nv <= 20,
                    j <= nv,
                    g.num_verts == nv + 1,
                    g.edges@.len() == tri(nv as int) + j,
                    g.edges@ == self.edges@ + Seq::new(j as nat, |t: int| ext_bit(k as int, t)),
                    cur as int == k as int / (pow2(j as nat) as int),
                decreases nv - j,
            {
                proof {
                    lemma_pow2_pos(j as nat);
                }
                g.edges.push(cur % 2 == 1);
                proof {
                    assert((cur % 2 == 1) == ext_bit(k as int, j as int));
                    assert(g.edges@ =~= self.edges@ + Seq::new(
                        (j + 1) as nat,
                        |t: int| ext_bit(k as int, t),
                    ));
                    lemma_pow2_adds(j as nat, 1);
                    lemma2_to64();
                    lemma_div_denominator(k as int, pow2(j as nat) as int, 2);
                }
                cur = cur / 2;
                j = j + 1;
            }
            proof {
                lemma_tri_step(nv as int);
                assert forall|i: int, j2: int| 0 <= i < j2 < nv implies g.edge(i, j2) == self.edge(
                    i,
                    j2,
                ) by {
                    lemma_tri_index(i, j2, nv as int);
                }
                assert forall|j2: int| 0 <= j2 < nv implies (g.edge(j2, nv as int) <==> ext_bit(
                    k as int,
                    j2,
                )) by {
                    if nv >= 1 {
                        lemma_tri_index(0, nv as int, nv as int + 1);
                    }
                    assert(g.edges@[tri(nv as int) + j2] == Seq::new(
                        nv as nat,
                        |t: int| ext_bit(k as int, t),
                    )[j2]);
                }
                assert(is_extension(self, g, k as int));
            }
            r.push(g);
            k = k + 1;
        }
        r
    }

    /// The degree of each vertex.
    pub fn label_neighbors(&self) -> (r: Vec<u32>)
        requires
            self.wf(),
        ensures
            r@.len() == self.num_verts,
            forall|v: int|
                0 <= v < self.num_verts ==> #[trigger] r@[v] as nat == crate::graph_like::deg(
                    self,
                    v,
                ),
    {
        let nv = self.num_verts;
        let mut l: Vec<u32> = Vec::new();
        let mut v: usize = 0;
        while v < nv
            invariant
                self.wf(),
                nv == self.num_verts,
                v <= nv,
                l@.len() == v,
                forall|w: int|
                    0 <= w < v ==> #[trigger] l@[w] as nat == crate::graph_like::deg(self, w),
            decreases nv - v,
        {
            let mut k: u32 = 0;
            let mut j: usize = 0;
            while j < nv
                invariant
                    self.wf(),
                    nv == self.num_verts,
                    v < nv,
                    j <= nv,
                    k as nat == crate::graph_like::deg_upto(self, v as int, j as int),
                decreases nv - j,
            {
                if j != v {
                    if self.get_edge(v, j) {
                        proof {
                            crate::graph_like::lemma_deg_upto_bound(self, v as int, j as int);
                        }
                        k = k + 1;
                    }
                }
                j = j + 1;
            }
            l.push(k);
            v = v + 1;
        }
        l
    }

    /// For each vertex, how many triangles of present edges pass through
    /// it.
    pub fn label_k3s(&self) -> (r: Vec<u32>)
        requires
            self.wf(),
        ensures
            r@.len() == self.num_verts,
            forall|v: int|
                0 <= v < self.num_verts ==> #[trigger] r@[v] == k3_cnt1(
                    self,
                    true,
                    v,
                    self.num_verts as int,
                ),
    {
        let nv = self.num_verts;
        let mut ans: Vec<u32> = Vec::new();
        let mut v: usize = 0;
        while v < nv
            invariant
                self.wf(),
                nv == self.num_verts,
                v <= nv,
                ans@.len() == v,
                forall|w: int|
                    0 <= w < v ==> #[trigger] ans@[w] == k3_cnt1(self, true, w, nv as int),
            decreases nv - v,
        {
            let mut count: u32 = 0;
            let mut a: usize = 0;
            while a < nv
                invariant
                    self.wf(),
                    nv == self.num_verts,
                    v < nv,
                    a <= nv,
                    count == k3_cnt1(self, true, v as int, a as int),
                decreases nv - a,
            {
                if a != v && self.get_edge(v, a) {
                    let mut b: usize = a + 1;
                    while b < nv
                        invariant
                            self.wf(),
                            nv == self.num_verts,
                            v < nv,
                            a < b <= nv,
                            a < nv,
                            a != v,
                            self.edge(v as int, a as int),
                            count == k3_cnt1(self, true, v as int, a as int) + crate::graph::k3_cnt2(
                                self,
                                true,
                                v as int,
                                a as int,
                                b as int,
                            ),
                        decreases nv - b,
                    {
                        if b != v && self.get_edge(v, b) && self.get_edge(a, b) {
                            proof {
                                assert(crate::graph::k3_ok(
                                    self,
                                    true,
                                    v as int,
                                    a as int,
                                    b as int,
                                ));
                                lemma_k3_cnt1_bound(self, true, v as int, a as int);
                                crate::graph::lemma_k3_cnt2_bound(
                                    self,
                                    true,
                                    v as int,
                                    a as int,
                                    b as int,
                                );
                            }
                            count = count + 1;
                        } else {
                            proof {
                                assert(!crate::graph::k3_ok(
                                    self,
                                    true,
                                    v as int,
                                    a as int,
                                    b as int,
                                ));
                            }
                        }
                        b = b + 1;
                    }
                } else {
                    proof {
                        assert forall|b: int| !#[trigger] crate::graph::k3_ok(
                            self,
                            true,
                            v as int,
                            a as int,
                            b,
                        ) by {}
                        crate::graph::lemma_k3_cnt2_zero(
                            self,
                            true,
                            v as int,
                            a as int,
                            nv as int,
                        );
                    }
                }
                a = a + 1;
            }
            ans.push(count);
            v = v + 1;
        }
        ans
    }

    /// The packed label of each vertex: a set high bit, then the degree,
    /// the weighted degree and the triangle count in separate bit
    /// fields.  Graphs on fewer than two vertices get the single label
    /// zero.
    pub fn label(&self) -> (r: Vec<u32>)
        requires
            self.wf(),
        ensures
            r@ == label_formula(self),
    {
        if self.num_verts < 2 {
            let mut r: Vec<u32> = Vec::new();
            r.push(0);
            proof {
                assert(r@ =~= seq![0u32]);
            }
            return r;
        }
        let nv = self.num_verts;
        let l = self.label_neighbors();
        let t = self.label_k3s();
        let mut m: Vec<u32> = Vec::new();
        let mut v: usize = 0;
        while v < nv
            invariant
                self.wf(),
                nv == self.num_verts,
                v <= nv,
                l@.len() == nv,
                forall|w: int|
                    0 <= w < nv ==> #[trigger] l@[w] as nat == crate::graph_like::deg(self, w),
                m@.len() == v,
                forall|w: int|
                    0 <= w < v ==> #[trigger] m@[w] as nat == wdeg_upto(self, w, nv as int),
            decreases nv - v,
        {
            let mut k: u32 = 0;
            let mut j: usize = 0;
            while j < nv
                invariant
                    self.wf(),
                    nv == self.num_verts,
                    v < nv,
                    j <= nv,
                    l@.len() == nv,
                    forall|w: int|
                        0 <= w < nv ==> #[trigger] l@[w] as nat == crate::graph_like::deg(self, w),
                    k as nat == wdeg_upto(self, v as int, j as int),
                decreases nv - j,
            {
                if j != v {
                    if self.get_edge(v, j) {
                        proof {
                            lemma_wdeg_upto_bound(self, v as int, j as int);
                            crate::graph_like::lemma_deg_upto_bound(
                                self,
                                j as int,
                                self.verts() as int,
                            );
                        }
                        k = k + l[j];
                    }
                }
                j = j + 1;
            }
            m.push(k);
            v = v + 1;
        }
        let mut n: Vec<u32> = Vec::new();
        let mut i: usize = 0;
        while i < nv
            invariant
                self.wf(),
                nv == self.num_verts,
                2 <= nv,
                i <= nv,
                l@.len() == nv,
                t@.len() == nv,
                m@.len() == nv,
                forall|w: int|
                    0 <= w < nv ==> #[trigger] l@[w] as nat == crate::graph_like::deg(self, w),
                forall|w: int|
                    0 <= w < nv ==> #[trigger] m@[w] as nat == wdeg_upto(self, w, nv as int),
                forall|w: int| 0 <= w < nv ==> #[trigger] t@[w] == k3_cnt1(self, true, w, nv as int),
                n@.len() == i,
                forall|w: int| 0 <= w < i ==> #[trigger] n@[w] == packed_label(self, w),
            decreases nv - i,
        {
            let x = l[i];
            let y = m[i];
            let z = t[i];
            proof {
                crate::graph_like::lemma_deg_upto_bound(self, i as int, self.verts() as int);
                lemma_wdeg_upto_bound(self, i as int, self.verts() as int);
                lemma_k3_cnt1_bound(self, true, i as int, self.verts() as int);
                lemma2_to64();
                lemma_u32_shl_is_mul(x, 20);
                lemma_u32_shl_is_mul(y, 8);
                lemma_u32_shl_is_mul(1u32, 31);
            }
            let packed = (1u32 << 31) + (x << 20) + (y << 8) + z;
            n.push(packed);
            i = i + 1;
        }
        proof {
            assert(n@ =~= label_formula(self));
        }
        n
    }
}

} // verus!
