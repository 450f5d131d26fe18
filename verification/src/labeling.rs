//! The vertex-labeling engine: per-vertex signatures combining the
//! degree, a shortest-polygon histogram, and one pass of neighbourhood
//! convolution.  The signatures are hashes of data that depend only on
//! the graph up to isomorphism, never on vertex order.

use vstd::prelude::*;
use crate::graph::Graph;
use crate::graph_like::{GraphLike, deg, deg_upto, lemma_deg_upto_bound};
use crate::hashing::{hash2, hash2_spec, hash_words, hash_words_spec, hash_label_pairs,
    hash_label_pairs_spec};
use crate::sorting::{sort_pairs, pair_leq};

verus! {

/// Vertices reachable from `left` within `d` waves of expansion, never
/// entering `root` or `right`.
pub open spec fn poly_reach(g: &Graph, root: int, left: int, right: int, d: nat) -> Set<int>
    decreases d,
{
    if d == 0 {
        Set::empty()
    } else if d == 1 {
        Set::empty().insert(left)
    } else {
        let prev = poly_reach(g, root, left, right, (d - 1) as nat);
        prev.union(
            Set::new(
                |x: int|
                    0 <= x < g.verts() && x != root && x != right && exists|y: int|
                        #[trigger] prev.contains(y) && y != x && g.edge(y, x),
            ),
        )
    }
}

/// Some vertex within `d` waves of `left` is adjacent to `right`: the
/// polygon through `root`, `left` and `right` closes after `d` hops.
pub open spec fn poly_hit(g: &Graph, root: int, left: int, right: int, d: nat) -> bool {
    exists|y: int| #[trigger] poly_reach(g, root, left, right, d).contains(y) && g.edge(y, right)
}

/// The smallest wave count in `[d, verts)` at which the polygon closes,
/// or zero when it never does.
pub open spec fn poly_first_hit(g: &Graph, root: int, left: int, right: int, d: nat) -> nat
    decreases g.verts() - d,
{
    if d >= g.verts() {
        0
    } else if poly_hit(g, root, left, right, d) {
        d
    } else {
        poly_first_hit(g, root, left, right, d + 1)
    }
}

pub proof fn lemma_first_hit_found(g: &Graph, root: int, left: int, right: int, lo: nat, d: nat)
    requires
        lo <= d < g.verts(),
        poly_hit(g, root, left, right, d),
        forall|e: nat| lo <= e < d ==> !#[trigger] poly_hit(g, root, left, right, e),
    ensures
        poly_first_hit(g, root, left, right, lo) == d,
    decreases d - lo,
{
    if lo < d {
        lemma_first_hit_found(g, root, left, right, (lo + 1) as nat, d);
    }
}

pub proof fn lemma_first_hit_none(g: &Graph, root: int, left: int, right: int, lo: nat)
    requires
        forall|e: nat| lo <= e < g.verts() ==> !#[trigger] poly_hit(g, root, left, right, e),
    ensures
        poly_first_hit(g, root, left, right, lo) == 0,
    decreases g.verts() - lo,
{
    if lo < g.verts() {
        lemma_first_hit_none(g, root, left, right, (lo + 1) as nat);
    }
}

pub proof fn lemma_first_hit_small(g: &Graph, root: int, left: int, right: int, d: nat)
    requires
        g.verts() >= 1,
    ensures
        poly_first_hit(g, root, left, right, d) < g.verts(),
    decreases g.verts() - d,
{
    if d < g.verts() && !poly_hit(g, root, left, right, d) {
        lemma_first_hit_small(g, root, left, right, (d + 1) as nat);
    }
}

/// The pair `(left, right)` is counted for `root`: two distinct
/// neighbours of `root`, taken in increasing order.
pub open spec fn poly_pair_ok(g: &Graph, root: int, left: int, right: int) -> bool {
    &&& 0 <= left < right < g.verts()
    &&& 0 <= root < g.verts()
    &&& left != root
    &&& right != root
    &&& g.edge(root, left)
    &&& g.edge(root, right)
}

/// The histogram slot a counted pair lands in: the wave count at which
/// its polygon closes, or slot zero when it never closes.
pub open spec fn poly_slot(g: &Graph, root: int, left: int, right: int) -> nat {
    poly_first_hit(g, root, left, right, 1)
}

pub open spec fn zero_histo(n: nat) -> Seq<nat> {
    Seq::new(n, |i: int| 0nat)
}

/// The histogram after also counting the pairs `(left, right')` with
/// `right' < r`, starting from `base`.
pub open spec fn poly_histo_row(g: &Graph, root: int, left: int, r: int, base: Seq<nat>) -> Seq<
    nat,
>
    decreases r,
{
    if r <= left + 1 || r <= 0 {
        base
    } else {
        let prev = poly_histo_row(g, root, left, r - 1, base);
        if poly_pair_ok(g, root, left, r - 1) {
            let s = poly_slot(g, root, left, r - 1) as int;
            prev.update(s, prev[s] + 1)
        } else {
            prev
        }
    }
}

/// The histogram after counting every pair whose smaller member is below
/// `l`.
pub open spec fn poly_histo_rows(g: &Graph, root: int, l: int) -> Seq<nat>
    decreases l,
{
    if l <= 0 {
        zero_histo(g.verts())
    } else {
        poly_histo_row(g, root, l - 1, g.verts() as int, poly_histo_rows(g, root, l - 1))
    }
}

/// The complete shortest-polygon histogram of `root`.
pub open spec fn poly_histo(g: &Graph, root: int) -> Seq<nat> {
    poly_histo_rows(g, root, g.verts() as int - 1)
}

pub proof fn lemma_histo_row_len(g: &Graph, root: int, left: int, r: int, base: Seq<nat>)
    requires
        g.verts() >= 1,
        base.len() == g.verts(),
    ensures
        poly_histo_row(g, root, left, r, base).len() == base.len(),
    decreases r,
{
    if !(r <= left + 1 || r <= 0) {
        lemma_histo_row_len(g, root, left, r - 1, base);
        if poly_pair_ok(g, root, left, r - 1) {
            lemma_first_hit_small(g, root, left, r - 1, 1);
        }
    }
}

pub proof fn lemma_histo_row_bound(g: &Graph, root: int, left: int, r: int, base: Seq<nat>)
    requires
        g.verts() >= 1,
        base.len() == g.verts(),
    ensures
        forall|s: int|
            0 <= s < base.len() ==> #[trigger] poly_histo_row(g, root, left, r, base)[s] <= base[s]
                + (if r <= 0 {
                0int
            } else {
                r
            }),
    decreases r,
{
    lemma_histo_row_len(g, root, left, r, base);
    if !(r <= left + 1 || r <= 0) {
        lemma_histo_row_bound(g, root, left, r - 1, base);
        lemma_histo_row_len(g, root, left, r - 1, base);
        if poly_pair_ok(g, root, left, r - 1) {
            lemma_first_hit_small(g, root, left, r - 1, 1);
        }
    }
}

pub proof fn lemma_histo_rows_len(g: &Graph, root: int, l: int)
    requires
        g.verts() >= 1,
    ensures
        poly_histo_rows(g, root, l).len() == g.verts(),
    decreases l,
{
    if l > 0 {
        lemma_histo_rows_len(g, root, l - 1);
        lemma_histo_row_len(g, root, l - 1, g.verts() as int, poly_histo_rows(g, root, l - 1));
    }
}

pub proof fn lemma_histo_rows_bound(g: &Graph, root: int, l: int)
    requires
        g.verts() >= 1,
        g.verts() <= 64,
        l <= 64,
    ensures
        forall|s: int|
            0 <= s < g.verts() ==> #[trigger] poly_histo_rows(g, root, l)[s] <= (if l <= 0 {
                0int
            } else {
                l * 64
            }),
    decreases l,
{
    lemma_histo_rows_len(g, root, l);
    if l > 0 {
        lemma_histo_rows_bound(g, root, l - 1);
        lemma_histo_rows_len(g, root, l - 1);
        lemma_histo_row_bound(g, root, l - 1, g.verts() as int, poly_histo_rows(g, root, l - 1));
    }
}

/// A row of a vertex that is not a neighbour of `root` counts nothing.
pub proof fn lemma_histo_row_skip(g: &Graph, root: int, left: int, r: int, base: Seq<nat>)
    requires
        forall|r2: int| !#[trigger] poly_pair_ok(g, root, left, r2),
    ensures
        poly_histo_row(g, root, left, r, base) == base,
    decreases r,
{
    if !(r <= left + 1 || r <= 0) {
        lemma_histo_row_skip(g, root, left, r - 1, base);
    }
}

/// The polygon signature of `root`: a hash of its histogram; graphs too
/// small to hold a polygon get signature zero.
pub open spec fn poly_sig(g: &Graph, root: int) -> u32 {
    if g.verts() < 3 {
        0u32
    } else {
        hash_words_spec(Seq::new(g.verts(), |s: int| poly_histo(g, root)[s] as u32))
    }
}

/// Vertices reachable from `v` within `d` waves of expansion.
pub open spec fn conv_reach(g: &Graph, v: int, d: nat) -> Set<int>
    decreases d,
{
    if d == 0 {
        Set::empty().insert(v)
    } else {
        let prev = conv_reach(g, v, (d - 1) as nat);
        prev.union(
            Set::new(
                |x: int|
                    0 <= x < g.verts() && exists|y: int|
                        #[trigger] prev.contains(y) && y != x && g.edge(y, x),
            ),
        )
    }
}

/// Vertex `x` is first discovered in wave `d` of the expansion from `v`.
pub open spec fn in_ring(g: &Graph, v: int, d: nat, x: int) -> bool {
    conv_reach(g, v, d).contains(x) && !conv_reach(g, v, (d - 1) as nat).contains(x)
}

/// The evidence pairs contributed by wave `d`, for the vertices below
/// `e` in index order: each newly discovered vertex contributes its wave
/// number and its current label.
pub open spec fn ring_seq(g: &Graph, ls: Seq<u32>, v: int, d: nat, e: int) -> Seq<(u32, u32)>
    decreases e,
{
    if e <= 0 {
        Seq::empty()
    } else {
        ring_seq(g, ls, v, d, e - 1) + (if in_ring(g, v, d, e - 1) {
            seq![(d as u32, ls[e - 1])]
        } else {
            Seq::empty()
        })
    }
}

/// The evidence pairs of the first `d` waves, in wave order.
pub open spec fn ev_upto(g: &Graph, ls: Seq<u32>, v: int, d: nat) -> Seq<(u32, u32)>
    decreases d,
{
    if d == 0 {
        Seq::empty()
    } else {
        ev_upto(g, ls, v, (d - 1) as nat) + ring_seq(g, ls, v, d, g.verts() as int)
    }
}

/// The complete convolution evidence of `v` under the labels `ls`.
pub open spec fn conv_evidence(g: &Graph, ls: Seq<u32>, v: int) -> Seq<(u32, u32)> {
    ev_upto(g, ls, v, (g.verts() - 1) as nat)
}

/// The convolution label of `v`: the previous label composed with the
/// sorted evidence, hashed.
pub open spec fn conv_label(g: &Graph, ls: Seq<u32>, v: int) -> u32 {
    hash_label_pairs_spec(ls[v], conv_evidence(g, ls, v).sort_by(pair_leq()))
}

/// The pre-hash convolution data of `v`: what `conv_label` hashes.
pub open spec fn conv_data(g: &Graph, ls: Seq<u32>, v: int) -> (u32, Seq<(u32, u32)>) {
    (ls[v], conv_evidence(g, ls, v).sort_by(pair_leq()))
}

/// The convolution pass only refines the labeling it starts from: two
/// vertices with equal pre-hash convolution data carried equal labels
/// already, because the previous label is composed into the data.  The
/// final truncation to 32 bits may identify distinct data; this lemma
/// speaks of the data before that truncation.
pub proof fn lemma_convolution_refines(g: &Graph, ls: Seq<u32>, u: int, w: int)
    requires
        0 <= u < ls.len(),
        0 <= w < ls.len(),
        conv_data(g, ls, u) == conv_data(g, ls, w),
    ensures
        ls[u] == ls[w],
{
}

/// The degree-and-polygon labels every vertex starts from.
pub open spec fn l0_seq(g: &Graph) -> Seq<u32> {
    Seq::new(g.verts(), |v: int| hash2_spec(deg(g, v) as u32, poly_sig(g, v)))
}

/// What the labeling engine assigns to each vertex.
pub open spec fn label_spec(g: &Graph) -> Seq<u32> {
    if g.verts() < 2 {
        seq![0u32]
    } else {
        Seq::new(g.verts(), |v: int| conv_label(g, l0_seq(g), v))
    }
}

/// Elements of the polygon reach set are real vertices other than the
/// two endpoints it must avoid.
pub proof fn lemma_poly_reach_range(g: &Graph, root: int, left: int, right: int, d: nat)
    requires
        0 <= left < g.verts(),
        left != root,
        left != right,
    ensures
        forall|x: int|
            #[trigger] poly_reach(g, root, left, right, d).contains(x) ==> 0 <= x < g.verts() && x
                != root && x != right,
    decreases d,
{
    if d == 1 {
        assert(poly_reach(g, root, left, right, 1) == Set::empty().insert(left));
    } else if d > 1 {
        lemma_poly_reach_range(g, root, left, right, (d - 1) as nat);
        let prev = poly_reach(g, root, left, right, (d - 1) as nat);
        assert forall|x: int| #[trigger] poly_reach(g, root, left, right, d).contains(x) implies 0
            <= x < g.verts() && x != root && x != right by {
            if prev.contains(x) {
            }
        }
    }
}

/// Elements of the convolution reach set are real vertices.
pub proof fn lemma_conv_reach_range(g: &Graph, v: int, d: nat)
    requires
        0 <= v < g.verts(),
    ensures
        forall|x: int| #[trigger] conv_reach(g, v, d).contains(x) ==> 0 <= x < g.verts(),
    decreases d,
{
    if d == 0 {
        assert(conv_reach(g, v, 0) == Set::empty().insert(v));
    } else {
        lemma_conv_reach_range(g, v, (d - 1) as nat);
        let prev = conv_reach(g, v, (d - 1) as nat);
        assert forall|x: int| #[trigger] conv_reach(g, v, d).contains(x) implies 0 <= x
            < g.verts() by {
            if prev.contains(x) {
            }
        }
    }
}

impl Graph {
    /// The wave count at which the polygon through `root` and the
    /// neighbour pair `(left, right)` closes, or zero when it never does.
    fn poly_search(&self, root: usize, left: usize, right: usize) -> (idx: usize)
        requires
            self.wf(),
            root < self.num_verts,
            left < self.num_verts,
            right < self.num_verts,
            left != root,
            right != root,
            left < right,
        ensures
            idx == poly_slot(self, root as int, left as int, right as int),
            idx < self.num_verts,
    {
        let nv = self.num_verts;
        let ghost ri = root as int;
        let ghost li = left as int;
        let ghost gi = right as int;
        let mut visited: Vec<bool> = Vec::new();
        while visited.len() < nv
            invariant
                visited@.len() <= nv,
                forall|t: int| 0 <= t < visited@.len() ==> !visited@[t],
            decreases nv - visited@.len(),
        {
            visited.push(false);
        }
        visited.set(root, true);
        visited.set(right, true);
        visited.set(left, true);
        proof {
            lemma_poly_reach_range(self, ri, li, gi, 1);
            assert forall|t: int| 0 <= t < nv implies (visited@[t] <==> (poly_reach(
                self,
                ri,
                li,
                gi,
                1,
            ).contains(t) || t == ri || t == gi)) by {
                assert(poly_reach(self, ri, li, gi, 1) == Set::empty().insert(li));
            }
        }
        let mut found: usize = 0;
        let mut d: usize = 1;
        while d < nv
            invariant
                self.wf(),
                nv == self.num_verts,
                ri == root as int,
                li == left as int,
                gi == right as int,
                root < nv,
                left < nv,
                right < nv,
                left != root,
                right != root,
                left < right,
                1 <= d <= nv,
                visited@.len() == nv,
                found == 0 ==> forall|t: int|
                    0 <= t < nv ==> (visited@[t] <==> (poly_reach(self, ri, li, gi, d as nat).contains(
                        t,
                    ) || t == ri || t == gi)),
                found == 0 ==> forall|e: nat|
                    1 <= e < d ==> !#[trigger] poly_hit(self, ri, li, gi, e),
                found != 0 ==> ({
                    &&& 1 <= found < nv
                    &&& poly_hit(self, ri, li, gi, found as nat)
                    &&& forall|e: nat| 1 <= e < found ==> !#[trigger] poly_hit(self, ri, li, gi, e)
                }),
            decreases nv - d,
        {
            if found == 0 {
                let ghost reach_d = poly_reach(self, ri, li, gi, d as nat);
                proof {
                    lemma_poly_reach_range(self, ri, li, gi, d as nat);
                }
                let mut x: usize = 0;
                let mut hitf = false;
                while x < nv
                    invariant
                        self.wf(),
                        nv == self.num_verts,
                        right < nv,
                        root < nv,
                        x <= nv,
                        ri == root as int,
                        li == left as int,
                        gi == right as int,
                        visited@.len() == nv,
                        reach_d == poly_reach(self, ri, li, gi, d as nat),
                        forall|t: int|
                            0 <= t < nv ==> (visited@[t] <==> (reach_d.contains(t) || t == ri || t
                                == gi)),
                        forall|t: int| #[trigger] reach_d.contains(t) ==> 0 <= t < nv && t != ri && t != gi,
                        hitf <==> exists|y: int|
                            0 <= y < x && #[trigger] reach_d.contains(y) && self.edge(y, gi),
                    decreases nv - x,
                {
                    let ghost pre_hit = hitf;
                    if visited[x] && x != root && x != right {
                        if self.get_edge(x, right) {
                            hitf = true;
                        }
                    }
                    proof {
                        let xi = x as int;
                        if hitf {
                            if pre_hit {
                                let y = choose|y: int|
                                    0 <= y < xi && #[trigger] reach_d.contains(y) && self.edge(
                                        y,
                                        gi,
                                    );
                                assert(0 <= y < xi + 1 && reach_d.contains(y) && self.edge(y, gi));
                            } else {
                                assert(0 <= xi < xi + 1 && reach_d.contains(xi) && self.edge(
                                    xi,
                                    gi,
                                ));
                            }
                        } else {
                            assert forall|y: int|
                                !(0 <= y < xi + 1 && #[trigger] reach_d.contains(y) && self.edge(
                                    y,
                                    gi,
                                )) by {
                                if 0 <= y < xi && reach_d.contains(y) && self.edge(y, gi) {
                                    assert(pre_hit);
                                }
                            }
                        }
                    }
                    x = x + 1;
                }
                proof {
                    assert(hitf == poly_hit(self, ri, li, gi, d as nat)) by {
                        if poly_hit(self, ri, li, gi, d as nat) {
                            let y = choose|y: int|
                                #[trigger] reach_d.contains(y) && self.edge(y, gi);
                            assert(0 <= y < nv && reach_d.contains(y) && self.edge(y, gi));
                        }
                    }
                }
                if hitf {
                    found = d;
                } else {
                    let prev = visited.clone();
                    proof {
                        assert(prev@ =~= visited@);
                    }
                    let mut x2: usize = 0;
                    while x2 < nv
                        invariant
                            self.wf(),
                            nv == self.num_verts,
                            root < nv,
                            left < nv,
                            right < nv,
                            left != root,
                            right != root,
                            left < right,
                            ri == root as int,
                            li == left as int,
                            gi == right as int,
                            x2 <= nv,
                            prev@.len() == nv,
                            visited@.len() == nv,
                            reach_d == poly_reach(self, ri, li, gi, d as nat),
                            1 <= d < nv,
                            forall|t: int|
                                0 <= t < nv ==> (prev@[t] <==> (reach_d.contains(t) || t == ri || t
                                    == gi)),
                            forall|t: int|
                                #[trigger] reach_d.contains(t) ==> 0 <= t < nv && t != ri && t != gi,
                            forall|t: int|
                                0 <= t < nv ==> (visited@[t] <==> (prev@[t] || (t < x2 && !prev@[t]
                                    && exists|y: int|
                                    0 <= y < nv && #[trigger] prev@[y] && y != ri && y != gi && y
                                        != t && self.edge(y, t)))),
                        decreases nv - x2,
                    {
                        if !visited[x2] {
                            let mut y: usize = 0;
                            let mut fnd = false;
                            while y < nv
                                invariant
                                    self.wf(),
                                    nv == self.num_verts,
                                    root < nv,
                                    right < nv,
                                    x2 < nv,
                                    y <= nv,
                                    prev@.len() == nv,
                                    ri == root as int,
                                    gi == right as int,
                                    fnd <==> exists|y2: int|
                                        0 <= y2 < y && #[trigger] prev@[y2] && y2 != ri && y2 != gi
                                            && y2 != x2 && self.edge(y2, x2 as int),
                                decreases nv - y,
                            {
                                let ghost pre_fnd = fnd;
                                if prev[y] && y != root && y != right && y != x2 {
                                    if self.get_edge(y, x2) {
                                        fnd = true;
                                    }
                                }
                                proof {
                                    let yi = y as int;
                                    if fnd {
                                        if pre_fnd {
                                            let y2 = choose|y2: int|
                                                0 <= y2 < yi && #[trigger] prev@[y2] && y2 != ri
                                                    && y2 != gi && y2 != x2 && self.edge(
                                                    y2,
                                                    x2 as int,
                                                );
                                            assert(0 <= y2 < yi + 1 && prev@[y2] && y2 != ri && y2
                                                != gi && y2 != x2 && self.edge(y2, x2 as int));
                                        } else {
                                            assert(0 <= yi < yi + 1 && prev@[yi] && yi != ri && yi
                                                != gi && yi != x2 && self.edge(yi, x2 as int));
                                        }
                                    } else {
                                        assert forall|y2: int|
                                            !(0 <= y2 < yi + 1 && #[trigger] prev@[y2] && y2 != ri
                                                && y2 != gi && y2 != x2 && self.edge(
                                                y2,
                                                x2 as int,
                                            )) by {
                                            if 0 <= y2 < yi && prev@[y2] && y2 != ri && y2 != gi
                                                && y2 != x2 && self.edge(y2, x2 as int) {
                                                assert(pre_fnd);
                                            }
                                        }
                                    }
                                }
                                y = y + 1;
                            }
                            if fnd {
                                visited.set(x2, true);
                            }
                        }
                        x2 = x2 + 1;
                    }
                    proof {
                        let dn = (d + 1) as nat;
                        let prev_set = poly_reach(self, ri, li, gi, d as nat);
                        assert(poly_reach(self, ri, li, gi, dn) == prev_set.union(
                            Set::new(
                                |t: int|
                                    0 <= t < self.verts() && t != ri && t != gi && exists|y: int|
                                        #[trigger] prev_set.contains(y) && y != t && self.edge(
                                            y,
                                            t,
                                        ),
                            ),
                        ));
                        assert forall|t: int| 0 <= t < nv implies (visited@[t] <==> (poly_reach(
                            self,
                            ri,
                            li,
                            gi,
                            dn,
                        ).contains(t) || t == ri || t == gi)) by {
                            if t != ri && t != gi && !prev@[t] {
                                if visited@[t] {
                                    let y = choose|y: int|
                                        0 <= y < nv && #[trigger] prev@[y] && y != ri && y != gi
                                            && y != t && self.edge(y, t);
                                    assert(prev_set.contains(y));
                                }
                                if poly_reach(self, ri, li, gi, dn).contains(t) {
                                    let y = choose|y: int|
                                        #[trigger] prev_set.contains(y) && y != t && self.edge(
                                            y,
                                            t,
                                        );
                                    assert(0 <= y < nv && prev@[y] && y != ri && y != gi);
                                }
                            }
                        }
                    }
                }
            }
            d = d + 1;
        }
        proof {
            if found == 0 {
                assert forall|e: nat| 1 <= e < self.verts() implies !#[trigger] poly_hit(
                    self,
                    ri,
                    li,
                    gi,
                    e,
                ) by {}
                lemma_first_hit_none(self, ri, li, gi, 1);
            } else {
                lemma_first_hit_found(self, ri, li, gi, 1, found as nat);
            }
        }
        found
    }

    /// For each root, a hash of the histogram of shortest polygons
    /// through it and each unordered pair of its neighbours.
    pub fn label_polygons(&self) -> (r: Vec<u32>)
        requires
            self.wf(),
        ensures
            r@.len() == self.num_verts,
            forall|v: int| 0 <= v < self.num_verts ==> #[trigger] r@[v] == poly_sig(self, v),
    {
        let nv = self.num_verts;
        let mut r: Vec<u32> = Vec::new();
        if nv < 3 {
            while r.len() < nv
                invariant
                    nv == self.num_verts,
                    self.verts() < 3,
                    r@.len() <= nv,
                    forall|v: int| 0 <= v < r@.len() ==> #[trigger] r@[v] == poly_sig(self, v),
                decreases nv - r@.len(),
            {
                r.push(0);
            }
            return r;
        }
        let mut root: usize = 0;
        while root < nv
            invariant
                self.wf(),
                nv == self.num_verts,
                3 <= nv,
                root <= nv,
                r@.len() == root,
                forall|w: int| 0 <= w < root ==> #[trigger] r@[w] == poly_sig(self, w),
            decreases nv - root,
        {
            let ghost ri = root as int;
            let mut loops_v: Vec<u32> = Vec::new();
            while loops_v.len() < nv
                invariant
                    loops_v@.len() <= nv,
                    forall|s: int| 0 <= s < loops_v@.len() ==> loops_v@[s] == 0,
                decreases nv - loops_v@.len(),
            {
                loops_v.push(0);
            }
            proof {
                assert forall|s: int| 0 <= s < nv implies loops_v@[s] as nat == poly_histo_rows(
                    self,
                    ri,
                    0,
                )[s] by {
                    assert(poly_histo_rows(self, ri, 0) == zero_histo(self.verts()));
                }
            }
            let mut left: usize = 0;
            while left + 1 < nv
                invariant
                    self.wf(),
                    nv == self.num_verts,
                    3 <= nv,
                    root < nv,
                    ri == root as int,
                    left <= nv - 1,
                    loops_v@.len() == nv,
                    forall|s: int|
                        0 <= s < nv ==> #[trigger] loops_v@[s] as nat == poly_histo_rows(
                            self,
                            ri,
                            left as int,
                        )[s],
                decreases nv - left,
            {
                proof {
                    lemma_histo_rows_len(self, ri, left as int);
                }
                let ghost base = poly_histo_rows(self, ri, left as int);
                if left != root && self.get_edge(root, left) {
                    let mut right: usize = left + 1;
                    proof {
                        assert(poly_histo_row(self, ri, left as int, left as int + 1, base)
                            == base);
                    }
                    while right < nv
                        invariant
                            self.wf(),
                            nv == self.num_verts,
                            3 <= nv,
                            root < nv,
                            ri == root as int,
                            left + 1 < nv,
                            left != root,
                            self.edge(ri, left as int),
                            left < right <= nv,
                            loops_v@.len() == nv,
                            base == poly_histo_rows(self, ri, left as int),
                            base.len() == nv,
                            forall|s: int|
                                0 <= s < nv ==> #[trigger] loops_v@[s] as nat == poly_histo_row(
                                    self,
                                    ri,
                                    left as int,
                                    right as int,
                                    base,
                                )[s],
                        decreases nv - right,
                    {
                        let ghost row_pre = poly_histo_row(self, ri, left as int, right as int, base);
                        proof {
                            lemma_histo_row_len(self, ri, left as int, right as int, base);
                        }
                        if right != root && self.get_edge(root, right) {
                            let idx = self.poly_search(root, left, right);
                            proof {
                                assert(poly_pair_ok(self, ri, left as int, right as int));
                                lemma_histo_rows_bound(self, ri, left as int);
                                lemma_histo_row_bound(self, ri, left as int, right as int, base);
                                lemma_first_hit_small(self, ri, left as int, right as int, 1);
                            }
                            let cur = loops_v[idx];
                            loops_v.set(idx, cur + 1);
                            proof {
                                let rnext = poly_histo_row(
                                    self,
                                    ri,
                                    left as int,
                                    right as int + 1,
                                    base,
                                );
                                let s = poly_slot(self, ri, left as int, right as int) as int;
                                assert(rnext == row_pre.update(s, row_pre[s] + 1));
                            }
                        } else {
                            proof {
                                assert(!poly_pair_ok(self, ri, left as int, right as int));
                                assert(poly_histo_row(self, ri, left as int, right as int + 1, base)
                                    == row_pre);
                            }
                        }
                        right = right + 1;
                    }
                    proof {
                        assert(poly_histo_rows(self, ri, left as int + 1) == poly_histo_row(
                            self,
                            ri,
                            left as int,
                            nv as int,
                            base,
                        ));
                    }
                } else {
                    proof {
                        assert forall|r2: int| !#[trigger] poly_pair_ok(
                            self,
                            ri,
                            left as int,
                            r2,
                        ) by {}
                        lemma_histo_row_skip(self, ri, left as int, nv as int, base);
                        assert(poly_histo_rows(self, ri, left as int + 1) == base);
                    }
                }
                left = left + 1;
            }
            proof {
                lemma_histo_rows_len(self, ri, nv as int - 1);
                assert(loops_v@ =~= Seq::new(
                    self.verts(),
                    |s: int| poly_histo(self, ri)[s] as u32,
                ));
            }
            let h = crate::hashing::hash_words(&loops_v);
            r.push(h);
            root = root + 1;
        }
        r
    }

    /// The convolution evidence of `root`: one `(wave, label)` pair for
    /// each vertex the wave expansion discovers, in discovery order.
    fn conv_search(&self, root: usize, labels: &Vec<u32>) -> (tree: Vec<(u32, u32)>)
        requires
            self.wf(),
            root < self.num_verts,
            labels@.len() == self.num_verts,
        ensures
            tree@ == conv_evidence(self, labels@, root as int),
    {
        let nv = self.num_verts;
        let ghost ri = root as int;
        let ghost ls = labels@;
        let mut visited: Vec<bool> = Vec::new();
        while visited.len() < nv
            invariant
                visited@.len() <= nv,
                forall|t: int| 0 <= t < visited@.len() ==> !visited@[t],
            decreases nv - visited@.len(),
        {
            visited.push(false);
        }
        visited.set(root, true);
        let mut tree: Vec<(u32, u32)> = Vec::new();
        proof {
            assert forall|t: int| 0 <= t < nv implies (visited@[t] <==> conv_reach(
                self,
                ri,
                0,
            ).contains(t)) by {
                assert(conv_reach(self, ri, 0) == Set::empty().insert(ri));
            }
        }
        let mut d: usize = 1;
        while d < nv
            invariant
                self.wf(),
                nv == self.num_verts,
                root < nv,
                ri == root as int,
                ls == labels@,
                ls.len() == nv,
                1 <= d <= nv || (nv == 0 && d == 1),
                d <= nv || d == 1,
                visited@.len() == nv,
                forall|t: int|
                    0 <= t < nv ==> (visited@[t] <==> conv_reach(self, ri, (d - 1) as nat).contains(
                        t,
                    )),
                tree@ == ev_upto(self, ls, ri, (d - 1) as nat),
            decreases nv - d,
        {
            let ghost prev_set = conv_reach(self, ri, (d - 1) as nat);
            proof {
                lemma_conv_reach_range(self, ri, (d - 1) as nat);
            }
            let prev = visited.clone();
            proof {
                assert(prev@ =~= visited@);
            }
            let mut x: usize = 0;
            while x < nv
                invariant
                    self.wf(),
                    nv == self.num_verts,
                    root < nv,
                    ri == root as int,
                    ls == labels@,
                    ls.len() == nv,
                    1 <= d < nv,
                    x <= nv,
                    prev@.len() == nv,
                    visited@.len() == nv,
                    prev_set == conv_reach(self, ri, (d - 1) as nat),
                    forall|t: int| 0 <= t < nv ==> (prev@[t] <==> prev_set.contains(t)),
                    forall|t: int| #[trigger] prev_set.contains(t) ==> 0 <= t < nv,
                    forall|t: int|
                        0 <= t < nv ==> (visited@[t] <==> (prev@[t] || (t < x && !prev@[t]
                            && exists|y: int|
                            0 <= y < nv && #[trigger] prev@[y] && y != t && self.edge(y, t)))),
                    tree@ == ev_upto(self, ls, ri, (d - 1) as nat) + ring_seq(
                        self,
                        ls,
                        ri,
                        d as nat,
                        x as int,
                    ),
                decreases nv - x,
            {
                let ghost ring_pre = ring_seq(self, ls, ri, d as nat, x as int);
                let ghost xi = x as int;
                if !visited[x] {
                    let mut y: usize = 0;
                    let mut fnd = false;
                    while y < nv
                        invariant
                            self.wf(),
                            nv == self.num_verts,
                            x < nv,
                            y <= nv,
                            prev@.len() == nv,
                            xi == x as int,
                            fnd <==> exists|y2: int|
                                0 <= y2 < y && #[trigger] prev@[y2] && y2 != xi && self.edge(
                                    y2,
                                    xi,
                                ),
                        decreases nv - y,
                    {
                        let ghost pre_fnd = fnd;
                        if prev[y] && y != x {
                            if self.get_edge(y, x) {
                                fnd = true;
                            }
                        }
                        proof {
                            let yi = y as int;
                            if fnd {
                                if pre_fnd {
                                    let y2 = choose|y2: int|
                                        0 <= y2 < yi && #[trigger] prev@[y2] && y2 != xi
                                            && self.edge(y2, xi);
                                    assert(0 <= y2 < yi + 1 && prev@[y2] && y2 != xi && self.edge(
                                        y2,
                                        xi,
                                    ));
                                } else {
                                    assert(0 <= yi < yi + 1 && prev@[yi] && yi != xi && self.edge(
                                        yi,
                                        xi,
                                    ));
                                }
                            } else {
                                assert forall|y2: int|
                                    !(0 <= y2 < yi + 1 && #[trigger] prev@[y2] && y2 != xi
                                        && self.edge(y2, xi)) by {
                                    if 0 <= y2 < yi && prev@[y2] && y2 != xi && self.edge(
                                        y2,
                                        xi,
                                    ) {
                                        assert(pre_fnd);
                                    }
                                }
                            }
                        }
                        y = y + 1;
                    }
                    proof {
                        assert(in_ring(self, ri, d as nat, xi) == fnd) by {
                            assert(!prev_set.contains(xi));
                            if fnd {
                                let y2 = choose|y2: int|
                                    0 <= y2 < nv && #[trigger] prev@[y2] && y2 != xi && self.edge(
                                        y2,
                                        xi,
                                    );
                                assert(prev_set.contains(y2));
                                assert(conv_reach(self, ri, d as nat).contains(xi));
                            }
                            if in_ring(self, ri, d as nat, xi) {
                                let y2 = choose|y2: int|
                                    #[trigger] prev_set.contains(y2) && y2 != xi && self.edge(
                                        y2,
                                        xi,
                                    );
                                assert(0 <= y2 < nv && prev@[y2]);
                            }
                        }
                    }
                    if fnd {
                        visited.set(x, true);
                        tree.push((d as u32, labels[x]));
                        proof {
                            assert(ring_seq(self, ls, ri, d as nat, xi + 1) =~= ring_pre + seq![
                                (d as u32, ls[xi]),
                            ]);
                            assert(tree@ =~= ev_upto(self, ls, ri, (d - 1) as nat) + ring_seq(
                                self,
                                ls,
                                ri,
                                d as nat,
                                xi + 1,
                            ));
                        }
                    } else {
                        proof {
                            assert(ring_seq(self, ls, ri, d as nat, xi + 1) =~= ring_pre);
                        }
                    }
                } else {
                    proof {
                        assert(!in_ring(self, ri, d as nat, xi)) by {
                            assert(prev@[xi]);
                            assert(conv_reach(self, ri, (d - 1) as nat).contains(xi));
                        }
                        assert(ring_seq(self, ls, ri, d as nat, xi + 1) =~= ring_pre);
                    }
                }
                x = x + 1;
            }
            proof {
                let dn = d as nat;
                assert(conv_reach(self, ri, dn) == prev_set.union(
                    Set::new(
                        |t: int|
                            0 <= t < self.verts() && exists|y: int|
                                #[trigger] prev_set.contains(y) && y != t && self.edge(y, t),
                    ),
                ));
                assert forall|t: int| 0 <= t < nv implies (visited@[t] <==> conv_reach(
                    self,
                    ri,
                    dn,
                ).contains(t)) by {
                    if !prev@[t] {
                        if visited@[t] {
                            let y = choose|y: int|
                                0 <= y < nv && #[trigger] prev@[y] && y != t && self.edge(y, t);
                            assert(prev_set.contains(y));
                        }
                        if conv_reach(self, ri, dn).contains(t) {
                            let y = choose|y: int|
                                #[trigger] prev_set.contains(y) && y != t && self.edge(y, t);
                            assert(0 <= y < nv && prev@[y]);
                        }
                    }
                }
                assert(tree@ == ev_upto(self, ls, ri, dn));
            }
            d = d + 1;
        }
        proof {
            assert(tree@ == conv_evidence(self, ls, ri));
        }
        tree
    }

    /// One convolution pass: replaces each label by a hash of itself and
    /// the sorted evidence its wave expansion collects.  The caller's
    /// scratch buffer keeps each root's evidence between invocations.
    pub fn convolute(&self, labels: &mut Vec<u32>, buf: &mut Vec<Vec<(u32, u32)>>)
        requires
            self.wf(),
            old(labels)@.len() == self.num_verts,
            old(buf)@.len() >= self.num_verts,
        ensures
            final(labels)@.len() == self.num_verts,
            forall|v: int|
                0 <= v < self.num_verts ==> #[trigger] final(labels)@[v] == conv_label(
                    self,
                    old(labels)@,
                    v,
                ),
            final(buf)@.len() == old(buf)@.len(),
            forall|v: int|
                0 <= v < self.num_verts ==> (#[trigger] final(buf)@[v])@ == conv_evidence(
                    self,
                    old(labels)@,
                    v,
                ).sort_by(pair_leq()),
            forall|v: int|
                self.num_verts <= v < old(buf)@.len() ==> (#[trigger] final(buf)@[v]) == old(
                    buf,
                )@[v],
    {
        let nv = self.num_verts;
        let ghost ls = labels@;
        let ghost blen = buf@.len();
        let ghost buf0 = buf@;
        let mut new_labels: Vec<u32> = Vec::new();
        let mut root: usize = 0;
        while root < nv
            invariant
                self.wf(),
                nv == self.num_verts,
                root <= nv,
                labels@ == ls,
                ls.len() == nv,
                buf@.len() == blen,
                blen >= nv,
                buf0.len() == blen,
                new_labels@.len() == root,
                forall|w: int|
                    0 <= w < root ==> #[trigger] new_labels@[w] == conv_label(self, ls, w),
                forall|w: int|
                    0 <= w < root ==> (#[trigger] buf@[w])@ == conv_evidence(self, ls, w).sort_by(
                        pair_leq(),
                    ),
                forall|w: int| root <= w < blen ==> (#[trigger] buf@[w]) == buf0[w],
            decreases nv - root,
        {
            let mut tree = self.conv_search(root, labels);
            sort_pairs(&mut tree);
            let h = hash_label_pairs(labels[root], &tree);
            buf.set(root, tree);
            new_labels.push(h);
            root = root + 1;
        }
        *labels = new_labels;
    }

    /// The per-vertex signatures: the degree and polygon signature of
    /// each vertex, refined by one convolution pass.  Graphs on fewer
    /// than two vertices get the single label zero.
    pub fn label(&self, buf: &mut Vec<Vec<(u32, u32)>>) -> (r: Vec<u32>)
        requires
            self.wf(),
            old(buf)@.len() >= self.num_verts,
        ensures
            r@ == label_spec(self),
            final(buf)@.len() == old(buf)@.len(),
    {
        if self.num_verts < 2 {
            let mut r: Vec<u32> = Vec::new();
            r.push(0);
            proof {
                assert(r@ =~= seq![0u32]);
            }
            return r;
        }
        let nv = self.num_verts;
        let mut d: Vec<u32> = Vec::new();
        let mut v: usize = 0;
        while v < nv
            invariant
                self.wf(),
                nv == self.num_verts,
                v <= nv,
                d@.len() == v,
                forall|w: int| 0 <= w < v ==> #[trigger] d@[w] as nat == deg(self, w),
            decreases nv - v,
        {
            let mut count: u32 = 0;
            let mut j: usize = 0;
            while j < nv
                invariant
                    self.wf(),
                    nv == self.num_verts,
                    v < nv,
                    j <= nv,
                    count as nat == deg_upto(self, v as int, j as int),
                decreases nv - j,
            {
                if j != v {
                    if self.get_edge(v, j) {
                        proof {
                            lemma_deg_upto_bound(self, v as int, j as int);
                        }
                        count = count + 1;
                    }
                }
                j = j + 1;
            }
            d.push(count);
            v = v + 1;
        }
        let p = self.label_polygons();
        let mut v2: usize = 0;
        while v2 < nv
            invariant
                self.wf(),
                nv == self.num_verts,
                v2 <= nv,
                d@.len() == nv,
                p@.len() == nv,
                forall|w: int| 0 <= w < nv ==> #[trigger] p@[w] == poly_sig(self, w),
                forall|w: int| 0 <= w < v2 ==> #[trigger] d@[w] == l0_seq(self)[w],
                forall|w: int| v2 <= w < nv ==> #[trigger] d@[w] as nat == deg(self, w),
            decreases nv - v2,
        {
            let h = hash2(d[v2], p[v2]);
            d.set(v2, h);
            v2 = v2 + 1;
        }
        proof {
            assert(d@ =~= l0_seq(self));
        }
        self.convolute(&mut d, buf);
        proof {
            assert(d@ =~= label_spec(self));
        }
        d
    }
}

} // verus!
