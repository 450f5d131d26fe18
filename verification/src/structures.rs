//! The tier store and the colour-refined isomorphism checker: graphs are
//! grouped by the sorted multiset of their vertex signatures, vertices are
//! partitioned into colour classes by their normalized signature, and
//! isomorphism is decided by backtracking over permutations within each
//! colour class with partial-edge pruning.

use vstd::prelude::*;
use vstd::relations::sorted_by;
use vstd::seq_lib::lemma_multiset_commutative;
use crate::graph::{Graph, is_extension};
use vstd::arithmetic::power2::pow2;
use crate::graph_like::GraphLike;
use crate::sorting::u32_leq;

verus! {

broadcast use vstd::seq_lib::group_to_multiset_ensures;

/// The first position of `x` in `s`; meaningful only when `x` occurs.
pub open spec fn first_index_of(s: Seq<u32>, x: u32) -> int
    decreases s.len(),
{
    if s.len() == 0 {
        0
    } else if s[0] == x {
        0
    } else {
        1 + first_index_of(s.drop_first(), x)
    }
}

pub proof fn lemma_first_index_char(s: Seq<u32>, x: u32)
    requires
        s.contains(x),
    ensures
        0 <= first_index_of(s, x) < s.len(),
        s[first_index_of(s, x)] == x,
        forall|j: int| 0 <= j < first_index_of(s, x) ==> s[j] != x,
    decreases s.len(),
{
    if s[0] != x {
        let i = choose|i: int| 0 <= i < s.len() && s[i] == x;
        assert(s.drop_first()[i - 1] == x);
        assert(s.drop_first().contains(x));
        lemma_first_index_char(s.drop_first(), x);
        assert forall|j: int| 0 <= j < first_index_of(s, x) implies s[j] != x by {
            if j > 0 {
                assert(s.drop_first()[j - 1] != x);
            }
        }
    }
}

/// The normalized per-vertex labels: each raw signature is replaced by
/// the first position of its value in the sorted signature sequence.
pub open spec fn normalize_spec(unsorted: Seq<u32>, sorted: Seq<u32>) -> Seq<u8> {
    Seq::new(unsorted.len(), |i: int| first_index_of(sorted, unsorted[i]) as u8)
}

/// How often `x` occurs in `s`.
pub open spec fn count_eq(s: Seq<u32>, x: u32) -> nat
    decreases s.len(),
{
    if s.len() == 0 {
        0
    } else {
        count_eq(s.drop_last(), x) + (if s.last() == x {
            1nat
        } else {
            0nat
        })
    }
}

/// The product, over the positions of `s`, of how often the value at
/// each position occurs up to and including it: the product of the
/// factorials of the multiplicities, an upper bound on the intra-chunk
/// branching of the isomorphism search.
pub open spec fn complexity(s: Seq<u32>) -> nat
    decreases s.len(),
{
    if s.len() == 0 {
        1
    } else {
        complexity(s.drop_last()) * count_eq(s, s.last())
    }
}

pub proof fn lemma_count_eq_bound(s: Seq<u32>, x: u32)
    ensures
        count_eq(s, x) <= s.len(),
    decreases s.len(),
{
    if s.len() > 0 {
        lemma_count_eq_bound(s.drop_last(), x);
    }
}

pub proof fn lemma_count_eq_zero(s: Seq<u32>, x: u32)
    requires
        forall|j: int| 0 <= j < s.len() ==> s[j] != x,
    ensures
        count_eq(s, x) == 0,
    decreases s.len(),
{
    if s.len() > 0 {
        lemma_count_eq_zero(s.drop_last(), x);
    }
}

pub proof fn lemma_complexity_le_fact(s: Seq<u32>)
    ensures
        complexity(s) <= crate::util::fact(s.len()),
    decreases s.len(),
{
    if s.len() > 0 {
        lemma_complexity_le_fact(s.drop_last());
        lemma_count_eq_bound(s, s.last());
        crate::util::lemma_fact_pos(s.drop_last().len());
        let fprev = crate::util::fact(s.drop_last().len());
        assert(crate::util::fact(s.len()) == s.len() * fprev);
        assert(complexity(s.drop_last()) * count_eq(s, s.last()) <= s.len() * fprev)
            by (nonlinear_arith)
            requires
                complexity(s.drop_last()) <= fprev,
                count_eq(s, s.last()) <= s.len(),
        ;
    }
}

/// Appending one run of `m` copies of a value absent from the prefix
/// multiplies the complexity by the factorial of `m`.
pub proof fn lemma_complexity_run(s: Seq<u32>, k: int, m: int)
    requires
        0 <= k,
        0 <= m,
        k + m <= s.len(),
        m > 0 ==> forall|j: int| 0 <= j < k ==> #[trigger] s[j] != s[k],
        forall|j: int| k <= j < k + m ==> #[trigger] s[j] == s[k],
    ensures
        complexity(s.take(k + m)) == complexity(s.take(k)) * crate::util::fact(m as nat),
    decreases m,
{
    if m == 0 {
        assert(crate::util::fact(0) == 1);
        assert(s.take(k + 0) == s.take(k));
        assert(complexity(s.take(k + m)) == complexity(s.take(k)));
        assert(complexity(s.take(k)) * crate::util::fact(m as nat) == complexity(s.take(k)))
            by (nonlinear_arith)
            requires
                crate::util::fact(m as nat) == 1,
        ;
    } else {
        let t = s.take(k + m);
        assert(t.drop_last() =~= s.take(k + m - 1));
        assert(t.last() == s[k + m - 1]);
        assert(s[k + m - 1] == s[k]);
        lemma_complexity_run(s, k, m - 1);
        assert(count_eq(t, s[k]) == m) by {
            lemma_count_run(s, k, m);
        }
        let ck = complexity(s.take(k));
        let fm1 = crate::util::fact((m - 1) as nat);
        assert(complexity(t) == complexity(t.drop_last()) * count_eq(t, t.last()));
        assert(complexity(t.drop_last()) == ck * fm1);
        assert(crate::util::fact(m as nat) == m * fm1);
        assert((ck * fm1) * m == ck * (m * fm1)) by (nonlinear_arith);
        assert(complexity(t) == ck * (m * fm1));
        assert(complexity(s.take(k + m)) == complexity(s.take(k)) * crate::util::fact(m as nat));
    }
}

/// A value that is absent from the first `k` positions occurs in the
/// first `k + m` positions exactly as often as in the run.
pub proof fn lemma_count_run(s: Seq<u32>, k: int, m: int)
    requires
        0 <= k,
        1 <= m,
        k + m <= s.len(),
        forall|j: int| 0 <= j < k ==> s[j] != s[k],
        forall|j: int| k <= j < k + m ==> s[j] == s[k],
    ensures
        count_eq(s.take(k + m), s[k]) == m,
    decreases m,
{
    let t = s.take(k + m);
    assert(t.drop_last() =~= s.take(k + m - 1));
    if m == 1 {
        lemma_count_eq_zero(s.take(k), s[k]);
    } else {
        lemma_count_run(s, k, m - 1);
    }
}

/// The concatenation of a sequence of vertex classes.
pub open spec fn flat(v: Seq<Vec<usize>>) -> Seq<usize>
    decreases v.len(),
{
    if v.len() == 0 {
        Seq::empty()
    } else {
        flat(v.drop_last()) + v.last()@
    }
}

/// Classes with pairwise equal multisets flatten to equal multisets.
pub proof fn lemma_flat_multiset(v: Seq<Vec<usize>>, w: Seq<Vec<usize>>)
    requires
        v.len() == w.len(),
        forall|d: int| 0 <= d < v.len() ==> (#[trigger] v[d])@.to_multiset() == w[d]@.to_multiset(),
    ensures
        flat(v).to_multiset() == flat(w).to_multiset(),
    decreases v.len(),
{
    if v.len() > 0 {
        assert(v.drop_last().len() == w.drop_last().len());
        assert forall|d: int| 0 <= d < v.drop_last().len() implies (#[trigger] v.drop_last()[d])@.to_multiset()
            == w.drop_last()[d]@.to_multiset() by {
            assert(v[d]@.to_multiset() == w[d]@.to_multiset());
        }
        lemma_flat_multiset(v.drop_last(), w.drop_last());
        lemma_multiset_commutative(flat(v.drop_last()), v.last()@);
        lemma_multiset_commutative(flat(w.drop_last()), w.last()@);
        assert(v.last()@.to_multiset() == w.last()@.to_multiset());
    }
}

/// A sequence that lists each of the vertices `0 .. n` without
/// repetition: a vertex ordering.
pub open spec fn is_perm_seq(s: Seq<usize>, n: int) -> bool {
    &&& s.len() == n
    &&& forall|i: int| 0 <= i < n ==> (#[trigger] s[i] as int) < n
    &&& forall|i: int, j: int| 0 <= i < j < n ==> s[i] != s[j]
}

/// The first `n` positions of the two orderings agree on every pair of
/// edges.
pub open spec fn edges_match(g: &Graph, h: &Graph, mg: Seq<usize>, mh: Seq<usize>, n: int) -> bool {
    forall|i: int, j: int|
        0 <= i < j < n ==> g.edge(mg[i] as int, mg[j] as int) == h.edge(mh[i] as int, mh[j] as int)
}

/// There are vertex orderings of the two graphs under which every pair
/// of edges agrees: an edge-preserving bijection exists.
pub open spec fn graphs_isomorphic(g: &Graph, h: &Graph) -> bool {
    &&& g.num_verts == h.num_verts
    &&& exists|mg: Seq<usize>, mh: Seq<usize>|
        is_perm_seq(mg, g.num_verts as int) && is_perm_seq(mh, g.num_verts as int) && edges_match(
            g,
            h,
            mg,
            mh,
            g.num_verts as int,
        )
}

/// Every class holds the same vertices it originally held, possibly
/// reordered.
pub open spec fn class_multisets_match(v: Seq<Vec<usize>>, orig: Seq<Vec<usize>>) -> bool {
    &&& v.len() == orig.len()
    &&& forall|d: int|
        0 <= d < v.len() ==> (#[trigger] v[d])@.to_multiset() == orig[d]@.to_multiset()
}

/// The flattening of the classes up to `d`.
pub open spec fn prefix_len(v: Seq<Vec<usize>>, d: int) -> nat {
    flat(v.take(d)).len()
}

pub proof fn lemma_flat_take_succ(v: Seq<Vec<usize>>, d: int)
    requires
        0 <= d < v.len(),
    ensures
        flat(v.take(d + 1)) == flat(v.take(d)) + v[d]@,
{
    assert(v.take(d + 1).drop_last() =~= v.take(d));
    assert(v.take(d + 1).last() == v[d]);
}

pub proof fn lemma_flat_take_all(v: Seq<Vec<usize>>)
    ensures
        flat(v.take(v.len() as int)) == flat(v),
{
    assert(v.take(v.len() as int) =~= v);
}

/// The flattening of a prefix of the classes is a prefix of the full
/// flattening.
pub proof fn lemma_flat_take_prefix(v: Seq<Vec<usize>>, d: int)
    requires
        0 <= d <= v.len(),
    ensures
        prefix_len(v, d) <= flat(v).len(),
        flat(v.take(d)) == flat(v).take(prefix_len(v, d) as int),
    decreases v.len() - d,
{
    if d == v.len() {
        lemma_flat_take_all(v);
        assert(flat(v).take(flat(v).len() as int) =~= flat(v));
    } else {
        lemma_flat_take_prefix(v, d + 1);
        lemma_flat_take_succ(v, d);
        assert(flat(v.take(d)) =~= flat(v.take(d + 1)).take(prefix_len(v, d) as int));
        assert(flat(v).take(prefix_len(v, d + 1) as int).take(prefix_len(v, d) as int) =~= flat(
            v,
        ).take(prefix_len(v, d) as int));
    }
}

/// Classes with pairwise equal views flatten to the same sequence.
pub proof fn lemma_flat_congruent(v: Seq<Vec<usize>>, w: Seq<Vec<usize>>)
    requires
        v.len() == w.len(),
        forall|d: int| 0 <= d < v.len() ==> (#[trigger] v[d])@ == w[d]@,
    ensures
        flat(v) == flat(w),
    decreases v.len(),
{
    if v.len() > 0 {
        assert forall|d: int| 0 <= d < v.drop_last().len() implies (#[trigger] v.drop_last()[d])@
            == w.drop_last()[d]@ by {
            assert(v[d]@ == w[d]@);
        }
        lemma_flat_congruent(v.drop_last(), w.drop_last());
        assert(v.last()@ == w.last()@);
    }
}

/// The flattened position of the `u`-th entry of class `d`.
pub proof fn lemma_flat_index(v: Seq<Vec<usize>>, d: int, u: int)
    requires
        0 <= d < v.len(),
        0 <= u < v[d]@.len(),
    ensures
        prefix_len(v, d) + u < flat(v).len(),
        flat(v)[prefix_len(v, d) + u] == v[d]@[u],
{
    lemma_flat_take_succ(v, d);
    lemma_flat_take_prefix(v, d);
    lemma_flat_take_prefix(v, d + 1);
    assert(flat(v).take(prefix_len(v, d + 1) as int) == flat(v).take(prefix_len(v, d) as int)
        + v[d]@);
    assert(flat(v).take(prefix_len(v, d + 1) as int)[prefix_len(v, d) + u] == v[d]@[u]);
}

/// Classes of pairwise equal lengths give equal placed-prefix lengths.
pub proof fn lemma_prefix_len_same(v: Seq<Vec<usize>>, w: Seq<Vec<usize>>, d: int)
    requires
        0 <= d <= v.len(),
        v.len() == w.len(),
        forall|t: int| 0 <= t < v.len() ==> (#[trigger] v[t])@.len() == w[t]@.len(),
    ensures
        prefix_len(v, d) == prefix_len(w, d),
    decreases d,
{
    if d > 0 {
        lemma_prefix_len_same(v, w, d - 1);
        lemma_flat_take_succ(v, d - 1);
        lemma_flat_take_succ(w, d - 1);
        assert(v[d - 1]@.len() == w[d - 1]@.len());
    }
}

/// The reorderings the search may still reach from the state `cur` at
/// position `(depth, sub_depth)`: classes before `depth` and the first
/// `sub_depth` placed entries of class `depth` are fixed, and every
/// class keeps its contents.
pub open spec fn search_ext(
    vg: Seq<Vec<usize>>,
    cur: Seq<Vec<usize>>,
    depth: int,
    sub_depth: int,
) -> bool {
    &&& vg.len() == cur.len()
    &&& forall|d: int| 0 <= d < vg.len() ==> (#[trigger] vg[d])@.len() == cur[d]@.len()
    &&& forall|d: int|
        0 <= d < vg.len() ==> (#[trigger] vg[d])@.to_multiset() == cur[d]@.to_multiset()
    &&& forall|d: int| 0 <= d < depth ==> (#[trigger] vg[d])@ == cur[d]@
    &&& (0 <= depth < vg.len() ==> vg[depth]@.take(sub_depth) == cur[depth]@.take(sub_depth))
}

/// Some reachable reordering matches every pair of edges: the exact
/// question the search at `(depth, sub_depth)` answers.
pub open spec fn search_success(
    g: &LabeledGraph,
    h: &LabeledGraph,
    cur: Seq<Vec<usize>>,
    ch: Seq<usize>,
    depth: int,
    sub_depth: int,
) -> bool {
    exists|vg: Seq<Vec<usize>>|
        #[trigger] search_ext(vg, cur, depth, sub_depth) && edges_match(
            &g.inner,
            &h.inner,
            flat(vg),
            ch,
            g.inner.num_verts as int,
        )
}

/// The flattening of any reachable reordering agrees with the current
/// state on every placed position.
pub proof fn lemma_flat_prefix_agree(
    vg: Seq<Vec<usize>>,
    cur: Seq<Vec<usize>>,
    depth: int,
    sub_depth: int,
)
    requires
        search_ext(vg, cur, depth, sub_depth),
        0 <= depth < cur.len(),
        0 <= sub_depth <= cur[depth]@.len(),
    ensures
        prefix_len(vg, depth) == prefix_len(cur, depth),
        flat(vg).len() == flat(cur).len(),
        forall|t: int|
            0 <= t < prefix_len(cur, depth) + sub_depth ==> #[trigger] flat(vg)[t] == flat(cur)[t],
{
    lemma_prefix_len_same(vg, cur, depth);
    lemma_flat_multiset(vg, cur);
    assert(flat(vg).to_multiset().len() == flat(cur).to_multiset().len());
    assert forall|d: int| 0 <= d < depth implies (#[trigger] vg.take(depth)[d])@ == cur.take(
        depth,
    )[d]@ by {
        assert(vg[d]@ == cur[d]@);
    }
    lemma_flat_congruent(vg.take(depth), cur.take(depth));
    lemma_flat_take_prefix(vg, depth);
    lemma_flat_take_prefix(cur, depth);
    let pl = prefix_len(cur, depth);
    assert forall|t: int|
        0 <= t < pl + sub_depth implies #[trigger] flat(vg)[t] == flat(cur)[t] by {
        if t < pl {
            assert(flat(vg).take(pl as int)[t] == flat(cur).take(pl as int)[t]);
        } else {
            let u = t - pl;
            lemma_flat_index(vg, depth, u);
            lemma_flat_index(cur, depth, u);
            assert(vg[depth]@.take(sub_depth)[u] == cur[depth]@.take(sub_depth)[u]);
        }
    }
}

/// A value placed next in a reachable reordering of a class occurs among
/// the not-yet-placed entries of the current class.
pub proof fn lemma_value_in_suffix(v: Seq<usize>, c: Seq<usize>, sub: int)
    requires
        0 <= sub < v.len(),
        v.len() == c.len(),
        v.to_multiset() == c.to_multiset(),
        v.take(sub) == c.take(sub),
    ensures
        exists|i2: int| sub <= i2 < c.len() && c[i2] == v[sub],
{
    let x = v[sub];
    assert(v =~= v.take(sub) + v.skip(sub));
    assert(c =~= c.take(sub) + c.skip(sub));
    lemma_multiset_commutative(v.take(sub), v.skip(sub));
    lemma_multiset_commutative(c.take(sub), c.skip(sub));
    assert(v.skip(sub)[0] == x);
    assert(v.skip(sub).contains(x));
    assert(v.skip(sub).to_multiset().contains(x));
    assert(v.skip(sub).to_multiset().count(x) == c.skip(sub).to_multiset().count(x)) by {
        assert(v.take(sub).to_multiset() == c.take(sub).to_multiset());
        assert(v.to_multiset().count(x) == v.take(sub).to_multiset().count(x) + v.skip(
            sub,
        ).to_multiset().count(x));
        assert(c.to_multiset().count(x) == c.take(sub).to_multiset().count(x) + c.skip(
            sub,
        ).to_multiset().count(x));
    }
    assert(c.skip(sub).to_multiset().contains(x)) by {
        assert(v.skip(sub).to_multiset().count(x) > 0);
    }
    assert(c.skip(sub).contains(x));
    let i0 = choose|i0: int| 0 <= i0 < c.skip(sub).len() && c.skip(sub)[i0] == x;
    assert(c[sub + i0] == x);
}

/// Flattens the classes into `out`.
pub fn collapse_verts(v: &Vec<Vec<usize>>, out: &mut Vec<usize>)
    ensures
        final(out)@ == flat(v@),
{
    out.clear();
    let mut d: usize = 0;
    while d < v.len()
        invariant
            d <= v@.len(),
            out@ == flat(v@.take(d as int)),
        decreases v@.len() - d,
    {
        let row = &v[d];
        let mut j: usize = 0;
        while j < row.len()
            invariant
                d < v@.len(),
                row == v@[d as int],
                j <= row@.len(),
                out@ == flat(v@.take(d as int)) + row@.take(j as int),
            decreases row@.len() - j,
        {
            out.push(row[j]);
            proof {
                assert(row@.take(j + 1) =~= row@.take(j as int).push(row@[j as int]));
                assert((flat(v@.take(d as int)) + row@.take(j as int)).push(row@[j as int]) =~= flat(
                    v@.take(d as int),
                ) + row@.take(j + 1));
            }
            j = j + 1;
        }
        proof {
            lemma_flat_take_succ(v@, d as int);
            assert(row@.take(row@.len() as int) =~= row@);
        }
        d = d + 1;
    }
    proof {
        lemma_flat_take_all(v@);
        assert(out@ + flat(v@.take(v@.len() as int)).take(0) =~= out@);
    }
}

/// Checks that the first `n` entries of the two current orderings agree
/// on every pair of edges; `collapsed_verts_g` is refilled from the
/// classes of `g` first.
pub fn compare(
    g: &LabeledGraph,
    h: &LabeledGraph,
    n: usize,
    verts_g: &Vec<Vec<usize>>,
    collapsed_verts_g: &mut Vec<usize>,
    collapsed_verts_h: &Vec<usize>,
) -> (r: bool)
    requires
        g.wf(),
        h.wf(),
        g.inner.num_verts == h.inner.num_verts,
        n <= flat(verts_g@).len(),
        n <= collapsed_verts_h@.len(),
        forall|i: int| 0 <= i < n ==> (#[trigger] flat(verts_g@)[i] as int) < g.inner.num_verts,
        forall|i: int|
            0 <= i < n ==> (#[trigger] collapsed_verts_h@[i] as int) < h.inner.num_verts,
        forall|i: int, j: int| 0 <= i < j < n ==> flat(verts_g@)[i] != flat(verts_g@)[j],
        forall|i: int, j: int| 0 <= i < j < n ==> collapsed_verts_h@[i] != collapsed_verts_h@[j],
    ensures
        r == edges_match(&g.inner, &h.inner, flat(verts_g@), collapsed_verts_h@, n as int),
        final(collapsed_verts_g)@ == flat(verts_g@),
{
    collapse_verts(verts_g, collapsed_verts_g);
    let ghost mg = flat(verts_g@);
    let ghost mh = collapsed_verts_h@;
    if n < 2 {
        proof {
            assert(edges_match(&g.inner, &h.inner, mg, mh, n as int));
        }
        return true;
    }
    let mut i: usize = 0;
    while i < n - 1
        invariant
            g.wf(),
            h.wf(),
            g.inner.num_verts == h.inner.num_verts,
            2 <= n,
            i <= n - 1,
            mg == flat(verts_g@),
            mh == collapsed_verts_h@,
            collapsed_verts_g@ == mg,
            n <= mg.len(),
            n <= mh.len(),
            forall|t: int| 0 <= t < n ==> (#[trigger] mg[t] as int) < g.inner.num_verts,
            forall|t: int| 0 <= t < n ==> (#[trigger] mh[t] as int) < h.inner.num_verts,
            forall|t: int, u: int| 0 <= t < u < n ==> mg[t] != mg[u],
            forall|t: int, u: int| 0 <= t < u < n ==> mh[t] != mh[u],
            forall|t: int, u: int|
                0 <= t < u < n && t < i ==> g.inner.edge(mg[t] as int, mg[u] as int)
                    == h.inner.edge(mh[t] as int, mh[u] as int),
        decreases n - i,
    {
        let mut j: usize = i + 1;
        while j < n
            invariant
                g.wf(),
                h.wf(),
                g.inner.num_verts == h.inner.num_verts,
                2 <= n,
                i < j <= n,
                i < n - 1,
                mg == flat(verts_g@),
                mh == collapsed_verts_h@,
                collapsed_verts_g@ == mg,
                n <= mg.len(),
                n <= mh.len(),
                forall|t: int| 0 <= t < n ==> (#[trigger] mg[t] as int) < g.inner.num_verts,
                forall|t: int| 0 <= t < n ==> (#[trigger] mh[t] as int) < h.inner.num_verts,
                forall|t: int, u: int| 0 <= t < u < n ==> mg[t] != mg[u],
                forall|t: int, u: int| 0 <= t < u < n ==> mh[t] != mh[u],
                forall|t: int, u: int|
                    0 <= t < u < n && t < i ==> g.inner.edge(mg[t] as int, mg[u] as int)
                        == h.inner.edge(mh[t] as int, mh[u] as int),
                forall|u: int|
                    i < u < j ==> g.inner.edge(mg[i as int] as int, #[trigger] mg[u] as int)
                        == h.inner.edge(mh[i as int] as int, mh[u] as int),
            decreases n - j,
    {
            let a = collapsed_verts_g[i];
            let b = collapsed_verts_g[j];
            let c = collapsed_verts_h[i];
            let e = collapsed_verts_h[j];
            if g.inner.get_edge(a, b) != h.inner.get_edge(c, e) {
                return false;
            }
            j = j + 1;
        }
        i = i + 1;
    }
    proof {
        assert(edges_match(&g.inner, &h.inner, mg, mh, n as int));
    }
    return true;
}

/// A graph paired with its normalized per-vertex labels.
#[derive(Debug)]
pub struct LabeledGraph {
    pub inner: Graph,
    pub labels: GraphLabeling,
}

impl LabeledGraph {
    /// The labels name one colour class per vertex, each below the
    /// vertex count.
    pub open spec fn wf(&self) -> bool {
        &&& self.inner.wf()
        &&& self.labels.0@.len() == self.inner.num_verts
        &&& forall|i: int|
            0 <= i < self.labels.0@.len() ==> (#[trigger] self.labels.0@[i] as int)
                < self.inner.num_verts
    }
}

/// The sorted multiset of raw vertex signatures of a graph: the key that
/// groups possibly-isomorphic graphs.
#[derive(Debug, PartialEq, Eq, Hash)]
pub struct ChunkLabeling(pub Vec<u32>);

impl Clone for ChunkLabeling {
    fn clone(&self) -> (r: Self)
        ensures
            r.0@ == self.0@,
    {
        let v = self.0.clone();
        proof {
            assert(v@ =~= self.0@);
        }
        ChunkLabeling(v)
    }
}

/// The normalized per-vertex labels: the label of vertex `i` names its
/// colour class, the rank of its raw signature in the sorted signature
/// sequence.
#[derive(Debug, PartialEq, Eq, Hash)]
pub struct GraphLabeling(pub Vec<u8>);

/// A reordering of classes that keeps each class's contents flattens to
/// an ordering with the same length, range and distinctness as the
/// original.
pub proof fn lemma_flat_perm_props(verts: Seq<Vec<usize>>, orig: Seq<Vec<usize>>, n: int)
    requires
        class_multisets_match(verts, orig),
        is_perm_seq(flat(orig), n),
    ensures
        flat(verts).len() == n,
        forall|i: int| 0 <= i < n ==> (#[trigger] flat(verts)[i] as int) < n,
        forall|i: int, j: int| 0 <= i < j < n ==> flat(verts)[i] != flat(verts)[j],
{
    lemma_flat_multiset(verts, orig);
    let fo = flat(orig);
    let fv = flat(verts);
    assert(fv.to_multiset().len() == fo.to_multiset().len());
    assert(fv.len() == n);
    assert(fo.no_duplicates());
    fo.lemma_multiset_has_no_duplicates();
    fv.lemma_multiset_has_no_duplicates_conv();
    assert forall|i: int| 0 <= i < n implies (#[trigger] fv[i] as int) < n by {
        assert(fv.to_multiset().contains(fv[i]));
        assert(fo.to_multiset().contains(fv[i]));
        assert(fo.contains(fv[i]));
        let j = choose|j: int| 0 <= j < fo.len() && fo[j] == fv[i];
        assert((fo[j] as int) < n);
    }
    assert forall|i: int, j: int| 0 <= i < j < n implies fv[i] != fv[j] by {
        assert(fv.no_duplicates());
    }
}

/// The search always reaches a permutation of each class: swapping two
/// positions keeps the multiset.
proof fn lemma_swap_multiset(c: Seq<usize>, p: int, q: int)
    requires
        0 <= p < c.len(),
        0 <= q < c.len(),
    ensures
        c.update(p, c[q]).update(q, c[p]).to_multiset() == c.to_multiset(),
{
    let c1 = c.update(p, c[q]);
    let c2 = c1.update(q, c[p]);
    if p == q {
        assert(c2 =~= c);
    } else {
        assert(c1[q] == c[q]);
        vstd::seq_lib::to_multiset_update(c, p, c[q]);
        vstd::seq_lib::to_multiset_update(c1, q, c[p]);
        assert(c2.to_multiset() =~= c.to_multiset());
    }
}

/// Whether `v` lists each vertex below `n` exactly once.  A `true`
/// answer establishes the ordering property the search relies on; the
/// tier store only ever builds genuine partitions, so on its inputs the
/// answer is always `true`.
pub fn is_permutation_vec(v: &Vec<usize>, n: usize) -> (r: bool)
    ensures
        r ==> is_perm_seq(v@, n as int),
{
    if v.len() != n {
        return false;
    }
    let mut seen: Vec<bool> = Vec::new();
    while seen.len() < n
        invariant
            seen@.len() <= n,
            forall|t: int| 0 <= t < seen@.len() ==> !seen@[t],
        decreases n - seen@.len(),
    {
        seen.push(false);
    }
    let mut i: usize = 0;
    while i < n
        invariant
            v@.len() == n,
            seen@.len() == n,
            i <= n,
            forall|t: int|
                0 <= t < n ==> (seen@[t] <==> exists|j: int|
                    0 <= j < i && (#[trigger] v@[j] as int) == t),
            forall|j: int| 0 <= j < i ==> (#[trigger] v@[j] as int) < n,
            forall|j: int, k: int| 0 <= j < k < i ==> v@[j] != v@[k],
        decreases n - i,
    {
        let x = v[i];
        if x >= n {
            return false;
        }
        if seen[x] {
            return false;
        }
        seen.set(x, true);
        proof {
            let ii = i as int;
            assert forall|t: int| 0 <= t < n implies (seen@[t] <==> exists|j: int|
                0 <= j < ii + 1 && (#[trigger] v@[j] as int) == t) by {
                if t == x as int {
                    assert((v@[ii] as int) == t);
                } else {
                    if seen@[t] {
                        let j = choose|j: int| 0 <= j < ii && (#[trigger] v@[j] as int) == t;
                        assert(0 <= j < ii + 1 && (v@[j] as int) == t);
                    } else {
                        assert forall|j: int| 0 <= j < ii + 1 implies (#[trigger] v@[j] as int)
                            != t by {}
                    }
                }
            }
            assert forall|j: int, k: int| 0 <= j < k < ii + 1 implies v@[j] != v@[k] by {
                if k == ii && v@[j] == v@[k] {
                    assert(exists|j2: int|
                        0 <= j2 < ii && (#[trigger] v@[j2] as int) == x as int);
                }
            }
        }
        i = i + 1;
    }
    true
}

/// The context the colour-refined search runs in: well-formed graphs of
/// one size, one class list per vertex, and flattened orderings that are
/// genuine permutations.
pub open spec fn iso_ctx(
    g: &LabeledGraph,
    h: &LabeledGraph,
    orig: Seq<Vec<usize>>,
    ch: Seq<usize>,
) -> bool {
    &&& g.wf()
    &&& h.wf()
    &&& g.inner.num_verts == h.inner.num_verts
    &&& orig.len() == g.inner.num_verts
    &&& is_perm_seq(flat(orig), g.inner.num_verts as int)
    &&& is_perm_seq(ch, g.inner.num_verts as int)
}

/// Descends class by class; at the bottom, accepts exactly when the two
/// complete orderings agree on every pair of edges.  Decides exactly
/// whether some reordering of the classes at and beyond `depth` makes
/// every pair of edges agree; a `true` answer is an isomorphism witness.
pub fn rec_iso_check(
    depth: usize,
    orig_verts_g: &Vec<Vec<usize>>,
    verts_g: &mut Vec<Vec<usize>>,
    collapsed_verts_h: &Vec<usize>,
    collapsed_verts_g: &mut Vec<usize>,
    g: &LabeledGraph,
    h: &LabeledGraph,
) -> (r: bool)
    requires
        iso_ctx(g, h, orig_verts_g@, collapsed_verts_h@),
        depth <= orig_verts_g@.len(),
        class_multisets_match(old(verts_g)@, orig_verts_g@),
    ensures
        r ==> graphs_isomorphic(&g.inner, &h.inner),
        class_multisets_match(final(verts_g)@, orig_verts_g@),
        forall|d: int| 0 <= d < depth ==> (#[trigger] final(verts_g)@[d])@ == old(verts_g)@[d]@,
        r == search_success(
            g,
            h,
            old(verts_g)@,
            collapsed_verts_h@,
            depth as int,
            0,
        ),
        depth >= orig_verts_g@.len() ==> final(verts_g)@ == old(verts_g)@ && r == edges_match(
            &g.inner,
            &h.inner,
            flat(old(verts_g)@),
            collapsed_verts_h@,
            g.inner.num_verts as int,
        ),
    decreases orig_verts_g@.len() - depth, 1nat, 0nat,
{
    let n = g.inner.num_verts();
    if depth >= n {
        let ghost entry = verts_g@;
        proof {
            lemma_flat_perm_props(verts_g@, orig_verts_g@, n as int);
        }
        let res = compare(g, h, n, verts_g, collapsed_verts_g, collapsed_verts_h);
        proof {
            if res {
                let mg = flat(verts_g@);
                let mh = collapsed_verts_h@;
                assert(is_perm_seq(mg, g.inner.num_verts as int));
                assert(edges_match(&g.inner, &h.inner, mg, mh, g.inner.num_verts as int));
                assert(graphs_isomorphic(&g.inner, &h.inner));
                assert(search_ext(entry, entry, depth as int, 0));
                assert(search_success(g, h, entry, collapsed_verts_h@, depth as int, 0));
            } else {
                assert forall|vg: Seq<Vec<usize>>|
                    #[trigger] search_ext(vg, entry, depth as int, 0) implies !edges_match(
                    &g.inner,
                    &h.inner,
                    flat(vg),
                    collapsed_verts_h@,
                    g.inner.num_verts as int,
                ) by {
                    assert forall|d: int| 0 <= d < vg.len() implies (#[trigger] vg[d])@
                        == entry[d]@ by {
                        assert(d < depth);
                    }
                    lemma_flat_congruent(vg, entry);
                }
            }
        }
        res
    } else {
        let mut depth_to_now: usize = 0;
        let mut dd: usize = 0;
        proof {
            assert(orig_verts_g@.take(0) =~= Seq::<Vec<usize>>::empty());
        }
        while dd < depth
            invariant
                dd <= depth,
                depth <= orig_verts_g@.len(),
                depth_to_now == prefix_len(orig_verts_g@, dd as int),
                is_perm_seq(flat(orig_verts_g@), g.inner.num_verts as int),
            decreases depth - dd,
        {
            proof {
                lemma_flat_take_succ(orig_verts_g@, dd as int);
                lemma_flat_take_prefix(orig_verts_g@, dd as int + 1);
            }
            depth_to_now = depth_to_now + orig_verts_g[dd].len();
            dd = dd + 1;
        }
        permute(
            depth_to_now,
            0,
            depth,
            orig_verts_g,
            verts_g,
            collapsed_verts_g,
            collapsed_verts_h,
            g,
            h,
        )
    }
}

/// Tries every choice for the next position of the current class,
/// pruning branches whose placed prefix already mismatches.  Decides
/// exactly whether some reordering that keeps the placed prefix makes
/// every pair of edges agree; a `true` answer is an isomorphism witness
/// and the classes keep their contents.
#[verifier::loop_isolation(false)]
pub fn permute(
    depth_to_now: usize,
    sub_depth: usize,
    depth: usize,
    orig_verts_g: &Vec<Vec<usize>>,
    verts_g: &mut Vec<Vec<usize>>,
    collapsed_verts_g: &mut Vec<usize>,
    collapsed_verts_h: &Vec<usize>,
    g: &LabeledGraph,
    h: &LabeledGraph,
) -> (r: bool)
    requires
        iso_ctx(g, h, orig_verts_g@, collapsed_verts_h@),
        depth < orig_verts_g@.len(),
        class_multisets_match(old(verts_g)@, orig_verts_g@),
        sub_depth <= orig_verts_g@[depth as int]@.len(),
        depth_to_now == prefix_len(orig_verts_g@, depth as int),
    ensures
        r ==> graphs_isomorphic(&g.inner, &h.inner),
        class_multisets_match(final(verts_g)@, orig_verts_g@),
        forall|d: int| 0 <= d < depth ==> (#[trigger] final(verts_g)@[d])@ == old(verts_g)@[d]@,
        r == search_success(
            g,
            h,
            old(verts_g)@,
            collapsed_verts_h@,
            depth as int,
            sub_depth as int,
        ),
    decreases
            orig_verts_g@.len() - depth,
            0nat,
            orig_verts_g@[depth as int]@.len() - sub_depth,
{
    let ghost entry = verts_g@;
    let n_class = verts_g[depth].len();
    proof {
        assert(verts_g@[depth as int]@.to_multiset() == orig_verts_g@[depth as int]@.to_multiset());
        assert(verts_g@[depth as int]@.to_multiset().len() == verts_g@[depth as int]@.len());
        assert(orig_verts_g@[depth as int]@.to_multiset().len() == orig_verts_g@[depth as int]@.len());
        assert(n_class == orig_verts_g@[depth as int]@.len());
    }
    if sub_depth == n_class {
        let res = rec_iso_check(
            depth + 1,
            orig_verts_g,
            verts_g,
            collapsed_verts_h,
            collapsed_verts_g,
            g,
            h,
        );
        proof {
            let di = depth as int;
            let ch = collapsed_verts_h@;
            assert forall|vg: Seq<Vec<usize>>|
                #[trigger] search_ext(vg, entry, di, n_class as int) implies search_ext(
                vg,
                entry,
                di + 1,
                0,
            ) by {
                assert(vg[di]@.take(n_class as int) =~= vg[di]@);
                assert(entry[di]@.take(n_class as int) =~= entry[di]@);
                assert forall|d: int| 0 <= d < di + 1 implies (#[trigger] vg[d])@
                    == entry[d]@ by {}
                if di + 1 < vg.len() {
                    assert(vg[di + 1]@.take(0) =~= entry[di + 1]@.take(0));
                }
            }
            assert forall|vg: Seq<Vec<usize>>|
                #[trigger] search_ext(vg, entry, di + 1, 0) implies search_ext(
                vg,
                entry,
                di,
                n_class as int,
            ) by {
                assert(vg[di]@ == entry[di]@);
                assert(vg[di]@.take(n_class as int) =~= entry[di]@.take(n_class as int));
            }
            if search_success(g, h, entry, ch, di + 1, 0) {
                let vg = choose|vg: Seq<Vec<usize>>|
                    #[trigger] search_ext(vg, entry, di + 1, 0) && edges_match(
                        &g.inner,
                        &h.inner,
                        flat(vg),
                        ch,
                        g.inner.num_verts as int,
                    );
                assert(search_ext(vg, entry, di, n_class as int));
                assert(search_success(g, h, entry, ch, di, n_class as int));
            }
            if search_success(g, h, entry, ch, di, n_class as int) {
                let vg = choose|vg: Seq<Vec<usize>>|
                    #[trigger] search_ext(vg, entry, di, n_class as int) && edges_match(
                        &g.inner,
                        &h.inner,
                        flat(vg),
                        ch,
                        g.inner.num_verts as int,
                    );
                assert(search_ext(vg, entry, di + 1, 0));
                assert(search_success(g, h, entry, ch, di + 1, 0));
            }
        }
        return res;
    }
    proof {
        lemma_flat_take_succ(orig_verts_g@, depth as int);
        lemma_flat_take_prefix(orig_verts_g@, depth as int + 1);
        lemma_flat_take_prefix(orig_verts_g@, depth as int);
    }
    proof {
        assert forall|d: int| 0 <= d < entry.len() implies (#[trigger] entry[d])@.len()
            == orig_verts_g@[d]@.len() by {
            assert(entry[d]@.to_multiset().len() == entry[d]@.len());
            assert(orig_verts_g@[d]@.to_multiset().len() == orig_verts_g@[d]@.len());
        }
        lemma_prefix_len_same(entry, orig_verts_g@, depth as int);
    }
    if depth_to_now + sub_depth > 1 {
        proof {
            lemma_flat_perm_props(verts_g@, orig_verts_g@, g.inner.num_verts as int);
        }
        if !compare(
            g,
            h,
            depth_to_now + sub_depth,
            verts_g,
            collapsed_verts_g,
            collapsed_verts_h,
        ) {
            proof {
                let di = depth as int;
                let ch = collapsed_verts_h@;
                let nn = g.inner.num_verts as int;
                let kk = depth_to_now + sub_depth;
                assert forall|vg: Seq<Vec<usize>>|
                    #[trigger] search_ext(vg, entry, di, sub_depth as int) implies !edges_match(
                    &g.inner,
                    &h.inner,
                    flat(vg),
                    ch,
                    nn,
                ) by {
                    lemma_flat_prefix_agree(vg, entry, di, sub_depth as int);
                    if edges_match(&g.inner, &h.inner, flat(vg), ch, nn) {
                        assert forall|i2: int, j2: int|
                            0 <= i2 < j2 < kk implies g.inner.edge(
                            flat(entry)[i2] as int,
                            flat(entry)[j2] as int,
                        ) == h.inner.edge(ch[i2] as int, ch[j2] as int) by {
                            assert(flat(vg)[i2] == flat(entry)[i2]);
                            assert(flat(vg)[j2] == flat(entry)[j2]);
                            assert(g.inner.edge(flat(vg)[i2] as int, flat(vg)[j2] as int)
                                == h.inner.edge(ch[i2] as int, ch[j2] as int));
                        }
                        assert(edges_match(&g.inner, &h.inner, flat(entry), ch, kk as int));
                        assert(false);
                    }
                }
            }
            return false;
        }
    }
    let c = verts_g[depth].clone();
    proof {
        assert(c@ =~= verts_g@[depth as int]@);
        assert(c@ == entry[depth as int]@);
    }
    let mut i: usize = sub_depth;
    while i < n_class
        invariant
            iso_ctx(g, h, orig_verts_g@, collapsed_verts_h@),
            depth < orig_verts_g@.len(),
            sub_depth < n_class,
            sub_depth <= i <= n_class,
            n_class == orig_verts_g@[depth as int]@.len(),
            c@.len() == n_class,
            c@.to_multiset() == orig_verts_g@[depth as int]@.to_multiset(),
            class_multisets_match(verts_g@, orig_verts_g@),
            depth_to_now == prefix_len(orig_verts_g@, depth as int),
            verts_g@.len() == entry.len(),
            entry.len() == orig_verts_g@.len(),
            class_multisets_match(entry, orig_verts_g@),
            forall|d: int| 0 <= d < depth ==> (#[trigger] verts_g@[d])@ == entry[d]@,
            c@ == entry[depth as int]@,
            forall|vg: Seq<Vec<usize>>, i2: int|
                #![trigger search_ext(vg, entry, depth as int, sub_depth as int), c@[i2]]
                search_ext(vg, entry, depth as int, sub_depth as int) && edges_match(
                    &g.inner,
                    &h.inner,
                    flat(vg),
                    collapsed_verts_h@,
                    g.inner.num_verts as int,
                ) && sub_depth <= i2 < i ==> vg[depth as int]@[sub_depth as int] != c@[i2],
        decreases n_class - i,
    {
        let mut row = c.clone();
        proof {
            assert(row@ =~= c@);
        }
        let a = row[sub_depth];
        let b = row[i];
        row.set(sub_depth, b);
        row.set(i, a);
        proof {
            lemma_swap_multiset(c@, sub_depth as int, i as int);
            assert(row@ == c@.update(sub_depth as int, c@[i as int]).update(
                i as int,
                c@[sub_depth as int],
            ));
            assert(row@[sub_depth as int] == c@[i as int]);
            assert(row@.take(sub_depth as int) =~= c@.take(sub_depth as int));
        }
        verts_g.set(depth, row);
        proof {
            assert forall|d: int| 0 <= d < verts_g@.len() implies (#[trigger] verts_g@[d])@.to_multiset()
                == orig_verts_g@[d]@.to_multiset() by {}
        }
        let ghost cur_call = verts_g@;
        proof {
            assert(cur_call[depth as int]@ == row@);
            assert forall|d: int| 0 <= d < depth implies (#[trigger] cur_call[d])@ == entry[d]@ by {}
            assert forall|d: int|
                0 <= d < cur_call.len() implies (#[trigger] cur_call[d])@.to_multiset()
                == entry[d]@.to_multiset() && cur_call[d]@.len() == entry[d]@.len() by {
                assert(cur_call[d]@.to_multiset() == orig_verts_g@[d]@.to_multiset());
                assert(entry[d]@.to_multiset() == orig_verts_g@[d]@.to_multiset());
                assert(cur_call[d]@.to_multiset().len() == cur_call[d]@.len());
                assert(entry[d]@.to_multiset().len() == entry[d]@.len());
            }
        }
        if permute(
            depth_to_now,
            sub_depth + 1,
            depth,
            orig_verts_g,
            verts_g,
            collapsed_verts_g,
            collapsed_verts_h,
            g,
            h,
        ) {
            proof {
                let di = depth as int;
                let ch = collapsed_verts_h@;
                let nn = g.inner.num_verts as int;
                let vg = choose|vg: Seq<Vec<usize>>|
                    #[trigger] search_ext(vg, cur_call, di, sub_depth as int + 1) && edges_match(
                        &g.inner,
                        &h.inner,
                        flat(vg),
                        ch,
                        nn,
                    );
                assert(search_ext(vg, entry, di, sub_depth as int)) by {
                    assert forall|d: int|
                        0 <= d < vg.len() implies (#[trigger] vg[d])@.len() == entry[d]@.len()
                        && vg[d]@.to_multiset() == entry[d]@.to_multiset() by {
                        assert(vg[d]@.len() == cur_call[d]@.len());
                        assert(vg[d]@.to_multiset() == cur_call[d]@.to_multiset());
                    }
                    assert forall|d: int| 0 <= d < di implies (#[trigger] vg[d])@ == entry[d]@ by {
                        assert(vg[d]@ == cur_call[d]@);
                    }
                    assert(vg[di]@.take(sub_depth as int) =~= entry[di]@.take(
                        sub_depth as int,
                    )) by {
                        assert(vg[di]@.take(sub_depth as int + 1) == cur_call[di]@.take(
                            sub_depth as int + 1,
                        ));
                        assert forall|t: int|
                            0 <= t < sub_depth implies vg[di]@[t] == entry[di]@[t] by {
                            assert(vg[di]@.take(sub_depth as int + 1)[t] == row@.take(
                                sub_depth as int + 1,
                            )[t]);
                            assert(row@.take(sub_depth as int)[t] == c@.take(sub_depth as int)[t]);
                        }
                    }
                }
                assert(search_success(g, h, entry, ch, di, sub_depth as int));
                assert forall|d: int| 0 <= d < di implies (#[trigger] verts_g@[d])@
                    == entry[d]@ by {
                    assert(verts_g@[d]@ == cur_call[d]@);
                }
            }
            return true;
        }
        proof {
            let di = depth as int;
            let ch = collapsed_verts_h@;
            let nn = g.inner.num_verts as int;
            assert forall|vg: Seq<Vec<usize>>, i2: int|
                #![trigger search_ext(vg, entry, di, sub_depth as int), c@[i2]]
                search_ext(vg, entry, di, sub_depth as int) && edges_match(
                    &g.inner,
                    &h.inner,
                    flat(vg),
                    ch,
                    nn,
                ) && sub_depth <= i2 < i + 1 implies vg[di]@[sub_depth as int] != c@[i2] by {
                if i2 == i as int && search_ext(vg, entry, di, sub_depth as int) && edges_match(
                    &g.inner,
                    &h.inner,
                    flat(vg),
                    ch,
                    nn,
                ) && vg[di]@[sub_depth as int] == c@[i as int] {
                    assert(search_ext(vg, cur_call, di, sub_depth as int + 1)) by {
                        assert forall|d: int|
                            0 <= d < vg.len() implies (#[trigger] vg[d])@.len()
                            == cur_call[d]@.len() && vg[d]@.to_multiset()
                            == cur_call[d]@.to_multiset() by {
                            assert(vg[d]@.len() == entry[d]@.len());
                            assert(vg[d]@.to_multiset() == entry[d]@.to_multiset());
                        }
                        assert forall|d: int|
                            0 <= d < di implies (#[trigger] vg[d])@ == cur_call[d]@ by {
                            assert(vg[d]@ == entry[d]@);
                        }
                        assert(vg[di]@.take(sub_depth as int + 1) =~= cur_call[di]@.take(
                            sub_depth as int + 1,
                        )) by {
                            assert forall|t: int|
                                0 <= t < sub_depth + 1 implies vg[di]@[t] == row@[t] by {
                                if t < sub_depth {
                                    assert(vg[di]@.take(sub_depth as int)[t] == entry[di]@.take(
                                        sub_depth as int,
                                    )[t]);
                                    assert(row@.take(sub_depth as int)[t] == c@.take(
                                        sub_depth as int,
                                    )[t]);
                                } else {
                                    assert(vg[di]@[t] == c@[i as int]);
                                    assert(row@[sub_depth as int] == c@[i as int]);
                                }
                            }
                        }
                    }
                    assert(search_success(g, h, cur_call, ch, di, sub_depth as int + 1));
                    assert(false);
                }
            }
        }
        i = i + 1;
    }
    proof {
        let di = depth as int;
        let ch = collapsed_verts_h@;
        let nn = g.inner.num_verts as int;
        assert forall|vg: Seq<Vec<usize>>|
            #[trigger] search_ext(vg, entry, di, sub_depth as int) implies !edges_match(
            &g.inner,
            &h.inner,
            flat(vg),
            ch,
            nn,
        ) by {
            if edges_match(&g.inner, &h.inner, flat(vg), ch, nn) {
                assert(vg[di]@.len() == entry[di]@.len());
                assert(vg[di]@.to_multiset() == entry[di]@.to_multiset());
                lemma_value_in_suffix(vg[di]@, c@, sub_depth as int);
                let i2 = choose|i2: int|
                    sub_depth as int <= i2 < c@.len() && c@[i2] == vg[di]@[sub_depth as int];
                assert(vg[di]@[sub_depth as int] != c@[i2]);
                assert(false);
            }
        }
    }
    return false;
}

/// Decides whether a colour-class-respecting relabeling realizes `g` as
/// `h`.  A `true` answer always means the graphs are isomorphic; the
/// search is restricted to permutations within each colour class, the
/// only candidates that can succeed for graphs that share a chunk.
/// Identical labeled graphs short-circuit through the identity ordering,
/// so the check is reflexive.
pub fn is_color_iso(g: &LabeledGraph, h: &LabeledGraph) -> (r: bool)
    requires
        g.wf(),
        h.wf(),
        g.inner.num_verts == h.inner.num_verts,
    ensures
        r ==> graphs_isomorphic(&g.inner, &h.inner),
        (g.inner.edges.len == h.inner.edges.len && g.inner.edges.vec@ == h.inner.edges.vec@
            && g.labels.0@ == h.labels.0@) ==> r,
{
    let n = g.inner.num_verts();
    if g.inner.edges.len == h.inner.edges.len && bytes_equal(&g.inner.edges.vec, &h.inner.edges.vec)
        && bytes_equal(&g.labels.0, &h.labels.0) {
        proof {
            let n_int = g.inner.num_verts as int;
            let idseq = Seq::new(g.inner.num_verts as nat, |i: int| i as usize);
            assert(is_perm_seq(idseq, n_int)) by {
                assert forall|i: int| 0 <= i < n_int implies (#[trigger] idseq[i] as int)
                    < n_int by {}
            }
            assert(g.inner.edges@ =~= h.inner.edges@);
            assert(edges_match(&g.inner, &h.inner, idseq, idseq, n_int)) by {
                assert forall|i: int, j: int| 0 <= i < j < n_int implies g.inner.edge(
                    idseq[i] as int,
                    idseq[j] as int,
                ) == h.inner.edge(idseq[i] as int, idseq[j] as int) by {}
            }
            assert(graphs_isomorphic(&g.inner, &h.inner));
        }
        return true;
    }
    let mut verts_g: Vec<Vec<usize>> = Vec::new();
    let mut verts_h: Vec<Vec<usize>> = Vec::new();
    let mut lab: usize = 0;
    while lab < n
        invariant
            g.wf(),
            h.wf(),
            n == g.inner.num_verts,
            n == h.inner.num_verts,
            verts_g@.len() == lab,
            verts_h@.len() == lab,
            lab <= n,
        decreases n - lab,
    {
        let mut row_g: Vec<usize> = Vec::new();
        let mut row_h: Vec<usize> = Vec::new();
        let mut i: usize = 0;
        while i < n
            invariant
                g.wf(),
                h.wf(),
                n == g.inner.num_verts,
                n == h.inner.num_verts,
                lab < n,
                i <= n,
            decreases n - i,
        {
            if g.labels.0[i] as usize == lab {
                row_g.push(i);
            }
            if h.labels.0[i] as usize == lab {
                row_h.push(i);
            }
            i = i + 1;
        }
        verts_g.push(row_g);
        verts_h.push(row_h);
        lab = lab + 1;
    }
    crate::sorting::sort_classes(&mut verts_g);
    crate::sorting::sort_classes(&mut verts_h);
    let mut orig_verts_g: Vec<Vec<usize>> = Vec::new();
    let mut d: usize = 0;
    while d < verts_g.len()
        invariant
            d <= verts_g@.len(),
            orig_verts_g@.len() == d,
            forall|t: int| 0 <= t < d ==> (#[trigger] orig_verts_g@[t])@ == verts_g@[t]@,
        decreases verts_g@.len() - d,
    {
        let row = verts_g[d].clone();
        proof {
            assert(row@ =~= verts_g@[d as int]@);
        }
        orig_verts_g.push(row);
        d = d + 1;
    }
    let mut collapsed_verts_h: Vec<usize> = Vec::new();
    collapse_verts(&verts_h, &mut collapsed_verts_h);
    if !is_permutation_vec(&collapsed_verts_h, n) {
        return false;
    }
    let mut flat_orig: Vec<usize> = Vec::new();
    collapse_verts(&orig_verts_g, &mut flat_orig);
    if !is_permutation_vec(&flat_orig, n) {
        return false;
    }
    if verts_g.len() != n {
        return false;
    }
    let mut start: usize = verts_g.len();
    while start > 0 && verts_g[start - 1].len() > 1
        invariant
            start <= verts_g@.len(),
        decreases start,
    {
        start = start - 1;
    }
    let mut collapsed_verts_g: Vec<usize> = Vec::new();
    proof {
        assert(class_multisets_match(verts_g@, orig_verts_g@));
        assert(iso_ctx(g, h, orig_verts_g@, collapsed_verts_h@));
    }
    rec_iso_check(
        start,
        &orig_verts_g,
        &mut verts_g,
        &collapsed_verts_h,
        &mut collapsed_verts_g,
        g,
        h,
    )
}

/// The raw signatures `raw` sort to `key` and normalize to `norm`.
pub open spec fn raw_matches(key: Seq<u32>, raw: Seq<u32>, norm: Seq<u8>) -> bool {
    &&& raw.len() == key.len()
    &&& raw.sort_by(u32_leq()) == key
    &&& norm == normalize_spec(raw, key)
}

/// The labeled graph belongs in the chunk keyed by `key`: some raw
/// signature vector sorts to the key and normalizes to its labels.
pub open spec fn member_ok(key: Seq<u32>, lg: LabeledGraph) -> bool {
    &&& lg.wf()
    &&& lg.inner.num_verts == key.len()
    &&& exists|raw: Seq<u32>| #[trigger] raw_matches(key, raw, lg.labels.0@)
}

/// Some slot of the old pending list held exactly this entry.
pub open spec fn from_unchecked(olds: Seq<Option<LabeledGraph>>, lg: LabeledGraph) -> bool {
    exists|j: int| 0 <= j < olds.len() && olds[j] == Some(lg)
}

/// The list keeps this entry, or keeps a representative isomorphic to
/// it.
pub open spec fn kept_or_iso(checked: Seq<LabeledGraph>, lg: LabeledGraph) -> bool {
    exists|t: int|
        0 <= t < checked.len() && (checked[t] == lg || graphs_isomorphic(
            &checked[t].inner,
            &lg.inner,
        ))
}

/// The fate of the `k`-th extension of `parent` is decided: either it
/// stands in `out`, or that extension is disqualified by the forbidden
/// pair.
pub open spec fn ext_covered(parent: Graph, k: int, out: Seq<Graph>, r: u32, s: u32) -> bool {
    ||| exists|t: int| 0 <= t < out.len() && is_extension(&parent, #[trigger] out[t], k)
    ||| exists|e: Graph| #[trigger] is_extension(&parent, e, k) && crate::graph_like::forbids_spec(
        &e,
        r,
        s,
    )
}

/// A decided extension stays decided when the output grows.
pub proof fn lemma_ext_covered_grow(parent: Graph, k: int, out: Seq<Graph>, x: Graph, r: u32, s: u32)
    requires
        ext_covered(parent, k, out, r, s),
    ensures
        ext_covered(parent, k, out.push(x), r, s),
{
    if exists|t: int| 0 <= t < out.len() && is_extension(&parent, #[trigger] out[t], k) {
        let t = choose|t: int| 0 <= t < out.len() && is_extension(&parent, #[trigger] out[t], k);
        assert(out.push(x)[t] == out[t]);
        assert(is_extension(&parent, out.push(x)[t], k));
    }
}

/// A bucket of labeled graphs sharing one sorted signature multiset.
/// `checked` holds representatives known pairwise distinct, `unchecked`
/// candidates awaiting deduplication, with tombstones for entries already
/// recognised as duplicates.
#[derive(Debug)]
pub struct Chunk {
    pub comp: u64,
    pub labeling_sorted: ChunkLabeling,
    pub checked: Vec<LabeledGraph>,
    pub unchecked: Vec<Option<LabeledGraph>>,
}

impl Chunk {
    pub open spec fn key(&self) -> Seq<u32> {
        self.labeling_sorted.0@
    }

    pub open spec fn wf(&self) -> bool {
        &&& sorted_by(self.key(), u32_leq())
        &&& 1 <= self.key().len() <= 20
        &&& self.comp == complexity(self.key())
        &&& forall|i: int|
            0 <= i < self.checked@.len() ==> member_ok(self.key(), #[trigger] self.checked@[i])
        &&& forall|i: int|
            0 <= i < self.unchecked@.len() ==> ((#[trigger] self.unchecked@[i]) matches Some(lg)
                ==> member_ok(self.key(), lg))
    }

    /// An empty chunk for the given sorted key; `comp` is the product of
    /// the factorials of the key's tie run lengths, fixed at creation.
    pub fn from_sorted_label(l: ChunkLabeling) -> (r: Self)
        requires
            sorted_by(l.0@, u32_leq()),
            1 <= l.0@.len() <= 20,
        ensures
            r.wf(),
            r.key() == l.0@,
            r.checked@.len() == 0,
            r.unchecked@.len() == 0,
            r.comp == complexity(l.0@),
    {
        let comp = compute_complexity(&l.0);
        Chunk { comp, labeling_sorted: l, checked: Vec::new(), unchecked: Vec::new() }
    }

    /// Two-stage deduplication: first each pending candidate is tested
    /// against every known representative, then the remaining candidates
    /// against each other, promoting the survivors.  Every candidate
    /// either survives into `checked` or is isomorphic to a survivor.
    pub fn clean_isos(&mut self)
        requires
            old(self).wf(),
        ensures
            final(self).wf(),
            final(self).key() == old(self).key(),
            final(self).comp == old(self).comp,
            final(self).unchecked@.len() == 0,
            final(self).checked@.len() >= old(self).checked@.len(),
            forall|t: int|
                0 <= t < old(self).checked@.len() ==> final(self).checked@[t] == old(self).checked@[t],
            forall|t: int|
                old(self).checked@.len() <= t < final(self).checked@.len() ==> from_unchecked(
                    old(self).unchecked@,
                    #[trigger] final(self).checked@[t],
                ),
            forall|j: int|
                0 <= j < old(self).unchecked@.len() ==> ((#[trigger] old(self).unchecked@[j])
                    matches Some(lg) ==> kept_or_iso(final(self).checked@, lg)),
            exists|js: Seq<int>|
                #![trigger js.len()]
                ({
                    &&& js.len() == final(self).checked@.len() - old(self).checked@.len()
                    &&& (forall|a: int, b: int| 0 <= a < b < js.len() ==> js[a] < js[b])
                    &&& forall|t: int|
                        0 <= t < js.len() ==> 0 <= #[trigger] js[t] < old(
                            self,
                        ).unchecked@.len() && old(self).unchecked@[js[t]] == Some(
                            final(self).checked@[old(self).checked@.len() + t],
                        )
                }),
    {
        let ghost key = self.labeling_sorted.0@;
        let mut checked_l: Vec<LabeledGraph> = Vec::new();
        let mut unchecked_l: Vec<Option<LabeledGraph>> = Vec::new();
        core::mem::swap(&mut self.checked, &mut checked_l);
        core::mem::swap(&mut self.unchecked, &mut unchecked_l);
        let ghost old_checked = checked_l@;
        let ghost old_unchecked = unchecked_l@;
        let mut ci: usize = 0;
        while ci < checked_l.len()
            invariant
                ci <= checked_l@.len(),
                checked_l@ == old_checked,
                1 <= key.len() <= 20,
                forall|i: int|
                    0 <= i < checked_l@.len() ==> member_ok(key, #[trigger] checked_l@[i]),
                unchecked_l@.len() == old_unchecked.len(),
                forall|j: int|
                    0 <= j < old_unchecked.len() ==> ((#[trigger] old_unchecked[j]) matches Some(
                        lg,
                    ) ==> member_ok(key, lg)),
                forall|j: int|
                    0 <= j < unchecked_l@.len() ==> ((#[trigger] unchecked_l@[j]) matches Some(lg)
                        ==> old_unchecked[j] == Some(lg)),
                forall|j: int|
                    0 <= j < old_unchecked.len() ==> ((#[trigger] old_unchecked[j]) matches Some(
                        lg,
                    ) ==> (unchecked_l@[j] == Some(lg) || kept_or_iso(checked_l@, lg))),
            decreases checked_l@.len() - ci,
        {
            let mut uj: usize = 0;
            while uj < unchecked_l.len()
                invariant
                    ci < checked_l@.len(),
                    uj <= unchecked_l@.len(),
                    checked_l@ == old_checked,
                    1 <= key.len() <= 20,
                    forall|i: int|
                        0 <= i < checked_l@.len() ==> member_ok(key, #[trigger] checked_l@[i]),
                    unchecked_l@.len() == old_unchecked.len(),
                    forall|j: int|
                        0 <= j < old_unchecked.len() ==> ((#[trigger] old_unchecked[j]) matches
                            Some(lg) ==> member_ok(key, lg)),
                    forall|j: int|
                        0 <= j < unchecked_l@.len() ==> ((#[trigger] unchecked_l@[j]) matches Some(
                            lg,
                        ) ==> old_unchecked[j] == Some(lg)),
                    forall|j: int|
                        0 <= j < old_unchecked.len() ==> ((#[trigger] old_unchecked[j]) matches
                            Some(lg) ==> (unchecked_l@[j] == Some(lg) || kept_or_iso(
                            checked_l@,
                            lg,
                        ))),
                decreases unchecked_l@.len() - uj,
            {
                let doomed = match &unchecked_l[uj] {
                    Some(lg) => is_color_iso(&checked_l[ci], lg),
                    None => false,
                };
                if doomed {
                    proof {
                        let lg = unchecked_l@[uj as int]->0;
                        assert(graphs_isomorphic(&checked_l@[ci as int].inner, &lg.inner));
                        assert(kept_or_iso(checked_l@, lg));
                    }
                    unchecked_l.set(uj, None);
                }
                uj = uj + 1;
            }
            ci = ci + 1;
        }
        let ghost mut js: Seq<int> = Seq::empty();
        let mut i: usize = 0;
        while i < unchecked_l.len()
            invariant
                i <= unchecked_l@.len(),
                1 <= key.len() <= 20,
                js.len() == checked_l@.len() - old_checked.len(),
                forall|a: int, b: int| 0 <= a < b < js.len() ==> js[a] < js[b],
                forall|t: int|
                    0 <= t < js.len() ==> 0 <= #[trigger] js[t] < i && old_unchecked[js[t]] == Some(
                        checked_l@[old_checked.len() + t],
                    ),
                checked_l@.len() >= old_checked.len(),
                forall|t: int| 0 <= t < old_checked.len() ==> checked_l@[t] == old_checked[t],
                forall|t: int|
                    old_checked.len() <= t < checked_l@.len() ==> from_unchecked(
                        old_unchecked,
                        #[trigger] checked_l@[t],
                    ),
                forall|i2: int|
                    0 <= i2 < checked_l@.len() ==> member_ok(key, #[trigger] checked_l@[i2]),
                unchecked_l@.len() == old_unchecked.len(),
                forall|j: int|
                    0 <= j < old_unchecked.len() ==> ((#[trigger] old_unchecked[j]) matches Some(
                        lg,
                    ) ==> member_ok(key, lg)),
                forall|j: int| 0 <= j < i ==> unchecked_l@[j] is None,
                forall|j: int|
                    0 <= j < unchecked_l@.len() ==> ((#[trigger] unchecked_l@[j]) matches Some(lg)
                        ==> old_unchecked[j] == Some(lg)),
                forall|j: int|
                    0 <= j < old_unchecked.len() ==> ((#[trigger] old_unchecked[j]) matches Some(
                        lg,
                    ) ==> (unchecked_l@[j] == Some(lg) || kept_or_iso(checked_l@, lg))),
            decreases unchecked_l@.len() - i,
        {
            let ghost entry_un = unchecked_l@;
            let mut slot: Option<LabeledGraph> = None;
            unchecked_l.set_and_swap(i, &mut slot);
            match slot {
                Some(lgv) => {
                    let ghost lgv_snap = lgv;
                    proof {
                        assert(entry_un[i as int] == Some(lgv));
                        assert(old_unchecked[i as int] == Some(lgv));
                        assert(member_ok(key, lgv));
                        assert forall|j2: int|
                            0 <= j2 < old_unchecked.len() implies ((#[trigger] old_unchecked[j2])
                            matches Some(lg) ==> (unchecked_l@[j2] == Some(lg) || lg == lgv
                            || graphs_isomorphic(&lgv.inner, &lg.inner) || kept_or_iso(
                            checked_l@,
                            lg,
                        ))) by {
                            if old_unchecked[j2] is Some {
                                let lg = old_unchecked[j2]->0;
                                if j2 == i {
                                    assert(lg == lgv);
                                } else {
                                    assert(unchecked_l@[j2] == entry_un[j2]);
                                }
                            }
                        }
                    }
                    let mut j: usize = i + 1;
                    while j < unchecked_l.len()
                        invariant
                            i < j <= unchecked_l@.len(),
                            i < unchecked_l@.len(),
                            lgv == lgv_snap,
                            member_ok(key, lgv),
                            old_unchecked[i as int] == Some(lgv),
                            1 <= key.len() <= 20,
                            js.len() == checked_l@.len() - old_checked.len(),
                            forall|a: int, b: int| 0 <= a < b < js.len() ==> js[a] < js[b],
                            forall|t: int|
                                0 <= t < js.len() ==> 0 <= #[trigger] js[t] < i
                                    && old_unchecked[js[t]] == Some(
                                    checked_l@[old_checked.len() + t],
                                ),
                            checked_l@.len() >= old_checked.len(),
                            forall|t: int|
                                0 <= t < old_checked.len() ==> checked_l@[t] == old_checked[t],
                            forall|t: int|
                                old_checked.len() <= t < checked_l@.len() ==> from_unchecked(
                                    old_unchecked,
                                    #[trigger] checked_l@[t],
                                ),
                            forall|i2: int|
                                0 <= i2 < checked_l@.len() ==> member_ok(
                                    key,
                                    #[trigger] checked_l@[i2],
                                ),
                            unchecked_l@.len() == old_unchecked.len(),
                            forall|j2: int|
                                0 <= j2 < old_unchecked.len() ==> ((#[trigger] old_unchecked[j2])
                                    matches Some(lg) ==> member_ok(key, lg)),
                            forall|j2: int| 0 <= j2 <= i ==> unchecked_l@[j2] is None,
                            forall|j2: int|
                                0 <= j2 < unchecked_l@.len() ==> ((#[trigger] unchecked_l@[j2])
                                    matches Some(lg) ==> old_unchecked[j2] == Some(lg)),
                            forall|j2: int|
                                0 <= j2 < old_unchecked.len() ==> ((#[trigger] old_unchecked[j2])
                                    matches Some(lg) ==> (unchecked_l@[j2] == Some(lg) || lg == lgv
                                    || graphs_isomorphic(&lgv.inner, &lg.inner) || kept_or_iso(
                                    checked_l@,
                                    lg,
                                ))),
                        decreases unchecked_l@.len() - j,
                    {
                        let doomed = match &unchecked_l[j] {
                            Some(hh) => is_color_iso(&lgv, hh),
                            None => false,
                        };
                        if doomed {
                            unchecked_l.set(j, None);
                        }
                        j = j + 1;
                    }
                    let ghost pre_checked = checked_l@;
                    checked_l.push(lgv);
                    proof {
                        let last = checked_l@.len() - 1;
                        assert(checked_l@[last] == lgv_snap);
                        let ghost js_pre = js;
                        js = js.push(i as int);
                        assert forall|t: int|
                            0 <= t < js.len() implies 0 <= #[trigger] js[t] < i + 1
                                && old_unchecked[js[t]] == Some(
                                checked_l@[old_checked.len() + t],
                            ) by {
                            if t < js_pre.len() {
                                assert(js[t] == js_pre[t]);
                                assert(checked_l@[old_checked.len() + t] == pre_checked[old_checked.len() + t]);
                            } else {
                                assert(js[t] == i as int);
                                assert(checked_l@[old_checked.len() + t] == lgv_snap);
                            }
                        }
                        assert(from_unchecked(old_unchecked, checked_l@[last])) by {
                            assert(old_unchecked[i as int] == Some(checked_l@[last]));
                        }
                        assert forall|t: int|
                            old_checked.len() <= t < checked_l@.len() implies from_unchecked(
                                old_unchecked,
                                #[trigger] checked_l@[t],
                            ) by {
                            if t < last {
                                assert(checked_l@[t] == pre_checked[t]);
                                assert(from_unchecked(old_unchecked, pre_checked[t]));
                            }
                        }
                        assert forall|j2: int|
                            0 <= j2 < old_unchecked.len() implies ((#[trigger] old_unchecked[j2])
                            matches Some(lg) ==> (unchecked_l@[j2] == Some(lg) || kept_or_iso(
                            checked_l@,
                            lg,
                        ))) by {
                            if old_unchecked[j2] is Some {
                                let lg = old_unchecked[j2]->0;
                                if unchecked_l@[j2] == Some(lg) {
                                } else if lg == lgv_snap {
                                    assert(checked_l@[last] == lg);
                                    assert(kept_or_iso(checked_l@, lg));
                                } else if graphs_isomorphic(&lgv_snap.inner, &lg.inner) {
                                    assert(checked_l@[last].inner == lgv_snap.inner);
                                    assert(graphs_isomorphic(&checked_l@[last].inner, &lg.inner));
                                    assert(kept_or_iso(checked_l@, lg));
                                } else {
                                    assert(kept_or_iso(pre_checked, lg));
                                    let t = choose|t: int|
                                        0 <= t < pre_checked.len() && (#[trigger] pre_checked[t]
                                            == lg || graphs_isomorphic(
                                            &pre_checked[t].inner,
                                            &lg.inner,
                                        ));
                                    assert(checked_l@[t] == pre_checked[t]);
                                    assert(kept_or_iso(checked_l@, lg));
                                }
                            }
                        }
                    }
                },
                None => {},
            }
            i = i + 1;
        }
        unchecked_l.clear();
        let ghost final_checked = checked_l@;
        self.checked = checked_l;
        self.unchecked = unchecked_l;
        proof {
            assert(self.checked@ == final_checked);
            assert(js.len() == self.checked@.len() - old_checked.len());
            assert forall|t: int|
                0 <= t < js.len() implies 0 <= #[trigger] js[t] < old_unchecked.len()
                    && old_unchecked[js[t]] == Some(
                    self.checked@[old_checked.len() + t],
                ) by {
                assert(self.checked@[old_checked.len() + t] == final_checked[old_checked.len()
                    + t]);
            }
        }
    }

    /// The children of every representative that the forbidden-pair
    /// filter admits: every emitted graph passes the filter and extends a
    /// representative, and conversely the fate of every extension of
    /// every representative is decided by the output.
    pub fn get_next_size(&self, r: u32, s: u32) -> (out: Vec<Graph>)
        requires
            self.wf(),
            self.key().len() < 20,
        ensures
            forall|t: int|
                0 <= t < out@.len() ==> ((#[trigger] out@[t]).wf() && out@[t].num_verts
                    == self.key().len() + 1 && !crate::graph_like::forbids_spec(&out@[t], r, s)
                    && exists|c: int, k: int|
                    0 <= c < self.checked@.len() && is_extension(
                        &self.checked@[c].inner,
                        out@[t],
                        k,
                    )),
            forall|c: int, k: int|
                0 <= c < self.checked@.len() && 0 <= k < pow2(self.key().len() as nat)
                    ==> #[trigger] ext_covered(self.checked@[c].inner, k, out@, r, s),
    {
        let mut out: Vec<Graph> = Vec::new();
        let mut c: usize = 0;
        while c < self.checked.len()
            invariant
                self.wf(),
                self.key().len() < 20,
                c <= self.checked@.len(),
                forall|t: int|
                    0 <= t < out@.len() ==> ((#[trigger] out@[t]).wf() && out@[t].num_verts
                        == self.key().len() + 1 && !crate::graph_like::forbids_spec(&out@[t], r, s)
                        && exists|c2: int, k: int|
                        0 <= c2 < self.checked@.len() && is_extension(
                            &self.checked@[c2].inner,
                            out@[t],
                            k,
                        )),
                forall|c2: int, k: int|
                    0 <= c2 < c && 0 <= k < pow2(self.key().len() as nat)
                        ==> #[trigger] ext_covered(self.checked@[c2].inner, k, out@, r, s),
            decreases self.checked@.len() - c,
        {
            proof {
                assert(member_ok(self.key(), self.checked@[c as int]));
            }
            let mut kids = self.checked[c].inner.get_next_size();
            let ghost parent = self.checked@[c as int].inner;
            let ghost kids_snap = kids@;
            proof {
                assert(kids_snap.len() == pow2(self.key().len() as nat));
            }
            while kids.len() > 0
                invariant
                    self.wf(),
                    self.key().len() < 20,
                    c < self.checked@.len(),
                    parent == self.checked@[c as int].inner,
                    kids@.len() <= kids_snap.len(),
                    kids@ == kids_snap.take(kids@.len() as int),
                    forall|k: int|
                        0 <= k < kids_snap.len() ==> is_extension(&parent, #[trigger] kids_snap[k], k),
                    kids_snap.len() == pow2(self.key().len() as nat),
                    forall|t2: int|
                        0 <= t2 < out@.len() ==> ((#[trigger] out@[t2]).wf() && out@[t2].num_verts
                            == self.key().len() + 1 && !crate::graph_like::forbids_spec(
                            &out@[t2],
                            r,
                            s,
                        ) && exists|c2: int, k: int|
                            0 <= c2 < self.checked@.len() && is_extension(
                                &self.checked@[c2].inner,
                                out@[t2],
                                k,
                            )),
                    forall|c2: int, k: int|
                        0 <= c2 < c && 0 <= k < pow2(self.key().len() as nat)
                            ==> #[trigger] ext_covered(self.checked@[c2].inner, k, out@, r, s),
                    forall|k: int|
                        kids@.len() <= k < kids_snap.len() ==> #[trigger] ext_covered(
                            parent,
                            k,
                            out@,
                            r,
                            s,
                        ),
                decreases kids@.len(),
            {
                let ghost pre = kids@;
                let child_opt = kids.pop();
                let child = match child_opt {
                    Some(ch) => ch,
                    None => {
                        proof {
                            assert(false);
                        }
                        vstd::pervasive::unreached()
                    },
                };
                let ghost k = kids@.len() as int;
                proof {
                    assert(child == pre.last());
                    assert(pre[k] == kids_snap[k]);
                    assert(pre.last() == pre[k]);
                    assert(kids@ =~= kids_snap.take(kids@.len() as int));
                    assert(is_extension(&parent, child, k));
                }
                let keep = !crate::graph_like::has_kns(&child, r, s);
                if keep {
                    let ghost pre_out = out@;
                    out.push(child);
                    proof {
                        let lastt = out@.len() - 1;
                        assert(out@[lastt] == child);
                        assert(is_extension(&self.checked@[c as int].inner, out@[lastt], k));
                        assert forall|t2: int|
                            0 <= t2 < out@.len() implies ((#[trigger] out@[t2]).wf() && out@[t2].num_verts
                            == self.key().len() + 1 && !crate::graph_like::forbids_spec(
                            &out@[t2],
                            r,
                            s,
                        ) && exists|c2: int, k2: int|
                            0 <= c2 < self.checked@.len() && is_extension(
                                &self.checked@[c2].inner,
                                out@[t2],
                                k2,
                            )) by {
                            if t2 < lastt {
                                assert(out@[t2] == pre_out[t2]);
                            }
                        }
                        assert forall|c2: int, k2: int|
                            0 <= c2 < c && 0 <= k2 < pow2(self.key().len() as nat)
                                implies #[trigger] ext_covered(
                                self.checked@[c2].inner,
                                k2,
                                out@,
                                r,
                                s,
                            ) by {
                            lemma_ext_covered_grow(self.checked@[c2].inner, k2, pre_out, child, r, s);
                        }
                        assert forall|k2: int|
                            kids@.len() <= k2 < kids_snap.len() implies #[trigger] ext_covered(
                                parent,
                                k2,
                                out@,
                                r,
                                s,
                            ) by {
                            if k2 == k {
                                assert(is_extension(&parent, out@[lastt], k));
                            } else {
                                lemma_ext_covered_grow(parent, k2, pre_out, child, r, s);
                            }
                        }
                    }
                } else {
                    proof {
                        assert(crate::graph_like::forbids_spec(&child, r, s));
                        assert(ext_covered(parent, k, out@, r, s));
                    }
                }
            }
            c = c + 1;
        }
        out
    }

    /// Releases the spare capacity of both lists.
    pub fn trim(&mut self)
        ensures
            *final(self) == *old(self),
    {
        shrink_vec(&mut self.checked);
        shrink_vec(&mut self.unchecked);
    }
}

/// Relies on `Vec::shrink_to_fit`: it only changes the allocation, never
/// the contents.
#[verifier::external_body]
fn shrink_vec<T>(v: &mut Vec<T>)
    ensures
        *final(v) == *old(v),
{
    v.shrink_to_fit()
}

/// The product of the factorials of the run lengths of a sorted
/// signature sequence: the chunk's branching bound.
pub fn compute_complexity(labeling_sorted: &Vec<u32>) -> (r: u64)
    requires
        1 <= labeling_sorted@.len() <= 20,
        sorted_by(labeling_sorted@, u32_leq()),
    ensures
        r == complexity(labeling_sorted@),
{
    let ghost sv = labeling_sorted@;
    let mut comp: u64 = 1;
    let mut current: u32 = labeling_sorted[0];
    let mut cur_streak: usize = 1;
    let ghost mut run_start: int = 0;
    let mut i: usize = 1;
    proof {
        assert(sv.take(0) =~= Seq::<u32>::empty());
    }
    while i < labeling_sorted.len()
        invariant
            sv == labeling_sorted@,
            1 <= sv.len() <= 20,
            sorted_by(sv, u32_leq()),
            1 <= i <= sv.len(),
            0 <= run_start < i,
            cur_streak == i - run_start,
            current == sv[run_start],
            forall|j: int| run_start <= j < i ==> #[trigger] sv[j] == sv[run_start],
            run_start == 0 || sv[run_start - 1] != sv[run_start],
            comp == complexity(sv.take(run_start)),
        decreases sv.len() - i,
    {
        if labeling_sorted[i] == current {
            cur_streak = cur_streak + 1;
        } else {
            proof {
                assert forall|j: int| 0 <= j < run_start implies #[trigger] sv[j] != sv[run_start] by {
                    assert(u32_leq()(sv[j], sv[run_start - 1]) || j == run_start - 1);
                    assert(u32_leq()(sv[run_start - 1], sv[run_start]));
                }
                lemma_complexity_run(sv, run_start, cur_streak as int);
                lemma_complexity_le_fact(sv.take(run_start + cur_streak));
                assert(sv.take(run_start + cur_streak).len() == run_start + cur_streak);
                crate::util::lemma_fact_mono((run_start + cur_streak) as nat, 20);
                crate::util::lemma_fact_20_value();
            }
            let f = crate::util::factorial(&cur_streak);
            comp = comp * f;
            current = labeling_sorted[i];
            proof {
                run_start = i as int;
            }
            cur_streak = 1;
        }
        i = i + 1;
    }
    proof {
        assert forall|j: int| 0 <= j < run_start implies #[trigger] sv[j] != sv[run_start] by {
            assert(u32_leq()(sv[j], sv[run_start - 1]) || j == run_start - 1);
            assert(u32_leq()(sv[run_start - 1], sv[run_start]));
        }
        lemma_complexity_run(sv, run_start, cur_streak as int);
        lemma_complexity_le_fact(sv.take(run_start + cur_streak));
        assert(sv.take(run_start + cur_streak).len() == run_start + cur_streak);
        crate::util::lemma_fact_mono((run_start + cur_streak) as nat, 20);
        crate::util::lemma_fact_20_value();
        assert(sv.take(run_start + cur_streak) =~= sv);
    }
    let f = crate::util::factorial(&cur_streak);
    comp * f
}

/// The rank of each raw signature in the sorted signature sequence, with
/// ties resolved to the first matching position.
pub fn normalize(unsorted: &Vec<u32>, sorted: &Vec<u32>) -> (out: Vec<u8>)
    requires
        unsorted@.len() == sorted@.len(),
        sorted@.len() <= 64,
        forall|i: int| 0 <= i < unsorted@.len() ==> sorted@.contains(#[trigger] unsorted@[i]),
    ensures
        out@ == normalize_spec(unsorted@, sorted@),
        forall|i: int| 0 <= i < out@.len() ==> (#[trigger] out@[i] as int) < sorted@.len(),
{
    let mut out: Vec<u8> = Vec::new();
    let mut i: usize = 0;
    while i < unsorted.len()
        invariant
            unsorted@.len() == sorted@.len(),
            sorted@.len() <= 64,
            forall|t: int| 0 <= t < unsorted@.len() ==> sorted@.contains(#[trigger] unsorted@[t]),
            i <= unsorted@.len(),
            out@.len() == i,
            forall|t: int|
                0 <= t < i ==> #[trigger] out@[t] == (first_index_of(sorted@, unsorted@[t]) as u8)
                    && (out@[t] as int) < sorted@.len(),
        decreases unsorted@.len() - i,
    {
        let x = unsorted[i];
        proof {
            lemma_first_index_char(sorted@, x);
        }
        let mut j: usize = 0;
        while sorted[j] != x
            invariant
                sorted@.len() <= 64,
                sorted@.contains(x),
                0 <= j <= first_index_of(sorted@, x),
                first_index_of(sorted@, x) < sorted@.len(),
                sorted@[first_index_of(sorted@, x)] == x,
                forall|t: int| 0 <= t < first_index_of(sorted@, x) ==> sorted@[t] != x,
            decreases sorted@.len() - j,
        {
            j = j + 1;
        }
        proof {
            assert(j == first_index_of(sorted@, x));
        }
        out.push(j as u8);
        i = i + 1;
    }
    proof {
        assert(out@ =~= normalize_spec(unsorted@, sorted@));
    }
    out
}

/// Whether two signature keys hold the same values.
pub fn keys_equal(a: &Vec<u32>, b: &Vec<u32>) -> (r: bool)
    ensures
        r <==> a@ == b@,
{
    if a.len() != b.len() {
        return false;
    }
    let mut i: usize = 0;
    while i < a.len()
        invariant
            a@.len() == b@.len(),
            i <= a@.len(),
            forall|t: int| 0 <= t < i ==> a@[t] == b@[t],
        decreases a@.len() - i,
    {
        if a[i] != b[i] {
            return false;
        }
        i = i + 1;
    }
    proof {
        assert(a@ =~= b@);
    }
    true
}

/// Whether two byte vectors hold the same values.
pub fn bytes_equal(a: &Vec<u8>, b: &Vec<u8>) -> (r: bool)
    ensures
        r <==> a@ == b@,
{
    if a.len() != b.len() {
        return false;
    }
    let mut i: usize = 0;
    while i < a.len()
        invariant
            a@.len() == b@.len(),
            i <= a@.len(),
            forall|t: int| 0 <= t < i ==> a@[t] == b@[t],
        decreases a@.len() - i,
    {
        if a[i] != b[i] {
            return false;
        }
        i = i + 1;
    }
    proof {
        assert(a@ =~= b@);
    }
    true
}

/// The number of known-distinct graphs over a chunk sequence.
pub open spec fn checked_sum(chunks: Seq<Chunk>) -> int
    decreases chunks.len(),
{
    if chunks.len() == 0 {
        0
    } else {
        checked_sum(chunks.drop_last()) + chunks.last().checked@.len()
    }
}

/// The number of pending graphs over a chunk sequence.
pub open spec fn unchecked_sum(chunks: Seq<Chunk>) -> int
    decreases chunks.len(),
{
    if chunks.len() == 0 {
        0
    } else {
        unchecked_sum(chunks.drop_last()) + chunks.last().unchecked@.len()
    }
}

/// Replacing one chunk shifts the two sums by the difference at that
/// position.
pub proof fn lemma_sums_update(s: Seq<Chunk>, i: int, c: Chunk)
    requires
        0 <= i < s.len(),
    ensures
        checked_sum(s.update(i, c)) == checked_sum(s) - s[i].checked@.len() + c.checked@.len(),
        unchecked_sum(s.update(i, c)) == unchecked_sum(s) - s[i].unchecked@.len()
            + c.unchecked@.len(),
    decreases s.len(),
{
    if i == s.len() - 1 {
        assert(s.update(i, c).drop_last() =~= s.drop_last());
        assert(s.update(i, c).last() == c);
    } else {
        assert(s.update(i, c).drop_last() =~= s.drop_last().update(i, c));
        assert(s.update(i, c).last() == s.last());
        lemma_sums_update(s.drop_last(), i, c);
    }
}

/// Appending one chunk adds its two list lengths to the sums.
pub proof fn lemma_sums_push(s: Seq<Chunk>, c: Chunk)
    ensures
        checked_sum(s.push(c)) == checked_sum(s) + c.checked@.len(),
        unchecked_sum(s.push(c)) == unchecked_sum(s) + c.unchecked@.len(),
{
    assert(s.push(c).drop_last() =~= s);
    assert(s.push(c).last() == c);
}

/// The graph satisfies the tier generator's promise: well formed, small
/// enough to extend again, not disqualified by the forbidden pair, and
/// an extension of some representative of the parent tier.
pub open spec fn child_prop(parent: Seq<Chunk>, x: Graph, r: u32, s: u32) -> bool {
    &&& x.wf()
    &&& x.num_verts <= 20
    &&& !crate::graph_like::forbids_spec(&x, r, s)
    &&& exists|pci: int, pcj: int, k: int|
        0 <= pci < parent.len() && 0 <= pcj < parent[pci].checked@.len() && is_extension(
            &parent[pci].checked@[pcj].inner,
            x,
            k,
        )
}

/// During production every routed graph satisfies the generator's
/// promise and no representative has been promoted yet.
pub open spec fn prod_inv(chunks: Seq<Chunk>, parent: Seq<Chunk>, r: u32, s: u32) -> bool {
    &&& forall|ci: int| 0 <= ci < chunks.len() ==> (#[trigger] chunks[ci]).checked@.len() == 0
    &&& forall|ci: int, j: int|
        0 <= ci < chunks.len() && 0 <= j < chunks[ci].unchecked@.len() ==> ((
        #[trigger] chunks[ci].unchecked@[j]) matches Some(lg) ==> child_prop(
            parent,
            lg.inner,
            r,
            s,
        ))
}

/// The fate of the `k`-th extension of the representative at
/// `(pci, pcj)` is pending: either that extension is disqualified by the
/// forbidden pair, or some pending entry of the output holds it.
pub open spec fn pend_covered(
    parent: Seq<Chunk>,
    pci: int,
    pcj: int,
    k: int,
    outc: Seq<Chunk>,
    r: u32,
    s: u32,
) -> bool {
    ||| exists|e: Graph|
        #[trigger] is_extension(&parent[pci].checked@[pcj].inner, e, k)
            && crate::graph_like::forbids_spec(&e, r, s)
    ||| exists|ci: int, j: int|
        0 <= ci < outc.len() && 0 <= j < outc[ci].unchecked@.len() && ((
        #[trigger] outc[ci].unchecked@[j]) matches Some(lg) && is_extension(
            &parent[pci].checked@[pcj].inner,
            lg.inner,
            k,
        ))
}

/// The fate of the `k`-th extension of the representative at
/// `(pci, pcj)` is settled by the finished tier: either that extension
/// is disqualified, or the tier keeps a representative equal or
/// isomorphic to it.
pub open spec fn gen_covered(
    parent: Seq<Chunk>,
    pci: int,
    pcj: int,
    k: int,
    outc: Seq<Chunk>,
    r: u32,
    s: u32,
) -> bool {
    ||| exists|e: Graph|
        #[trigger] is_extension(&parent[pci].checked@[pcj].inner, e, k)
            && crate::graph_like::forbids_spec(&e, r, s)
    ||| exists|e: Graph, ci: int, t: int|
        #![trigger is_extension(&parent[pci].checked@[pcj].inner, e, k), outc[ci].checked@[t]]
        is_extension(&parent[pci].checked@[pcj].inner, e, k) && 0 <= ci < outc.len() && 0 <= t
            < outc[ci].checked@.len() && (outc[ci].checked@[t].inner == e || graphs_isomorphic(
            &outc[ci].checked@[t].inner,
            &e,
        ))
}

/// A pending extension stays pending when chunks grow and old pending
/// entries keep their positions.
pub proof fn lemma_pend_grow(
    parent: Seq<Chunk>,
    pci: int,
    pcj: int,
    k: int,
    pre: Seq<Chunk>,
    post: Seq<Chunk>,
    r: u32,
    s: u32,
)
    requires
        pend_covered(parent, pci, pcj, k, pre, r, s),
        post.len() >= pre.len(),
        forall|ci: int|
            0 <= ci < pre.len() ==> (#[trigger] post[ci]).unchecked@.len()
                >= pre[ci].unchecked@.len(),
        forall|ci: int, j: int|
            0 <= ci < pre.len() && 0 <= j < pre[ci].unchecked@.len() ==> (
            #[trigger] post[ci].unchecked@[j]) == pre[ci].unchecked@[j],
    ensures
        pend_covered(parent, pci, pcj, k, post, r, s),
{
    if exists|ci: int, j: int|
        0 <= ci < pre.len() && 0 <= j < pre[ci].unchecked@.len() && ((
        #[trigger] pre[ci].unchecked@[j]) matches Some(lg) && is_extension(
            &parent[pci].checked@[pcj].inner,
            lg.inner,
            k,
        )) {
        let (ci, j) = choose|ci: int, j: int|
            0 <= ci < pre.len() && 0 <= j < pre[ci].unchecked@.len() && ((
            #[trigger] pre[ci].unchecked@[j]) matches Some(lg) && is_extension(
                &parent[pci].checked@[pcj].inner,
                lg.inner,
                k,
            ));
        assert(post[ci].unchecked@[j] == pre[ci].unchecked@[j]);
    }
}

/// Labels a graph with the signature engine and prepares its sorted key
/// and normalized labels.
fn label_graph(g: Graph, buf: &mut Vec<Vec<(u32, u32)>>) -> (r: (LabeledGraph, Vec<u32>))
    requires
        g.wf(),
        g.num_verts <= 20,
        old(buf)@.len() >= g.num_verts,
    ensures
        r.0.wf(),
        r.0.inner == g,
        sorted_by(r.1@, u32_leq()),
        1 <= r.1@.len() <= 20,
        r.1@.len() == g.num_verts,
        member_ok(r.1@, r.0),
        r.1@ == crate::labeling::label_spec(&g).sort_by(u32_leq()),
        r.0.labels.0@ == normalize_spec(crate::labeling::label_spec(&g), r.1@),
        final(buf)@.len() == old(buf)@.len(),
{
    let lbl = g.label(buf);
    proof {
        if g.num_verts < 2 {
            assert(lbl@ =~= seq![0u32]);
            assert(lbl@.len() == 1);
        }
    }
    let mut sortedv = lbl.clone();
    proof {
        assert(sortedv@ =~= lbl@);
    }
    crate::sorting::sort_u32(&mut sortedv);
    proof {
        assert forall|i: int| 0 <= i < lbl@.len() implies sortedv@.contains(
            #[trigger] lbl@[i],
        ) by {
            assert(lbl@.to_multiset().contains(lbl@[i]));
            assert(sortedv@.to_multiset().contains(lbl@[i]));
        }
    }
    let norm = normalize(&lbl, &sortedv);
    let lg = LabeledGraph { inner: g, labels: GraphLabeling(norm) };
    proof {
        assert(lg.wf());
        assert(raw_matches(sortedv@, lbl@, lg.labels.0@));
        assert(member_ok(sortedv@, lg));
    }
    (lg, sortedv)
}

/// The mapping from signature keys to chunks: all graphs on one vertex
/// count surviving the filter, grouped by key, each key held by one
/// chunk.
#[derive(Debug)]
pub struct Tier {
    pub chunks: Vec<Chunk>,
}

impl Tier {
    pub open spec fn wf(&self) -> bool {
        &&& forall|i: int| 0 <= i < self.chunks@.len() ==> (#[trigger] self.chunks@[i]).wf()
        &&& forall|i: int, j: int|
            0 <= i < j < self.chunks@.len() ==> self.chunks@[i].key() != self.chunks@[j].key()
    }

    pub fn count_chunks(&self) -> (r: usize)
        ensures
            r == self.chunks@.len(),
    {
        self.chunks.len()
    }

    /// The numbers of known-distinct and pending graphs, each saturating
    /// at the machine limit.
    pub fn count_graphs(&self) -> (r: (usize, usize))
        ensures
            checked_sum(self.chunks@) <= usize::MAX ==> r.0 == checked_sum(self.chunks@),
            unchecked_sum(self.chunks@) <= usize::MAX ==> r.1 == unchecked_sum(self.chunks@),
    {
        let mut checked: usize = 0;
        let mut unchecked: usize = 0;
        let mut i: usize = 0;
        while i < self.chunks.len()
            invariant
                i <= self.chunks@.len(),
                checked_sum(self.chunks@.take(i as int)) <= usize::MAX ==> checked == checked_sum(
                    self.chunks@.take(i as int),
                ),
                checked <= checked_sum(self.chunks@.take(i as int)),
                unchecked_sum(self.chunks@.take(i as int)) <= usize::MAX ==> unchecked
                    == unchecked_sum(self.chunks@.take(i as int)),
                unchecked <= unchecked_sum(self.chunks@.take(i as int)),
            decreases self.chunks@.len() - i,
        {
            proof {
                assert(self.chunks@.take(i + 1).drop_last() =~= self.chunks@.take(i as int));
                assert(self.chunks@.take(i + 1).last() == self.chunks@[i as int]);
            }
            checked = checked.saturating_add(self.chunks[i].checked.len());
            unchecked = unchecked.saturating_add(self.chunks[i].unchecked.len());
            i = i + 1;
        }
        proof {
            assert(self.chunks@.take(self.chunks@.len() as int) =~= self.chunks@);
        }
        (checked, unchecked)
    }

    /// The number of pending graphs; the reserved capacity is not
    /// tracked, so the second component mirrors the first.
    pub fn count_unchecked(&self) -> (r: (usize, usize))
        ensures
            unchecked_sum(self.chunks@) <= usize::MAX ==> r.0 == unchecked_sum(self.chunks@),
            r.1 == r.0,
    {
        let c = self.count_graphs();
        (c.1, c.1)
    }

    /// The one-graph tier that seeds the enumeration.
    pub fn from_graph(g: Graph) -> (r: Tier)
        requires
            g.wf(),
            g.num_verts <= 20,
        ensures
            r.wf(),
            r.chunks@.len() == 1,
            r.chunks@[0].checked@.len() == 1,
            r.chunks@[0].unchecked@.len() == 0,
            r.chunks@[0].checked@[0].inner == g,
            r.chunks@[0].key() == crate::labeling::label_spec(&g).sort_by(u32_leq()),
            r.chunks@[0].checked@[0].labels.0@ == normalize_spec(
                crate::labeling::label_spec(&g),
                r.chunks@[0].key(),
            ),
    {
        let nv = g.num_verts;
        let mut buffer: Vec<Vec<(u32, u32)>> = Vec::new();
        while buffer.len() < nv
            invariant
                buffer@.len() <= nv,
            decreases nv - buffer@.len(),
        {
            buffer.push(Vec::new());
        }
        let pair = label_graph(g, &mut buffer);
        let lg = pair.0;
        let key = pair.1;
        let mut chunk = Chunk::from_sorted_label(ChunkLabeling(key));
        chunk.checked.push(lg);
        let mut chunks: Vec<Chunk> = Vec::new();
        chunks.push(chunk);
        Tier { chunks }
    }

    /// Routes a labeled graph into the chunk of its key, creating the
    /// chunk if the key is new, and appends it to the known-distinct
    /// list.
    fn route_checked(&mut self, lg: LabeledGraph, key: Vec<u32>)
        requires
            old(self).wf(),
            member_ok(key@, lg),
            sorted_by(key@, u32_leq()),
            1 <= key@.len() <= 20,
        ensures
            final(self).wf(),
            final(self).chunks@.len() == old(self).chunks@.len() || final(self).chunks@.len()
                == old(self).chunks@.len() + 1,
            forall|ci: int|
                0 <= ci < old(self).chunks@.len() ==> (#[trigger] final(self).chunks@[ci]).key()
                    == old(self).chunks@[ci].key(),
            forall|ci: int|
                0 <= ci < old(self).chunks@.len() ==> (#[trigger] final(self).chunks@[ci]).unchecked@
                    == old(self).chunks@[ci].unchecked@,
            forall|ci: int, t: int|
                0 <= ci < final(self).chunks@.len() && 0 <= t
                    < final(self).chunks@[ci].checked@.len() ==> ((ci < old(self).chunks@.len() && t
                    < old(self).chunks@[ci].checked@.len() && old(self).chunks@[ci].checked@[t]
                    == (#[trigger] final(self).chunks@[ci].checked@[t])) || final(self).chunks@[ci].checked@[t] == lg),
            exists|ci: int|
                ({
                    &&& 0 <= ci < final(self).chunks@.len()
                    &&& (#[trigger] final(self).chunks@[ci]).key() == key@
                    &&& final(self).chunks@[ci].checked@.len() > 0
                    &&& final(self).chunks@[ci].checked@.last() == lg
                    &&& forall|cj: int|
                        0 <= cj < old(self).chunks@.len() && cj != ci ==> final(self).chunks@[cj]
                            == old(self).chunks@[cj]
                    &&& (ci < old(self).chunks@.len() ==> {
                        &&& final(self).chunks@.len() == old(self).chunks@.len()
                        &&& final(self).chunks@[ci].checked@ == old(self).chunks@[ci].checked@.push(lg)
                        &&& final(self).chunks@[ci].unchecked@ == old(self).chunks@[ci].unchecked@
                        &&& final(self).chunks@[ci].comp == old(self).chunks@[ci].comp
                    })
                    &&& (ci >= old(self).chunks@.len() ==> {
                        &&& ci == old(self).chunks@.len()
                        &&& final(self).chunks@.len() == old(self).chunks@.len() + 1
                        &&& final(self).chunks@[ci].unchecked@.len() == 0
                        &&& final(self).chunks@[ci].checked@ =~= Seq::empty().push(lg)
                    })
                }),
    {
        let mut idx: usize = 0;
        let mut found = false;
        while idx < self.chunks.len() && !found
            invariant
                idx <= self.chunks@.len(),
                self.wf(),
                found ==> idx < self.chunks@.len() && self.chunks@[idx as int].key() == key@,
                !found ==> forall|t: int| 0 <= t < idx ==> (#[trigger] self.chunks@[t]).key()
                    != key@,
            decreases self.chunks@.len() - idx + (if found {
                0int
            } else {
                1int
            }),
        {
            if keys_equal(&self.chunks[idx].labeling_sorted.0, &key) {
                found = true;
            } else {
                idx = idx + 1;
            }
        }
        if found {
            let mut tmp = Chunk {
                comp: 1,
                labeling_sorted: ChunkLabeling(Vec::new()),
                checked: Vec::new(),
                unchecked: Vec::new(),
            };
            self.chunks.set_and_swap(idx, &mut tmp);
            tmp.checked.push(lg);
            self.chunks.set_and_swap(idx, &mut tmp);
            proof {
                assert forall|i: int, j: int|
                    0 <= i < j < self.chunks@.len() implies self.chunks@[i].key()
                    != self.chunks@[j].key() by {}
                assert(self.chunks@[idx as int].key() == key@);
                assert(self.chunks@[idx as int].checked@.last() == lg);
                assert(self.chunks@[idx as int].checked@ == old(self).chunks@[idx as int].checked@.push(lg));
            }
        } else {
            let mut c = Chunk::from_sorted_label(ChunkLabeling(key));
            c.checked.push(lg);
            proof {
                assert(c.checked@ =~= Seq::empty().push(lg));
            }
            self.chunks.push(c);
            proof {
                assert forall|i: int, j: int|
                    0 <= i < j < self.chunks@.len() implies self.chunks@[i].key()
                    != self.chunks@[j].key() by {
                    if j == self.chunks@.len() - 1 {
                        assert(self.chunks@[i].key() != key@);
                    }
                }
                let last = self.chunks@.len() - 1;
                assert(self.chunks@[last].key() == key@);
                assert(self.chunks@[last].checked@.last() == lg);
            }
        }
    }

    /// Routes a labeled graph into the chunk of its key, creating the
    /// chunk if the key is new, and appends it to the pending list.
    fn route_unchecked(&mut self, lg: LabeledGraph, key: Vec<u32>)
        requires
            old(self).wf(),
            member_ok(key@, lg),
            sorted_by(key@, u32_leq()),
            1 <= key@.len() <= 20,
        ensures
            final(self).wf(),
            final(self).chunks@.len() == old(self).chunks@.len() || final(self).chunks@.len()
                == old(self).chunks@.len() + 1,
            forall|ci: int|
                0 <= ci < old(self).chunks@.len() ==> (#[trigger] final(self).chunks@[ci]).key()
                    == old(self).chunks@[ci].key(),
            forall|ci: int|
                0 <= ci < old(self).chunks@.len() ==> (#[trigger] final(self).chunks@[ci]).checked@
                    == old(self).chunks@[ci].checked@,
            final(self).chunks@.len() > old(self).chunks@.len() ==> final(self).chunks@.last().checked@.len() == 0,
            forall|ci: int|
                0 <= ci < old(self).chunks@.len() ==> (#[trigger] final(self).chunks@[ci]).unchecked@.len() >= old(self).chunks@[ci].unchecked@.len(),
            forall|ci: int, j: int|
                0 <= ci < old(self).chunks@.len() && 0 <= j
                    < old(self).chunks@[ci].unchecked@.len() ==> (#[trigger] final(self).chunks@[ci].unchecked@[j]) == old(self).chunks@[ci].unchecked@[j],
            forall|ci: int, j: int|
                0 <= ci < final(self).chunks@.len() && 0 <= j
                    < final(self).chunks@[ci].unchecked@.len() ==> ((
                #[trigger] final(self).chunks@[ci].unchecked@[j]) matches Some(lg2) ==> ((ci < old(self).chunks@.len() && j < old(self).chunks@[ci].unchecked@.len() && old(self).chunks@[ci].unchecked@[j] == Some(lg2)) || lg2 == lg)),
            exists|ci: int|
                ({
                    &&& 0 <= ci < final(self).chunks@.len()
                    &&& (#[trigger] final(self).chunks@[ci]).key() == key@
                    &&& final(self).chunks@[ci].unchecked@.len() > 0
                    &&& final(self).chunks@[ci].unchecked@.last() == Some(lg)
                    &&& forall|cj: int|
                        0 <= cj < old(self).chunks@.len() && cj != ci ==> final(self).chunks@[cj]
                            == old(self).chunks@[cj]
                    &&& (ci < old(self).chunks@.len() ==> {
                        &&& final(self).chunks@.len() == old(self).chunks@.len()
                        &&& final(self).chunks@[ci].unchecked@ == old(self).chunks@[ci].unchecked@.push(Some(lg))
                        &&& final(self).chunks@[ci].checked@ == old(self).chunks@[ci].checked@
                        &&& final(self).chunks@[ci].comp == old(self).chunks@[ci].comp
                    })
                    &&& (ci >= old(self).chunks@.len() ==> {
                        &&& ci == old(self).chunks@.len()
                        &&& final(self).chunks@.len() == old(self).chunks@.len() + 1
                        &&& final(self).chunks@[ci].checked@.len() == 0
                        &&& final(self).chunks@[ci].unchecked@ =~= Seq::empty().push(
                            Some(lg),
                        )
                    })
                }),
    {
        let mut idx: usize = 0;
        let mut found = false;
        while idx < self.chunks.len() && !found
            invariant
                idx <= self.chunks@.len(),
                self.wf(),
                found ==> idx < self.chunks@.len() && self.chunks@[idx as int].key() == key@,
                !found ==> forall|t: int| 0 <= t < idx ==> (#[trigger] self.chunks@[t]).key()
                    != key@,
            decreases self.chunks@.len() - idx + (if found {
                0int
            } else {
                1int
            }),
        {
            if keys_equal(&self.chunks[idx].labeling_sorted.0, &key) {
                found = true;
            } else {
                idx = idx + 1;
            }
        }
        if found {
            let mut tmp = Chunk {
                comp: 1,
                labeling_sorted: ChunkLabeling(Vec::new()),
                checked: Vec::new(),
                unchecked: Vec::new(),
            };
            self.chunks.set_and_swap(idx, &mut tmp);
            tmp.unchecked.push(Some(lg));
            self.chunks.set_and_swap(idx, &mut tmp);
            proof {
                assert forall|i: int, j: int|
                    0 <= i < j < self.chunks@.len() implies self.chunks@[i].key()
                    != self.chunks@[j].key() by {}
                assert(self.chunks@[idx as int].key() == key@);
                assert(self.chunks@[idx as int].unchecked@.last() == Some(lg));
            }
        } else {
            let mut c = Chunk::from_sorted_label(ChunkLabeling(key));
            c.unchecked.push(Some(lg));
            proof {
                assert(c.unchecked@ =~= Seq::empty().push(Some(lg)));
            }
            self.chunks.push(c);
            proof {
                assert forall|i: int, j: int|
                    0 <= i < j < self.chunks@.len() implies self.chunks@[i].key()
                    != self.chunks@[j].key() by {
                    if j == self.chunks@.len() - 1 {
                        assert(self.chunks@[i].key() != key@);
                    }
                }
                let last = self.chunks@.len() - 1;
                assert(self.chunks@[last].key() == key@);
                assert(self.chunks@[last].unchecked@.last() == Some(lg));
            }
        }
    }

    /// Labels a graph and routes it into the chunk of its key as a
    /// known-distinct representative.
    pub fn insert_checked(&mut self, g: Graph)
        requires
            old(self).wf(),
            g.wf(),
            g.num_verts <= 20,
        ensures
            final(self).wf(),
            checked_sum(final(self).chunks@) == checked_sum(old(self).chunks@) + 1,
            unchecked_sum(final(self).chunks@) == unchecked_sum(old(self).chunks@),
            exists|ci: int|
                ({
                    &&& 0 <= ci < final(self).chunks@.len()
                    &&& (#[trigger] final(self).chunks@[ci]).key() == crate::labeling::label_spec(&g).sort_by(u32_leq())
                    &&& final(self).chunks@[ci].checked@.len() > 0
                    &&& final(self).chunks@[ci].checked@.last().inner == g
                    &&& final(self).chunks@[ci].checked@.last().labels.0@ == normalize_spec(
                        crate::labeling::label_spec(&g),
                        final(self).chunks@[ci].key(),
                    )
                    &&& forall|cj: int|
                        0 <= cj < old(self).chunks@.len() && cj != ci ==> final(self).chunks@[cj]
                            == old(self).chunks@[cj]
                    &&& (ci < old(self).chunks@.len() ==> final(self).chunks@.len() == old(self).chunks@.len() && final(self).chunks@[ci].checked@ == old(self).chunks@[ci].checked@.push(final(self).chunks@[ci].checked@.last()) && final(self).chunks@[ci].unchecked@ == old(self).chunks@[ci].unchecked@)
                    &&& (ci >= old(self).chunks@.len() ==> ci == old(self).chunks@.len() && final(self).chunks@.len() == old(self).chunks@.len() + 1 && final(self).chunks@[ci].checked@.len() == 1 && final(self).chunks@[ci].unchecked@.len()
                        == 0)
                }),
    {
        let nv = g.num_verts;
        let mut buffer: Vec<Vec<(u32, u32)>> = Vec::new();
        while buffer.len() < nv
            invariant
                buffer@.len() <= nv,
            decreases nv - buffer@.len(),
        {
            buffer.push(Vec::new());
        }
        let ghost pre = self.chunks@;
        let pair = label_graph(g, &mut buffer);
        self.route_checked(pair.0, pair.1);
        proof {
            let ci = choose|ci: int|
                ({
                    &&& 0 <= ci < self.chunks@.len()
                    &&& (#[trigger] self.chunks@[ci]).key() == crate::labeling::label_spec(&g).sort_by(u32_leq())
                    &&& self.chunks@[ci].checked@.len() > 0
                    &&& self.chunks@[ci].checked@.last() == pair.0
                    &&& forall|cj: int|
                        0 <= cj < pre.len() && cj != ci ==> self.chunks@[cj] == pre[cj]
                    &&& (ci < pre.len() ==> self.chunks@.len() == pre.len()
                        && self.chunks@[ci].checked@ == pre[ci].checked@.push(pair.0)
                        && self.chunks@[ci].unchecked@ == pre[ci].unchecked@)
                    &&& (ci >= pre.len() ==> ci == pre.len() && self.chunks@.len() == pre.len() + 1
                        && self.chunks@[ci].unchecked@.len() == 0 && self.chunks@[ci].checked@ =~= Seq::empty().push(pair.0))
                });
            if ci < pre.len() {
                assert(self.chunks@ =~= pre.update(ci, self.chunks@[ci]));
                lemma_sums_update(pre, ci, self.chunks@[ci]);
            } else {
                assert(self.chunks@ =~= pre.push(self.chunks@[ci]));
                lemma_sums_push(pre, self.chunks@[ci]);
            }
        }
    }

    /// Labels a graph and routes it into the chunk of its key as a
    /// pending candidate; the caller supplies the labeling scratch
    /// buffer.
    pub fn insert_unchecked(&mut self, g: Graph, buf: &mut Vec<Vec<(u32, u32)>>)
        requires
            old(self).wf(),
            g.wf(),
            g.num_verts <= 20,
            old(buf)@.len() >= g.num_verts,
        ensures
            final(self).wf(),
            final(buf)@.len() == old(buf)@.len(),
            final(self).chunks@.len() == old(self).chunks@.len() || final(self).chunks@.len()
                == old(self).chunks@.len() + 1,
            checked_sum(final(self).chunks@) == checked_sum(old(self).chunks@),
            unchecked_sum(final(self).chunks@) == unchecked_sum(old(self).chunks@) + 1,
            forall|ci: int|
                0 <= ci < old(self).chunks@.len() ==> (#[trigger] final(self).chunks@[ci]).checked@
                    == old(self).chunks@[ci].checked@,
            final(self).chunks@.len() > old(self).chunks@.len() ==> final(self).chunks@.last().checked@.len() == 0,
            forall|ci: int|
                0 <= ci < old(self).chunks@.len() ==> (#[trigger] final(self).chunks@[ci]).unchecked@.len() >= old(self).chunks@[ci].unchecked@.len(),
            forall|ci: int, j: int|
                0 <= ci < old(self).chunks@.len() && 0 <= j
                    < old(self).chunks@[ci].unchecked@.len() ==> (#[trigger] final(self).chunks@[ci].unchecked@[j]) == old(self).chunks@[ci].unchecked@[j],
            forall|ci: int, j: int|
                0 <= ci < final(self).chunks@.len() && 0 <= j
                    < final(self).chunks@[ci].unchecked@.len() ==> ((
                #[trigger] final(self).chunks@[ci].unchecked@[j]) matches Some(lg2) ==> ((ci < old(self).chunks@.len() && j < old(self).chunks@[ci].unchecked@.len() && old(self).chunks@[ci].unchecked@[j] == Some(lg2)) || lg2.inner == g)),
            exists|ci: int|
                ({
                    &&& 0 <= ci < final(self).chunks@.len()
                    &&& (#[trigger] final(self).chunks@[ci]).key() == crate::labeling::label_spec(&g).sort_by(u32_leq())
                    &&& final(self).chunks@[ci].unchecked@.len() > 0
                    &&& (final(self).chunks@[ci].unchecked@.last() matches Some(lg2) && lg2.inner
                        == g && lg2.labels.0@ == normalize_spec(
                        crate::labeling::label_spec(&g),
                        final(self).chunks@[ci].key(),
                    ))
                }),
    {
        let ghost pre = self.chunks@;
        let pair = label_graph(g, buf);
        self.route_unchecked(pair.0, pair.1);
        proof {
            let ci = choose|ci: int|
                ({
                    &&& 0 <= ci < self.chunks@.len()
                    &&& (#[trigger] self.chunks@[ci]).key() == crate::labeling::label_spec(&g).sort_by(u32_leq())
                    &&& self.chunks@[ci].unchecked@.len() > 0
                    &&& self.chunks@[ci].unchecked@.last() == Some(pair.0)
                    &&& forall|cj: int|
                        0 <= cj < pre.len() && cj != ci ==> self.chunks@[cj] == pre[cj]
                    &&& (ci < pre.len() ==> self.chunks@.len() == pre.len()
                        && self.chunks@[ci].unchecked@ == pre[ci].unchecked@.push(Some(pair.0))
                        && self.chunks@[ci].checked@ == pre[ci].checked@)
                    &&& (ci >= pre.len() ==> ci == pre.len() && self.chunks@.len() == pre.len() + 1
                        && self.chunks@[ci].checked@.len() == 0 && self.chunks@[ci].unchecked@ =~= Seq::empty().push(Some(pair.0)))
                });
            if ci < pre.len() {
                assert(self.chunks@ =~= pre.update(ci, self.chunks@[ci]));
                lemma_sums_update(pre, ci, self.chunks@[ci]);
            } else {
                assert(self.chunks@ =~= pre.push(self.chunks@[ci]));
                lemma_sums_push(pre, self.chunks@[ci]);
            }
        }
    }

    /// Deduplicates every chunk.
    pub fn clean_all(&mut self)
        requires
            old(self).wf(),
        ensures
            final(self).wf(),
            final(self).chunks@.len() == old(self).chunks@.len(),
            forall|ci: int|
                0 <= ci < old(self).chunks@.len() ==> {
                    let oldc = old(self).chunks@[ci];
                    let newc = #[trigger] final(self).chunks@[ci];
                    &&& newc.key() == oldc.key()
                    &&& newc.unchecked@.len() == 0
                    &&& newc.checked@.len() >= oldc.checked@.len()
                    &&& forall|t: int|
                        0 <= t < oldc.checked@.len() ==> newc.checked@[t] == oldc.checked@[t]
                    &&& forall|t: int|
                        oldc.checked@.len() <= t < newc.checked@.len() ==> from_unchecked(
                            oldc.unchecked@,
                            #[trigger] newc.checked@[t],
                        )
                    &&& forall|j: int|
                        0 <= j < oldc.unchecked@.len() ==> ((#[trigger] oldc.unchecked@[j]) matches
                            Some(lg) ==> kept_or_iso(newc.checked@, lg))
                },
    {
        let ghost old_chunks = self.chunks@;
        let mut ci: usize = 0;
        while ci < self.chunks.len()
            invariant
                ci <= self.chunks@.len(),
                self.chunks@.len() == old_chunks.len(),
                forall|i: int| ci <= i < old_chunks.len() ==> (#[trigger] self.chunks@[i])
                    == old_chunks[i],
                forall|i: int| 0 <= i < old_chunks.len() ==> (#[trigger] old_chunks[i]).wf(),
                forall|i: int, j: int|
                    0 <= i < j < old_chunks.len() ==> old_chunks[i].key() != old_chunks[j].key(),
                forall|i: int|
                    0 <= i < ci ==> {
                        let oldc = old_chunks[i];
                        let newc = #[trigger] self.chunks@[i];
                        &&& newc.wf()
                        &&& newc.key() == oldc.key()
                        &&& newc.unchecked@.len() == 0
                        &&& newc.checked@.len() >= oldc.checked@.len()
                        &&& forall|t: int|
                            0 <= t < oldc.checked@.len() ==> newc.checked@[t] == oldc.checked@[t]
                        &&& forall|t: int|
                            oldc.checked@.len() <= t < newc.checked@.len() ==> from_unchecked(
                                oldc.unchecked@,
                                #[trigger] newc.checked@[t],
                            )
                        &&& forall|j: int|
                            0 <= j < oldc.unchecked@.len() ==> ((#[trigger] oldc.unchecked@[j])
                                matches Some(lg) ==> kept_or_iso(newc.checked@, lg))
                    },
            decreases self.chunks@.len() - ci,
        {
            let mut tmp = Chunk {
                comp: 1,
                labeling_sorted: ChunkLabeling(Vec::new()),
                checked: Vec::new(),
                unchecked: Vec::new(),
            };
            self.chunks.set_and_swap(ci, &mut tmp);
            tmp.clean_isos();
            self.chunks.set_and_swap(ci, &mut tmp);
            ci = ci + 1;
        }
    }

    /// One tier transition: every representative is extended in every
    /// way, the forbidden-pair filter discards disqualified children,
    /// the survivors are labeled and routed, and each chunk is
    /// deduplicated.  Every graph of the result passes the filter and
    /// descends from a representative of this tier.
    pub fn generate_next_size(&self, r: u32, s: u32) -> (out: Tier)
        requires
            self.wf(),
            forall|ci: int|
                0 <= ci < self.chunks@.len() ==> (#[trigger] self.chunks@[ci]).key().len() < 20,
        ensures
            out.wf(),
            forall|ci: int|
                0 <= ci < out.chunks@.len() ==> (#[trigger] out.chunks@[ci]).unchecked@.len() == 0,
            forall|ci: int, t: int|
                0 <= ci < out.chunks@.len() && 0 <= t < out.chunks@[ci].checked@.len()
                    ==> child_prop(
                    self.chunks@,
                    (#[trigger] out.chunks@[ci].checked@[t]).inner,
                    r,
                    s,
                ),
            forall|pci: int, pcj: int, k: int|
                0 <= pci < self.chunks@.len() && 0 <= pcj < self.chunks@[pci].checked@.len() && 0
                    <= k < pow2(self.chunks@[pci].key().len() as nat) ==> #[trigger] gen_covered(
                    self.chunks@,
                    pci,
                    pcj,
                    k,
                    out.chunks@,
                    r,
                    s,
                ),
    {
        let mut out = Tier { chunks: Vec::new() };
        let mut buffer: Vec<Vec<(u32, u32)>> = Vec::new();
        while buffer.len() < 20
            invariant
                buffer@.len() <= 20,
            decreases 20 - buffer@.len(),
        {
            buffer.push(Vec::new());
        }
        let mut ci: usize = 0;
        while ci < self.chunks.len()
            invariant
                self.wf(),
                forall|c2: int|
                    0 <= c2 < self.chunks@.len() ==> (#[trigger] self.chunks@[c2]).key().len()
                        < 20,
                ci <= self.chunks@.len(),
                buffer@.len() == 20,
                out.wf(),
                prod_inv(out.chunks@, self.chunks@, r, s),
                forall|pci: int, pcj: int, k: int|
                    0 <= pci < ci && 0 <= pcj < self.chunks@[pci].checked@.len() && 0 <= k < pow2(
                        self.chunks@[pci].key().len() as nat,
                    ) ==> #[trigger] pend_covered(self.chunks@, pci, pcj, k, out.chunks@, r, s),
            decreases self.chunks@.len() - ci,
        {
            let mut cj: usize = 0;
            while cj < self.chunks[ci].checked.len()
                invariant
                    self.wf(),
                    forall|c2: int|
                        0 <= c2 < self.chunks@.len() ==> (#[trigger] self.chunks@[c2]).key().len()
                            < 20,
                    ci < self.chunks@.len(),
                    cj <= self.chunks@[ci as int].checked@.len(),
                    buffer@.len() == 20,
                    out.wf(),
                    prod_inv(out.chunks@, self.chunks@, r, s),
                    forall|pci: int, pcj: int, k: int|
                        0 <= pci < ci && 0 <= pcj < self.chunks@[pci].checked@.len() && 0 <= k
                            < pow2(self.chunks@[pci].key().len() as nat) ==> #[trigger] pend_covered(
                            self.chunks@,
                            pci,
                            pcj,
                            k,
                            out.chunks@,
                            r,
                            s,
                        ),
                    forall|pcj2: int, k: int|
                        0 <= pcj2 < cj && 0 <= k < pow2(self.chunks@[ci as int].key().len() as nat)
                            ==> #[trigger] pend_covered(
                            self.chunks@,
                            ci as int,
                            pcj2,
                            k,
                            out.chunks@,
                            r,
                            s,
                        ),
                decreases self.chunks@[ci as int].checked@.len() - cj,
            {
                proof {
                    assert(self.chunks@[ci as int].wf());
                    assert(member_ok(
                        self.chunks@[ci as int].key(),
                        self.chunks@[ci as int].checked@[cj as int],
                    ));
                }
                let mut kids = self.chunks[ci].checked[cj].inner.get_next_size();
                let ghost parent_g = self.chunks@[ci as int].checked@[cj as int].inner;
                let ghost kids_snap = kids@;
                proof {
                    assert(kids_snap.len() == pow2(
                        self.chunks@[ci as int].key().len() as nat,
                    ));
                }
                while kids.len() > 0
                    invariant
                        self.wf(),
                        forall|c2: int|
                            0 <= c2 < self.chunks@.len() ==> (
                            #[trigger] self.chunks@[c2]).key().len() < 20,
                        ci < self.chunks@.len(),
                        cj < self.chunks@[ci as int].checked@.len(),
                        parent_g == self.chunks@[ci as int].checked@[cj as int].inner,
                        parent_g.num_verts < 20,
                        kids@.len() <= kids_snap.len(),
                        kids@ == kids_snap.take(kids@.len() as int),
                        forall|k: int|
                            0 <= k < kids_snap.len() ==> is_extension(
                                &parent_g,
                                #[trigger] kids_snap[k],
                                k,
                            ),
                        kids_snap.len() == pow2(self.chunks@[ci as int].key().len() as nat),
                        buffer@.len() == 20,
                        out.wf(),
                        prod_inv(out.chunks@, self.chunks@, r, s),
                        forall|pci: int, pcj: int, k: int|
                            0 <= pci < ci && 0 <= pcj < self.chunks@[pci].checked@.len() && 0 <= k
                                < pow2(self.chunks@[pci].key().len() as nat)
                                ==> #[trigger] pend_covered(
                                self.chunks@,
                                pci,
                                pcj,
                                k,
                                out.chunks@,
                                r,
                                s,
                            ),
                        forall|pcj2: int, k: int|
                            0 <= pcj2 < cj && 0 <= k < pow2(
                                self.chunks@[ci as int].key().len() as nat,
                            ) ==> #[trigger] pend_covered(
                                self.chunks@,
                                ci as int,
                                pcj2,
                                k,
                                out.chunks@,
                                r,
                                s,
                            ),
                        forall|k: int|
                            kids@.len() <= k < kids_snap.len() ==> #[trigger] pend_covered(
                                self.chunks@,
                                ci as int,
                                cj as int,
                                k,
                                out.chunks@,
                                r,
                                s,
                            ),
                    decreases kids@.len(),
                {
                    let ghost pre = kids@;
                    let child_opt = kids.pop();
                    let child = match child_opt {
                        Some(ch) => ch,
                        None => {
                            proof {
                                assert(false);
                            }
                            vstd::pervasive::unreached()
                        },
                    };
                    let ghost k = kids@.len() as int;
                    proof {
                        assert(child == pre.last());
                        assert(pre[k] == kids_snap[k]);
                        assert(pre.last() == pre[k]);
                        assert(kids@ =~= kids_snap.take(kids@.len() as int));
                        assert(is_extension(&parent_g, child, k));
                    }
                    let keep = !crate::graph_like::has_kns(&child, r, s);
                    if keep {
                        proof {
                            assert(child_prop(self.chunks@, child, r, s));
                        }
                        let ghost pre_out = out.chunks@;
                        out.insert_unchecked(child, &mut buffer);
                        proof {
                            assert(out.chunks@.len() >= pre_out.len());
                            assert forall|c3: int|
                                0 <= c3 < pre_out.len() implies (#[trigger] out.chunks@[c3]).unchecked@.len()
                                >= pre_out[c3].unchecked@.len() by {}
                            assert forall|c3: int, j3: int|
                                0 <= c3 < pre_out.len() && 0 <= j3 < pre_out[c3].unchecked@.len()
                                    implies (#[trigger] out.chunks@[c3].unchecked@[j3])
                                    == pre_out[c3].unchecked@[j3] by {}
                            assert forall|c3: int, j3: int|
                                0 <= c3 < out.chunks@.len() && 0 <= j3
                                    < out.chunks@[c3].unchecked@.len() implies ((
                            #[trigger] out.chunks@[c3].unchecked@[j3]) matches Some(lg2)
                                ==> child_prop(self.chunks@, lg2.inner, r, s)) by {
                                if out.chunks@[c3].unchecked@[j3] is Some {
                                    let lg2 = out.chunks@[c3].unchecked@[j3]->0;
                                    if !(c3 < pre_out.len() && j3 < pre_out[c3].unchecked@.len()
                                        && pre_out[c3].unchecked@[j3] == Some(lg2)) {
                                        assert(lg2.inner == child);
                                    }
                                }
                            }
                            assert forall|c3: int|
                                0 <= c3 < out.chunks@.len() implies (
                            #[trigger] out.chunks@[c3]).checked@.len() == 0 by {
                                if c3 < pre_out.len() {
                                    assert(out.chunks@[c3].checked@ == pre_out[c3].checked@);
                                }
                            }
                            assert forall|pci: int, pcj: int, k2: int|
                                0 <= pci < ci && 0 <= pcj < self.chunks@[pci].checked@.len() && 0
                                    <= k2 < pow2(self.chunks@[pci].key().len() as nat)
                                    implies #[trigger] pend_covered(
                                    self.chunks@,
                                    pci,
                                    pcj,
                                    k2,
                                    out.chunks@,
                                    r,
                                    s,
                                ) by {
                                lemma_pend_grow(
                                    self.chunks@,
                                    pci,
                                    pcj,
                                    k2,
                                    pre_out,
                                    out.chunks@,
                                    r,
                                    s,
                                );
                            }
                            assert forall|pcj2: int, k2: int|
                                0 <= pcj2 < cj && 0 <= k2 < pow2(
                                    self.chunks@[ci as int].key().len() as nat,
                                ) implies #[trigger] pend_covered(
                                    self.chunks@,
                                    ci as int,
                                    pcj2,
                                    k2,
                                    out.chunks@,
                                    r,
                                    s,
                                ) by {
                                lemma_pend_grow(
                                    self.chunks@,
                                    ci as int,
                                    pcj2,
                                    k2,
                                    pre_out,
                                    out.chunks@,
                                    r,
                                    s,
                                );
                            }
                            let cstar = choose|cix: int|
                                ({
                                    &&& 0 <= cix < out.chunks@.len()
                                    &&& (#[trigger] out.chunks@[cix]).key()
                                        == crate::labeling::label_spec(&child).sort_by(u32_leq())
                                    &&& out.chunks@[cix].unchecked@.len() > 0
                                    &&& (out.chunks@[cix].unchecked@.last() matches Some(lg2)
                                        && lg2.inner == child && lg2.labels.0@ == normalize_spec(
                                        crate::labeling::label_spec(&child),
                                        out.chunks@[cix].key(),
                                    ))
                                });
                            let jstar = out.chunks@[cstar].unchecked@.len() - 1;
                            assert(out.chunks@[cstar].unchecked@[jstar] is Some);
                            let lgw = out.chunks@[cstar].unchecked@[jstar]->0;
                            assert(lgw.inner == child);
                            assert(is_extension(
                                &self.chunks@[ci as int].checked@[cj as int].inner,
                                lgw.inner,
                                k,
                            ));
                            assert forall|k2: int|
                                kids@.len() <= k2 < kids_snap.len() implies #[trigger] pend_covered(
                                    self.chunks@,
                                    ci as int,
                                    cj as int,
                                    k2,
                                    out.chunks@,
                                    r,
                                    s,
                                ) by {
                                if k2 == k {
                                    assert(pend_covered(
                                        self.chunks@,
                                        ci as int,
                                        cj as int,
                                        k,
                                        out.chunks@,
                                        r,
                                        s,
                                    ));
                                } else {
                                    lemma_pend_grow(
                                        self.chunks@,
                                        ci as int,
                                        cj as int,
                                        k2,
                                        pre_out,
                                        out.chunks@,
                                        r,
                                        s,
                                    );
                                }
                            }
                        }
                    } else {
                        proof {
                            assert(crate::graph_like::forbids_spec(&child, r, s));
                            assert(is_extension(
                                &self.chunks@[ci as int].checked@[cj as int].inner,
                                child,
                                k,
                            ));
                            assert(pend_covered(
                                self.chunks@,
                                ci as int,
                                cj as int,
                                k,
                                out.chunks@,
                                r,
                                s,
                            ));
                        }
                    }
                }
                proof {
                    assert forall|pcj2: int, k2: int|
                        0 <= pcj2 < cj + 1 && 0 <= k2 < pow2(
                            self.chunks@[ci as int].key().len() as nat,
                        ) implies #[trigger] pend_covered(
                            self.chunks@,
                            ci as int,
                            pcj2,
                            k2,
                            out.chunks@,
                            r,
                            s,
                        ) by {}
                }
                cj = cj + 1;
            }
            proof {
                assert forall|pci: int, pcj: int, k2: int|
                    0 <= pci < ci + 1 && 0 <= pcj < self.chunks@[pci].checked@.len() && 0 <= k2
                        < pow2(self.chunks@[pci].key().len() as nat) implies #[trigger] pend_covered(
                        self.chunks@,
                        pci,
                        pcj,
                        k2,
                        out.chunks@,
                        r,
                        s,
                    ) by {}
            }
            ci = ci + 1;
        }
        let ghost produced = out.chunks@;
        out.clean_all();
        proof {
            assert forall|c3: int, t: int|
                0 <= c3 < out.chunks@.len() && 0 <= t < out.chunks@[c3].checked@.len()
                    implies child_prop(
                self.chunks@,
                (#[trigger] out.chunks@[c3].checked@[t]).inner,
                r,
                s,
            ) by {
                assert(produced[c3].checked@.len() == 0);
                assert(from_unchecked(produced[c3].unchecked@, out.chunks@[c3].checked@[t]));
                let j = choose|j: int|
                    0 <= j < produced[c3].unchecked@.len() && produced[c3].unchecked@[j] == Some(
                        out.chunks@[c3].checked@[t],
                    );
                assert(produced[c3].unchecked@[j] is Some);
            }
            assert forall|pci: int, pcj: int, k: int|
                0 <= pci < self.chunks@.len() && 0 <= pcj < self.chunks@[pci].checked@.len() && 0
                    <= k < pow2(self.chunks@[pci].key().len() as nat) implies #[trigger] gen_covered(
                    self.chunks@,
                    pci,
                    pcj,
                    k,
                    out.chunks@,
                    r,
                    s,
                ) by {
                assert(pend_covered(self.chunks@, pci, pcj, k, produced, r, s));
                if !(exists|e: Graph|
                    #[trigger] is_extension(&self.chunks@[pci].checked@[pcj].inner, e, k)
                        && crate::graph_like::forbids_spec(&e, r, s)) {
                    let (ci0, j0) = choose|ci0: int, j0: int|
                        0 <= ci0 < produced.len() && 0 <= j0 < produced[ci0].unchecked@.len() && ((
                        #[trigger] produced[ci0].unchecked@[j0]) matches Some(lg) && is_extension(
                            &self.chunks@[pci].checked@[pcj].inner,
                            lg.inner,
                            k,
                        ));
                    let lg = produced[ci0].unchecked@[j0]->0;
                    assert(kept_or_iso(out.chunks@[ci0].checked@, lg));
                    let t = choose|t: int|
                        0 <= t < out.chunks@[ci0].checked@.len() && (out.chunks@[ci0].checked@[t]
                            == lg || graphs_isomorphic(
                            &out.chunks@[ci0].checked@[t].inner,
                            &lg.inner,
                        ));
                    if out.chunks@[ci0].checked@[t] == lg {
                        assert(out.chunks@[ci0].checked@[t].inner == lg.inner);
                    }
                    assert(is_extension(&self.chunks@[pci].checked@[pcj].inner, lg.inner, k));
                    assert(0 <= ci0 < out.chunks@.len());
                    assert(gen_covered(self.chunks@, pci, pcj, k, out.chunks@, r, s));
                }
            }
        }
        out
    }
}

/// The chunk key is an isomorphism-invariant meeting ground: any two
/// members of one chunk carry raw signature vectors that sort to the
/// same multiset, so the checker only ever compares graphs whose sorted
/// signature multisets are equal.
pub proof fn lemma_same_chunk_same_signatures(c: &Chunk, i: int, j: int)
    requires
        c.wf(),
        0 <= i < c.checked@.len(),
        0 <= j < c.checked@.len(),
    ensures
        exists|ri: Seq<u32>, rj: Seq<u32>|
            ri.sort_by(u32_leq()) == rj.sort_by(u32_leq()) && #[trigger] raw_matches(
                c.key(),
                ri,
                c.checked@[i].labels.0@,
            ) && #[trigger] raw_matches(c.key(), rj, c.checked@[j].labels.0@),
{
    assert(member_ok(c.key(), c.checked@[i]));
    assert(member_ok(c.key(), c.checked@[j]));
    let ri = choose|ri: Seq<u32>| #[trigger] raw_matches(c.key(), ri, c.checked@[i].labels.0@);
    let rj = choose|rj: Seq<u32>| #[trigger] raw_matches(c.key(), rj, c.checked@[j].labels.0@);
    assert(ri.sort_by(u32_leq()) == c.key() && rj.sort_by(u32_leq()) == c.key());
}

impl Default for Tier {
    /// The empty tier.
    fn default() -> (r: Self)
        ensures
            r.wf(),
            r.chunks@.len() == 0,
    {
        Tier { chunks: Vec::new() }
    }
}

} // verus!
