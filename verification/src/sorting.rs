//! Verified insertion sorts for the orderings the tier store needs:
//! plain 32-bit labels, lexicographic pairs, and vertex classes ordered by
//! size.

use vstd::prelude::*;
use vstd::seq_lib::lemma_sorted_unique;
use vstd::relations::{sorted_by, total_ordering};

verus! {

broadcast use vstd::seq_lib::group_to_multiset_ensures;

/// The ordering the label sort uses.
pub open spec fn u32_leq() -> spec_fn(u32, u32) -> bool {
    |a: u32, b: u32| a <= b
}

/// Lexicographic order on pairs, first component first.
pub open spec fn pair_leq() -> spec_fn((u32, u32), (u32, u32)) -> bool {
    |a: (u32, u32), b: (u32, u32)| a.0 < b.0 || (a.0 == b.0 && a.1 <= b.1)
}

pub proof fn lemma_u32_leq_total()
    ensures
        total_ordering(u32_leq()),
{
    assert forall|a: u32, b: u32| #[trigger] u32_leq()(a, b) || u32_leq()(b, a) by {}
}

pub proof fn lemma_pair_leq_total()
    ensures
        total_ordering(pair_leq()),
{
    assert forall|a: (u32, u32), b: (u32, u32)| #[trigger] pair_leq()(a, b) || pair_leq()(b, a) by {}
}

/// Sorts the labels ascending; the result is exactly the sorted version of
/// the input sequence.
pub fn sort_u32(v: &mut Vec<u32>)
    ensures
        final(v)@ == old(v)@.sort_by(u32_leq()),
        sorted_by(final(v)@, u32_leq()),
        final(v)@.to_multiset() == old(v)@.to_multiset(),
        final(v)@.len() == old(v)@.len(),
{
    let ghost orig = v@;
    let mut out: Vec<u32> = Vec::new();
    let mut i: usize = 0;
    while i < v.len()
        invariant
            i <= orig.len(),
            v@ == orig,
            sorted_by(out@, u32_leq()),
            out@.to_multiset() == orig.subrange(0, i as int).to_multiset(),
            out@.len() == i,
        decreases orig.len() - i,
    {
        let x = v[i];
        let mut p: usize = 0;
        while p < out.len() && out[p] <= x
            invariant
                p <= out@.len(),
                forall|j: int| 0 <= j < p ==> out@[j] <= x,
            decreases out@.len() - p,
        {
            p = p + 1;
        }
        let ghost pre = out@;
        proof {
            if p < pre.len() {
                assert(!(pre[p as int] <= x));
            }
        }
        out.insert(p, x);
        proof {
            assert forall|a: int, b: int| 0 <= a < b < out@.len() implies #[trigger] u32_leq()(
                out@[a],
                out@[b],
            ) by {
                assert(sorted_by(pre, u32_leq()));
                if b < p {
                    assert(u32_leq()(pre[a], pre[b]));
                } else if b == p {
                    assert(out@[a] == pre[a] && pre[a] <= x);
                } else if a == p {
                    assert(out@[b] == pre[b - 1]);
                    if p < b - 1 {
                        assert(u32_leq()(pre[p as int], pre[b - 1]));
                    }
                    assert(x <= pre[b - 1]);
                } else if a < p {
                    assert(out@[a] == pre[a] && out@[b] == pre[b - 1]);
                    if a < b - 1 {
                        assert(u32_leq()(pre[a], pre[b - 1]));
                    }
                } else {
                    assert(out@[a] == pre[a - 1] && out@[b] == pre[b - 1]);
                    assert(u32_leq()(pre[a - 1], pre[b - 1]));
                }
            }
            assert(orig.subrange(0, i + 1) =~= orig.subrange(0, i as int).push(orig[i as int]));
            assert(out@.to_multiset() =~= orig.subrange(0, i + 1).to_multiset());
        }
        i = i + 1;
    }
    proof {
        assert(orig.subrange(0, orig.len() as int) =~= orig);
    }
    *v = out;
    proof {
        lemma_u32_leq_total();
        orig.lemma_sort_by_ensures(u32_leq());
        lemma_sorted_unique(v@, orig.sort_by(u32_leq()), u32_leq());
        assert(v@ == orig.sort_by(u32_leq()));
    }
}

/// Sorts pairs in lexicographic order; the result is exactly the sorted
/// version of the input sequence.
pub fn sort_pairs(v: &mut Vec<(u32, u32)>)
    ensures
        final(v)@ == old(v)@.sort_by(pair_leq()),
        sorted_by(final(v)@, pair_leq()),
        final(v)@.to_multiset() == old(v)@.to_multiset(),
        final(v)@.len() == old(v)@.len(),
{
    let ghost orig = v@;
    let mut out: Vec<(u32, u32)> = Vec::new();
    let mut i: usize = 0;
    while i < v.len()
        invariant
            i <= orig.len(),
            v@ == orig,
            sorted_by(out@, pair_leq()),
            out@.to_multiset() == orig.subrange(0, i as int).to_multiset(),
            out@.len() == i,
        decreases orig.len() - i,
    {
        let x = v[i];
        let mut p: usize = 0;
        while p < out.len() && (out[p].0 < x.0 || (out[p].0 == x.0 && out[p].1 <= x.1))
            invariant
                p <= out@.len(),
                forall|j: int| 0 <= j < p ==> #[trigger] pair_leq()(out@[j], x),
            decreases out@.len() - p,
        {
            p = p + 1;
        }
        let ghost pre = out@;
        proof {
            lemma_pair_leq_total();
            if p < pre.len() {
                assert(!pair_leq()(pre[p as int], x));
                assert(pair_leq()(x, pre[p as int]));
            }
        }
        out.insert(p, x);
        proof {
            assert forall|a: int, b: int| 0 <= a < b < out@.len() implies #[trigger] pair_leq()(
                out@[a],
                out@[b],
            ) by {
                assert(sorted_by(pre, pair_leq()));
                if b < p {
                    assert(pair_leq()(pre[a], pre[b]));
                } else if b == p {
                    assert(out@[a] == pre[a] && pair_leq()(pre[a], x));
                } else if a == p {
                    assert(out@[b] == pre[b - 1]);
                    if p < b - 1 {
                        assert(pair_leq()(pre[p as int], pre[b - 1]));
                        assert(pair_leq()(x, pre[b - 1]));
                    } else {
                        assert(pair_leq()(x, pre[b - 1]));
                    }
                } else if a < p {
                    assert(out@[a] == pre[a] && out@[b] == pre[b - 1]);
                    if a < b - 1 {
                        assert(pair_leq()(pre[a], pre[b - 1]));
                    } else {
                        assert(pair_leq()(pre[a], x) && pair_leq()(x, pre[b - 1]));
                    }
                } else {
                    assert(out@[a] == pre[a - 1] && out@[b] == pre[b - 1]);
                    assert(pair_leq()(pre[a - 1], pre[b - 1]));
                }
            }
            assert(orig.subrange(0, i + 1) =~= orig.subrange(0, i as int).push(orig[i as int]));
            assert(out@.to_multiset() =~= orig.subrange(0, i + 1).to_multiset());
        }
        i = i + 1;
    }
    proof {
        assert(orig.subrange(0, orig.len() as int) =~= orig);
    }
    *v = out;
    proof {
        lemma_pair_leq_total();
        orig.lemma_sort_by_ensures(pair_leq());
        lemma_sorted_unique(v@, orig.sort_by(pair_leq()), pair_leq());
        assert(v@ == orig.sort_by(pair_leq()));
    }
}

/// Sorts vertex classes so that smaller classes come first; the same
/// classes survive, reordered.
pub fn sort_classes(v: &mut Vec<Vec<usize>>)
    ensures
        final(v)@.to_multiset() == old(v)@.to_multiset(),
        final(v)@.len() == old(v)@.len(),
        forall|a: int, b: int|
            0 <= a < b < final(v)@.len() ==> final(v)@[a].len() <= final(v)@[b].len(),
{
    let ghost orig = v@;
    let mut out: Vec<Vec<usize>> = Vec::new();
    while v.len() > 0
        invariant
            out@.len() + v@.len() == orig.len(),
            out@.to_multiset().add(v@.to_multiset()) == orig.to_multiset(),
            forall|a: int, b: int| 0 <= a < b < out@.len() ==> out@[a].len() <= out@[b].len(),
        decreases v@.len(),
    {
        let ghost vpre = v@;
        let x = v.remove(0);
        proof {
            assert(vpre[0] == x);
            assert(vpre.to_multiset() =~= v@.to_multiset().insert(x));
        }
        let mut p: usize = 0;
        while p < out.len() && out[p].len() <= x.len()
            invariant
                p <= out@.len(),
                forall|j: int| 0 <= j < p ==> out@[j].len() <= x.len(),
            decreases out@.len() - p,
        {
            p = p + 1;
        }
        let ghost pre = out@;
        out.insert(p, x);
        proof {
            assert forall|a: int, b: int| 0 <= a < b < out@.len() implies out@[a].len()
                <= out@[b].len() by {
                if a < p && b > p {
                    assert(pre[a].len() <= pre[b - 1].len() || a == b - 1);
                }
            }
            assert(out@.to_multiset() =~= pre.to_multiset().insert(x));
            assert(out@.to_multiset().add(v@.to_multiset()) =~= orig.to_multiset());
        }
    }
    *v = out;
    proof {
        assert(old(v)@.to_multiset() =~= v@.to_multiset());
    }
}

} // verus!
