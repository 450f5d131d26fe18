//! The crate's fixed hashing convention for vertex signatures.
//!
//! Signatures must be reproducible across processes and machines, so the
//! labeling engine uses one fixed 64-bit Fowler-Noll-Vo (variant 1a) fold
//! over words rather than a seeded or platform-defined hasher.

use vstd::prelude::*;

verus! {

pub const FNV_OFFSET: u64 = 0xcbf29ce484222325;

pub const FNV_PRIME: u64 = 0x100000001b3;

/// One step of the fold: absorb one word into the state.
pub open spec fn fnv_step(h: u64, x: u64) -> u64 {
    vstd::wrapping::u64_specs::wrapping_mul(h ^ x, FNV_PRIME)
}

/// The state after absorbing every word of `s` in order, starting from `h`.
pub open spec fn fnv_words(h: u64, s: Seq<u64>) -> u64
    decreases s.len(),
{
    if s.len() == 0 {
        h
    } else {
        fnv_words(fnv_step(h, s[0]), s.drop_first())
    }
}

pub proof fn lemma_fnv_words_push(h: u64, s: Seq<u64>, x: u64)
    ensures
        fnv_words(h, s.push(x)) == fnv_step(fnv_words(h, s), x),
    decreases s.len(),
{
    if s.len() == 0 {
        assert(s.push(x)[0] == x);
        assert(s.push(x).drop_first() =~= Seq::<u64>::empty());
        assert(fnv_words(h, s.push(x)) == fnv_words(fnv_step(h, x), s.push(x).drop_first()));
        assert(fnv_words(fnv_step(h, x), s.push(x).drop_first()) == fnv_step(h, x));
        assert(fnv_words(h, s) == h);
    } else {
        assert(s.push(x)[0] == s[0]);
        assert(s.push(x).drop_first() =~= s.drop_first().push(x));
        lemma_fnv_words_push(fnv_step(h, s[0]), s.drop_first(), x);
        assert(fnv_words(h, s.push(x)) == fnv_words(fnv_step(h, s[0]), s.drop_first().push(x)));
        assert(fnv_words(h, s) == fnv_words(fnv_step(h, s[0]), s.drop_first()));
    }
}

/// The signature hash of a byte sequence, truncated to 32 bits.
pub open spec fn hash_bytes_spec(s: Seq<u8>) -> u32 {
    fnv_words(FNV_OFFSET, s.map_values(|b: u8| b as u64)) as u32
}

/// The signature hash of a pair of 32-bit values, truncated to 32 bits.
pub open spec fn hash2_spec(a: u32, b: u32) -> u32 {
    fnv_words(FNV_OFFSET, seq![a as u64, b as u64]) as u32
}

/// Each pair contributes its two components as consecutive words.
pub open spec fn pair_words(ps: Seq<(u32, u32)>) -> Seq<u64>
    decreases ps.len(),
{
    if ps.len() == 0 {
        Seq::empty()
    } else {
        seq![ps[0].0 as u64, ps[0].1 as u64] + pair_words(ps.drop_first())
    }
}

pub proof fn lemma_pair_words_push(ps: Seq<(u32, u32)>, p: (u32, u32))
    ensures
        pair_words(ps.push(p)) == pair_words(ps) + seq![p.0 as u64, p.1 as u64],
    decreases ps.len(),
{
    if ps.len() == 0 {
        assert(ps.push(p)[0] == p);
        assert(ps.push(p).drop_first() =~= Seq::<(u32, u32)>::empty());
        assert(pair_words(ps.push(p)) == seq![p.0 as u64, p.1 as u64] + pair_words(
            ps.push(p).drop_first(),
        ));
        assert(pair_words(ps.push(p).drop_first()) == Seq::<u64>::empty());
        assert(pair_words(ps) == Seq::<u64>::empty());
        assert(pair_words(ps.push(p)) =~= pair_words(ps) + seq![p.0 as u64, p.1 as u64]);
    } else {
        assert(ps.push(p)[0] == ps[0]);
        assert(ps.push(p).drop_first() =~= ps.drop_first().push(p));
        lemma_pair_words_push(ps.drop_first(), p);
        assert(pair_words(ps.push(p)) == seq![ps[0].0 as u64, ps[0].1 as u64] + pair_words(
            ps.drop_first().push(p),
        ));
        assert(pair_words(ps) == seq![ps[0].0 as u64, ps[0].1 as u64] + pair_words(
            ps.drop_first(),
        ));
        assert(pair_words(ps.push(p)) =~= pair_words(ps) + seq![p.0 as u64, p.1 as u64]);
    }
}

/// The signature hash of a previous label followed by a pair sequence,
/// truncated to 32 bits.
pub open spec fn hash_label_pairs_spec(prev: u32, ps: Seq<(u32, u32)>) -> u32 {
    fnv_words(FNV_OFFSET, seq![prev as u64] + pair_words(ps)) as u32
}

/// Hashes a byte sequence with the crate's fixed convention.
pub fn hash_bytes(v: &Vec<u8>) -> (r: u32)
    ensures
        r == hash_bytes_spec(v@),
{
    let ghost words = v@.map_values(|b: u8| b as u64);
    let mut h: u64 = FNV_OFFSET;
    let mut i: usize = 0;
    while i < v.len()
        invariant
            i <= v@.len(),
            words == v@.map_values(|b: u8| b as u64),
            h == fnv_words(FNV_OFFSET, words.subrange(0, i as int)),
        decreases v@.len() - i,
    {
        proof {
            assert(words.subrange(0, i + 1) =~= words.subrange(0, i as int).push(words[i as int]));
            lemma_fnv_words_push(FNV_OFFSET, words.subrange(0, i as int), words[i as int]);
        }
        h = (h ^ (v[i] as u64)).wrapping_mul(FNV_PRIME);
        i = i + 1;
    }
    proof {
        assert(words.subrange(0, words.len() as int) =~= words);
    }
    #[verifier::truncate] (h as u32)
}

/// Hashes two 32-bit values with the crate's fixed convention.
#[verifier::rlimit(30)]
pub fn hash2(a: u32, b: u32) -> (r: u32)
    ensures
        r == hash2_spec(a, b),
{
    let h: u64 = (FNV_OFFSET ^ (a as u64)).wrapping_mul(FNV_PRIME);
    let h2: u64 = (h ^ (b as u64)).wrapping_mul(FNV_PRIME);
    proof {
        let s = seq![a as u64, b as u64];
        let s1 = s.drop_first();
        assert(s1 =~= seq![b as u64]);
        assert(s1.drop_first() =~= Seq::<u64>::empty());
        assert(h == fnv_step(FNV_OFFSET, a as u64));
        assert(h2 == fnv_step(h, b as u64));
        assert(fnv_words(h2, s1.drop_first()) == h2);
        assert(fnv_words(h, s1) == fnv_words(h2, s1.drop_first()));
        assert(fnv_words(FNV_OFFSET, s) == fnv_words(h, s1));
    }
    #[verifier::truncate] (h2 as u32)
}

/// Hashes a previous label followed by a pair sequence with the crate's
/// fixed convention.
#[verifier::rlimit(30)]
pub fn hash_label_pairs(prev: u32, ps: &Vec<(u32, u32)>) -> (r: u32)
    ensures
        r == hash_label_pairs_spec(prev, ps@),
{
    let mut h: u64 = (FNV_OFFSET ^ (prev as u64)).wrapping_mul(FNV_PRIME);
    proof {
        let s0 = seq![prev as u64];
        assert(s0[0] == prev as u64);
        assert(s0.drop_first() =~= Seq::<u64>::empty());
        assert(fnv_words(FNV_OFFSET, s0) == fnv_words(fnv_step(FNV_OFFSET, prev as u64), s0.drop_first()));
        assert(fnv_words(fnv_step(FNV_OFFSET, prev as u64), s0.drop_first()) == fnv_step(FNV_OFFSET, prev as u64));
        assert(ps@.subrange(0, 0) =~= Seq::<(u32, u32)>::empty());
        assert(pair_words(Seq::<(u32, u32)>::empty()) == Seq::<u64>::empty());
        assert(seq![prev as u64] + pair_words(ps@.subrange(0, 0)) =~= s0);
        assert(h == fnv_words(FNV_OFFSET, s0));
    }
    let mut i: usize = 0;
    while i < ps.len()
        invariant
            i <= ps@.len(),
            h == fnv_words(FNV_OFFSET, seq![prev as u64] + pair_words(ps@.subrange(0, i as int))),
        decreases ps@.len() - i,
    {
        let (d, l) = ps[i];
        proof {
            let pre = ps@.subrange(0, i as int);
            let full = seq![prev as u64] + pair_words(pre);
            assert(ps@.subrange(0, i + 1) =~= pre.push(ps@[i as int]));
            lemma_pair_words_push(pre, ps@[i as int]);
            assert(seq![prev as u64] + pair_words(pre.push(ps@[i as int])) =~= full.push(
                d as u64,
            ).push(l as u64));
            lemma_fnv_words_push(FNV_OFFSET, full, d as u64);
            lemma_fnv_words_push(FNV_OFFSET, full.push(d as u64), l as u64);
        }
        h = (h ^ (d as u64)).wrapping_mul(FNV_PRIME);
        h = (h ^ (l as u64)).wrapping_mul(FNV_PRIME);
        i = i + 1;
    }
    proof {
        assert(ps@.subrange(0, ps@.len() as int) =~= ps@);
    }
    #[verifier::truncate] (h as u32)
}

/// The signature hash of a sequence of 32-bit values, truncated to 32
/// bits.
pub open spec fn hash_words_spec(s: Seq<u32>) -> u32 {
    fnv_words(FNV_OFFSET, s.map_values(|x: u32| x as u64)) as u32
}

/// Hashes a sequence of 32-bit values with the crate's fixed convention.
pub fn hash_words(v: &Vec<u32>) -> (r: u32)
    ensures
        r == hash_words_spec(v@),
{
    let ghost words = v@.map_values(|x: u32| x as u64);
    let mut h: u64 = FNV_OFFSET;
    let mut i: usize = 0;
    while i < v.len()
        invariant
            i <= v@.len(),
            words == v@.map_values(|x: u32| x as u64),
            h == fnv_words(FNV_OFFSET, words.subrange(0, i as int)),
        decreases v@.len() - i,
    {
        proof {
            assert(words.subrange(0, i + 1) =~= words.subrange(0, i as int).push(words[i as int]));
            lemma_fnv_words_push(FNV_OFFSET, words.subrange(0, i as int), words[i as int]);
        }
        h = (h ^ (v[i] as u64)).wrapping_mul(FNV_PRIME);
        i = i + 1;
    }
    proof {
        assert(words.subrange(0, words.len() as int) =~= words);
    }
    #[verifier::truncate] (h as u32)
}

} // verus!
