//! Small combinatorial helpers: factorials, factorial-base digits, and
//! applying a permutation given in factorial-base form.

use vstd::prelude::*;
use vstd::arithmetic::div_mod::lemma_div_denominator;

verus! {

/// The factorial of `n`.
pub open spec fn fact(n: nat) -> nat
    decreases n,
{
    if n == 0 {
        1
    } else {
        n * fact((n - 1) as nat)
    }
}

pub proof fn lemma_fact_pos(n: nat)
    ensures
        fact(n) >= 1,
    decreases n,
{
    if n > 0 {
        lemma_fact_pos((n - 1) as nat);
        assert(n * fact((n - 1) as nat) >= 1) by (nonlinear_arith)
            requires
                n >= 1 && fact((n - 1) as nat) >= 1,
        ;
    }
}

pub proof fn lemma_fact_mono(a: nat, b: nat)
    requires
        a <= b,
    ensures
        fact(a) <= fact(b),
    decreases b,
{
    if a < b {
        lemma_fact_mono(a, (b - 1) as nat);
        lemma_fact_pos((b - 1) as nat);
        assert(fact((b - 1) as nat) <= b * fact((b - 1) as nat)) by (nonlinear_arith)
            requires
                b >= 1 && fact((b - 1) as nat) >= 1,
        ;
    }
}

pub proof fn lemma_fact_20_value()
    ensures
        fact(20) == 2432902008176640000,
{
    assert(fact(20) == 2432902008176640000) by {
        reveal_with_fuel(fact, 21);
    }
}

/// The factorial of `*num`, exactly; `*num` is capped so the product fits
/// in a `u64`.
pub fn factorial(num: &usize) -> (r: u64)
    requires
        *num <= 20,
    ensures
        r == fact(*num as nat),
{
    let mut i: u64 = 1;
    let mut c: u64 = *num as u64;
    while c > 1
        invariant
            c <= *num,
            *num <= 20,
            i * fact(c as nat) == fact(*num as nat),
        decreases c,
    {
        proof {
            lemma_fact_mono(*num as nat, 20);
            lemma_fact_20_value();
            lemma_fact_pos((c - 1) as nat);
            assert(fact(c as nat) == c * fact((c - 1) as nat));
            assert(i * c <= i * fact(c as nat) && (i * c) * fact((c - 1) as nat) == i * fact(
                c as nat,
            )) by (nonlinear_arith)
                requires
                    c >= 1 && fact((c - 1) as nat) >= 1 && fact(c as nat) == c * fact(
                        (c - 1) as nat,
                    ),
            ;
        }
        i = i * c;
        c = c - 1;
    }
    proof {
        assert(fact(0) == 1);
        if c == 1 {
            assert(fact(1) == 1 * fact(0));
        }
        assert(fact(c as nat) == 1);
        assert(i * fact(c as nat) == i) by (nonlinear_arith)
            requires
                fact(c as nat) == 1,
        ;
    }
    i
}

/// Writes into `out` the factorial-base digits of `n` with `dig` digits,
/// most significant first: digit `k` of the result is
/// `(n / (dig - 1 - k)!) % (dig - k)`.
pub fn dec_to_factorial(n: usize, dig: usize, out: &mut Vec<usize>)
    ensures
        final(out)@.len() == dig,
        forall|k: int|
            0 <= k < dig ==> final(out)@[k] == (n as nat / fact((dig - 1 - k) as nat)) % (dig
                - k) as nat,
{
    let mut tmp: Vec<usize> = Vec::new();
    let mut num = n;
    proof {
        assert(fact(0) == 1);
    }
    let mut i: usize = 0;
    while i < dig
        invariant
            i <= dig,
            tmp@.len() == i,
            num == n as nat / fact(i as nat),
            forall|j: int| 0 <= j < i ==> tmp@[j] == (n as nat / fact(j as nat)) % (j + 1) as nat,
        decreases dig - i,
    {
        tmp.push(num % (i + 1));
        proof {
            lemma_fact_pos(i as nat);
            lemma_div_denominator(n as int, fact(i as nat) as int, i + 1);
            assert(fact((i + 1) as nat) == (i + 1) * fact(i as nat));
            assert(fact(i as nat) * (i + 1) == (i + 1) * fact(i as nat)) by (nonlinear_arith);
        }
        num = num / (i + 1);
        i = i + 1;
    }
    out.clear();
    let mut k: usize = 0;
    while k < dig
        invariant
            k <= dig,
            tmp@.len() == dig,
            out@.len() == k,
            forall|j: int| 0 <= j < dig ==> tmp@[j] == (n as nat / fact(j as nat)) % (j + 1) as nat,
            forall|j: int|
                0 <= j < k ==> out@[j] == (n as nat / fact((dig - 1 - j) as nat)) % (dig
                    - j) as nat,
        decreases dig - k,
    {
        out.push(tmp[dig - 1 - k]);
        k = k + 1;
    }
}

/// The sequence obtained by repeatedly removing the `perm[0]`-th entry of
/// `list` and appending it to the output.
pub open spec fn permute_spec(list: Seq<usize>, perm: Seq<usize>) -> Seq<usize>
    decreases perm.len(),
{
    if perm.len() == 0 {
        Seq::empty()
    } else {
        seq![list[perm[0] as int]] + permute_spec(list.remove(perm[0] as int), perm.drop_first())
    }
}

/// Applies the removal-index permutation `perm` to `list`, writing the
/// result into `out`; `perm_scratch` is a caller-supplied scratch buffer.
pub fn permute(
    list: &Vec<usize>,
    perm: &Vec<usize>,
    perm_scratch: &mut Vec<usize>,
    out: &mut Vec<usize>,
)
    requires
        perm@.len() == list@.len(),
        forall|i: int| 0 <= i < perm@.len() ==> (perm@[i] as int) < list@.len() - i,
    ensures
        final(out)@ == permute_spec(list@, perm@),
        final(out)@.len() == list@.len(),
{
    out.clear();
    perm_scratch.clear();
    let mut idx: usize = 0;
    while idx < list.len()
        invariant
            idx <= list@.len(),
            perm_scratch@ == list@.subrange(0, idx as int),
        decreases list@.len() - idx,
    {
        perm_scratch.push(list[idx]);
        proof {
            assert(perm_scratch@ =~= list@.subrange(0, idx + 1));
        }
        idx = idx + 1;
    }
    proof {
        assert(perm_scratch@ =~= list@);
    }
    let ghost orig = list@;
    proof {
        assert(perm@.skip(0) =~= perm@);
        assert(out@ + permute_spec(perm_scratch@, perm@.skip(0)) =~= permute_spec(orig, perm@));
    }
    let mut i: usize = 0;
    while i < list.len()
        invariant
            i <= orig.len(),
            orig == list@,
            perm@.len() == orig.len(),
            perm_scratch@.len() == orig.len() - i,
            out@.len() == i,
            forall|j: int| 0 <= j < perm@.len() ==> (perm@[j] as int) < orig.len() - j,
            out@ + permute_spec(perm_scratch@, perm@.skip(i as int)) == permute_spec(
                orig,
                perm@,
            ),
        decreases orig.len() - i,
    {
        let ghost scr = perm_scratch@;
        let ghost pre_out = out@;
        let p = perm[i];
        let x = perm_scratch.remove(p);
        out.push(x);
        proof {
            let tail = perm@.skip(i as int);
            assert(tail[0] == perm@[i as int]);
            assert(tail.drop_first() =~= perm@.skip(i + 1));
            assert(permute_spec(scr, tail) == seq![scr[p as int]] + permute_spec(
                scr.remove(p as int),
                perm@.skip(i + 1),
            ));
            assert(pre_out.push(x) + permute_spec(scr.remove(p as int), perm@.skip(i + 1)) =~= pre_out
                + permute_spec(scr, tail));
        }
        i = i + 1;
    }
    proof {
        assert(permute_spec(perm_scratch@, perm@.skip(orig.len() as int)).len() == 0);
        assert(out@ + permute_spec(perm_scratch@, perm@.skip(orig.len() as int))
            =~= out@);
        lemma_permute_spec_len(orig, perm@);
    }
}

pub proof fn lemma_permute_spec_len(list: Seq<usize>, perm: Seq<usize>)
    requires
        forall|i: int| 0 <= i < perm.len() ==> (perm[i] as int) < list.len() - i,
        perm.len() <= list.len(),
    ensures
        permute_spec(list, perm).len() == perm.len(),
    decreases perm.len(),
{
    if perm.len() > 0 {
        lemma_permute_spec_len(list.remove(perm[0] as int), perm.drop_first());
    }
}

} // verus!
