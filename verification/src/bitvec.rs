//! A small bit-packed boolean vector, sized for the lower-triangle edge
//! store of a graph on at most a few hundred vertices.

use vstd::prelude::*;

verus! {

/// Bits are packed most-significant-first within each byte: bit `i` of the
/// vector is the `(7 - i % 8)`-th bit of byte `i / 8`.
#[derive(Debug)]
pub struct BitVec {
    pub len: u16,
    pub vec: Vec<u8>,
}

impl Clone for BitVec {
    fn clone(&self) -> (r: Self)
        ensures
            r.len == self.len,
            r.vec@ == self.vec@,
    {
        let v = self.vec.clone();
        proof {
            assert(v@ =~= self.vec@);
        }
        BitVec { len: self.len, vec: v }
    }
}

/// The bit stored at position `i` of `bytes`, counting the high bit of
/// `bytes[0]` as position 0.
pub open spec fn bit_at(bytes: Seq<u8>, i: int) -> bool {
    (bytes[i / 8] >> ((7 - (i % 8)) as u8)) & 1 == 1
}

impl View for BitVec {
    type V = Seq<bool>;

    open spec fn view(&self) -> Seq<bool> {
        Seq::new(self.len as nat, |i: int| bit_at(self.vec@, i))
    }
}

impl BitVec {
    /// The byte store holds exactly as many bytes as `len` bits require.
    pub open spec fn wf(&self) -> bool {
        self.vec@.len() == (self.len + 7) / 8
    }

    pub fn new() -> (r: Self)
        ensures
            r.wf(),
            r.len == 0,
            r.vec@.len() == 0,
            r@ == Seq::<bool>::empty(),
    {
        let r = BitVec { len: 0, vec: Vec::new() };
        proof {
            assert(r@ =~= Seq::<bool>::empty());
        }
        r
    }

    pub fn push(&mut self, val: bool)
        requires
            old(self).wf(),
            old(self).len < 0xFFFF,
        ensures
            final(self).wf(),
            final(self).len == old(self).len + 1,
            final(self)@ == old(self)@.push(val),
    {
        if (self.len / 8) as usize >= self.vec.len() {
            self.vec.push(0);
        }
        let word = (self.len / 8) as usize;
        let bit: u8 = (7 - self.len % 8) as u8;
        let b = self.vec[word];
        let nb: u8 = if val {
            b | (1u8 << bit)
        } else {
            b & !(1u8 << bit)
        };
        self.vec[word] = nb;
        proof {
            lemma_bit_write(b, nb, bit, val);
            let new_view = self@;
            let old_view = old(self)@;
            assert forall|i: int| 0 <= i < old(self).len implies new_view[i] == old_view[i] by {
                if i / 8 == old(self).len as int / 8 {
                    assert(i % 8 != old(self).len as int % 8);
                    assert(((7 - (i % 8)) as u8) != bit);
                }
            }
            assert(bit_at(self.vec@, old(self).len as int) == val);
        }
        self.len = self.len + 1;
        proof {
            assert(self@ =~= old(self)@.push(val));
        }
    }

    /// Reading an index at or beyond `len` is a caller error and is ruled
    /// out by the precondition.
    pub fn get(&self, index: usize) -> (r: bool)
        requires
            self.wf(),
            index < self.len,
        ensures
            r == self@[index as int],
    {
        let word = index / 8;
        let bit: u8 = (7 - index % 8) as u8;
        (self.vec[word] >> bit) & 1 == 1
    }
}

/// How a single-bit write changes each bit position of a byte: position
/// `k` takes the written value and every other position keeps its bit.
proof fn lemma_bit_write(b: u8, nb: u8, k: u8, val: bool)
    requires
        k < 8,
        nb == if val {
            b | (1u8 << k)
        } else {
            b & !(1u8 << k)
        },
    ensures
        ((nb >> k) & 1 == 1) == val,
        forall|m: u8| m < 8 && m != k ==> ((nb >> m) & 1) == ((b >> m) & 1),
{
    if val {
        assert(((b | (1u8 << k)) >> k) & 1 == 1) by (bit_vector)
            requires
                k < 8,
        ;
        assert forall|m: u8| m < 8 && m != k implies (((b | (1u8 << k)) >> m) & 1) == ((b >> m)
            & 1) by {
            assert(m < 8 && m != k && k < 8 ==> (((b | (1u8 << k)) >> m) & 1) == ((b >> m) & 1))
                by (bit_vector);
        }
    } else {
        assert(((b & !(1u8 << k)) >> k) & 1 == 0) by (bit_vector)
            requires
                k < 8,
        ;
        assert forall|m: u8| m < 8 && m != k implies (((b & !(1u8 << k)) >> m) & 1) == ((b >> m)
            & 1) by {
            assert(m < 8 && m != k && k < 8 ==> (((b & !(1u8 << k)) >> m) & 1) == ((b >> m) & 1))
                by (bit_vector);
        }
    }
}

} // verus!
