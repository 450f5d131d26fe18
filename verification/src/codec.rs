//! Base64 serialization of packed edge bytes: the catalog format uses the
//! standard alphabet without padding, with the vertex count supplied out of
//! band.

use vstd::prelude::*;
use vstd::string::StringSliceAdditionalSpecFns;

verus! {

/// The standard base64 alphabet.
pub open spec fn b64_alphabet() -> Seq<char> {
    "ABCDEFGHIJKLMNOPQRSTUVWXYZabcdefghijklmnopqrstuvwxyz0123456789+/"@
}

pub open spec fn b64_char(v: u8) -> char {
    b64_alphabet()[v as int]
}

/// The canonical unpadded base64 encoding of a byte sequence: each group
/// of three bytes becomes four alphabet characters, a trailing group of
/// one or two bytes becomes two or three characters, and the unused low
/// bits of the last character are zero.
pub open spec fn b64_enc(bytes: Seq<u8>) -> Seq<char>
    decreases bytes.len(),
{
    if bytes.len() == 0 {
        Seq::empty()
    } else if bytes.len() == 1 {
        let b0 = bytes[0];
        seq![b64_char(b0 >> 2u8), b64_char((b0 & 3u8) << 4u8)]
    } else if bytes.len() == 2 {
        let b0 = bytes[0];
        let b1 = bytes[1];
        seq![
            b64_char(b0 >> 2u8),
            b64_char(((b0 & 3u8) << 4u8) | (b1 >> 4u8)),
            b64_char((b1 & 15u8) << 2u8),
        ]
    } else {
        let b0 = bytes[0];
        let b1 = bytes[1];
        let b2 = bytes[2];
        seq![
            b64_char(b0 >> 2u8),
            b64_char(((b0 & 3u8) << 4u8) | (b1 >> 4u8)),
            b64_char(((b1 & 15u8) << 2u8) | (b2 >> 6u8)),
            b64_char(b2 & 63u8),
        ] + b64_enc(bytes.skip(3))
    }
}

/// The encoded length determines the byte length: three bytes for every
/// full four-character group, plus one byte for two trailing characters or
/// two bytes for three.
pub proof fn lemma_b64_enc_len_inverts(bytes: Seq<u8>)
    ensures
        b64_enc(bytes).len() % 4 != 1,
        bytes.len() == 3 * (b64_enc(bytes).len() / 4) + if b64_enc(bytes).len() % 4 == 0 {
            0int
        } else {
            b64_enc(bytes).len() % 4 - 1
        },
    decreases bytes.len(),
{
    if bytes.len() >= 3 {
        lemma_b64_enc_len_inverts(bytes.skip(3));
    }
}

/// Two byte sequences with the same encoding have the same length.
pub proof fn lemma_b64_enc_same_len(a: Seq<u8>, b: Seq<u8>)
    requires
        b64_enc(a) == b64_enc(b),
    ensures
        a.len() == b.len(),
{
    lemma_b64_enc_len_inverts(a);
    lemma_b64_enc_len_inverts(b);
}

/// An error for strings that are not the catalog encoding of any graph.
#[derive(Debug, Clone, Copy, PartialEq, Eq, Structural)]
pub enum GraphParseError {
    BadBase64,
}

/// Relies on `base64::encode_config` with `base64::STANDARD_NO_PAD`: it
/// returns the canonical unpadded base64 encoding of the input bytes.
#[verifier::external_body]
pub(crate) fn b64_encode(bytes: &Vec<u8>) -> (r: String)
    ensures
        r@ == b64_enc(bytes@),
{
    base64::encode_config(bytes, base64::STANDARD_NO_PAD)
}

/// Relies on `base64::encode_config_buf` with `base64::STANDARD_NO_PAD`:
/// it appends the canonical unpadded base64 encoding of the input bytes to
/// the buffer.
#[verifier::external_body]
pub(crate) fn b64_encode_append(bytes: &Vec<u8>, buf: &mut String)
    ensures
        final(buf)@ == old(buf)@ + b64_enc(bytes@),
{
    base64::encode_config_buf(bytes, base64::STANDARD_NO_PAD, buf)
}

#[verifier::external_type_specification]
#[verifier::external_body]
pub struct ExDecodeError(base64::DecodeError);

/// Relies on `base64::decode_config` with `base64::STANDARD_NO_PAD`: on
/// input free of padding characters it accepts exactly the canonical
/// unpadded encodings (a symbol outside the alphabet, a leftover length of
/// one, or nonzero trailing bits in the last symbol are each rejected),
/// and decodes them to their unique preimage.
#[verifier::external_body]
pub(crate) fn b64_decode(s: &str) -> (r: Result<Vec<u8>, base64::DecodeError>)
    requires
        !s.spec_bytes().contains(61u8),
    ensures
        r is Ok ==> s@ == b64_enc(r->Ok_0@),
        forall|b: Seq<u8>| s@ == b64_enc(b) ==> r is Ok && r->Ok_0@ == b,
{
    base64::decode_config(s, base64::STANDARD_NO_PAD)
}

/// Whether the string holds the base64 padding byte `=` (code 61), which
/// the catalog format never emits.
pub fn contains_pad(s: &str) -> (r: bool)
    ensures
        r <==> s.spec_bytes().contains(61u8),
{
    let b = s.as_bytes();
    let mut found = false;
    let mut i: usize = 0;
    while i < b.len()
        invariant
            i <= b@.len(),
            b@ == s.spec_bytes(),
            found <==> b@.subrange(0, i as int).contains(61u8),
        decreases b@.len() - i,
    {
        proof {
            let gi = i as int;
            assert(b@.subrange(0, gi + 1) =~= b@.subrange(0, gi).push(b@[gi]));
            if b@[gi] == 61u8 {
                assert(b@.subrange(0, gi + 1)[gi] == 61u8);
            } else if b@.subrange(0, gi).contains(61u8) {
                let j = choose|j: int| 0 <= j < gi && b@.subrange(0, gi)[j] == 61u8;
                assert(b@.subrange(0, gi + 1)[j] == 61u8);
            } else {
                assert forall|j: int| 0 <= j < gi + 1 implies #[trigger] b@.subrange(0, gi + 1)[j]
                    != 61u8 by {
                    if j < gi {
                        assert(b@.subrange(0, gi)[j] != 61u8);
                    }
                }
            }
        }
        if b[i] == 61u8 {
            found = true;
        }
        i = i + 1;
    }
    proof {
        assert(b@.subrange(0, b@.len() as int) =~= b@);
    }
    found
}

} // verus!
