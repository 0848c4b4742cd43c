//! SHA-1 digests and their lowercase hex renderings.
use vstd::prelude::*;

use sha1::Digest;

verus! {

/// The SHA-1 digest of a byte string, as the `sha1` crate computes it.
pub uninterp spec fn sha1_digest(data: Seq<u8>) -> Seq<u8>;

/// Calls `sha1::Sha1::digest` on `data`.
///
/// The contract claims only that the 20-byte result is the SHA-1 digest of
/// `data`, a function of `data` alone.
#[verifier::external_body]
pub(crate) fn sha1(data: &[u8]) -> (h: [u8; 20])
    ensures
        h@ == sha1_digest(data@),
{
    sha1::Sha1::digest(data).into()
}

/// The lowercase hexadecimal digit for `n` in `0..16`.
pub open spec fn hex_digit(n: u8) -> char {
    if n < 10 {
        (n + 48) as char
    } else {
        (n + 87) as char
    }
}

/// The lowercase hex rendering of a byte string: two digits per byte, high
/// nibble first.
pub open spec fn hex_lower(s: Seq<u8>) -> Seq<char>
    decreases s.len(),
{
    if s.len() == 0 {
        Seq::empty()
    } else {
        seq![hex_digit(s[0] / 16), hex_digit(s[0] % 16)] + hex_lower(s.drop_first())
    }
}

/// Calls `hex::encode` on `data`.
///
/// The contract claims what the crate documents: the result is the lowercase
/// hexadecimal rendering of `data`, two characters per byte.
#[verifier::external_body]
pub(crate) fn hex_encode(data: &[u8]) -> (s: String)
    ensures
        s@ == hex_lower(data@),
{
    hex::encode(data)
}

proof fn lemma_hex_digit_injective(a: u8, b: u8)
    requires
        0 <= a < 16,
        0 <= b < 16,
        hex_digit(a) == hex_digit(b),
    ensures
        a == b,
{
}

/// The hex rendering has two characters per byte.
pub proof fn lemma_hex_lower_len(s: Seq<u8>)
    ensures
        hex_lower(s).len() == 2 * s.len(),
    decreases s.len(),
{
    if s.len() > 0 {
        lemma_hex_lower_len(s.drop_first());
    }
}

/// Two byte strings have the same hex rendering only if they are equal.
pub proof fn lemma_hex_lower_injective(a: Seq<u8>, b: Seq<u8>)
    ensures
        hex_lower(a) == hex_lower(b) <==> a == b,
    decreases a.len(),
{
    if hex_lower(a) == hex_lower(b) {
        lemma_hex_lower_len(a);
        lemma_hex_lower_len(b);
        if a.len() > 0 {
            let ha = hex_lower(a);
            let hb = hex_lower(b);
            assert(ha[0] == hb[0] && ha[1] == hb[1]);
            lemma_hex_digit_injective(a[0] / 16, b[0] / 16);
            lemma_hex_digit_injective(a[0] % 16, b[0] % 16);
            assert(a[0] == b[0]);
            assert(hex_lower(a.drop_first()) =~= ha.skip(2));
            assert(hex_lower(b.drop_first()) =~= hb.skip(2));
            lemma_hex_lower_injective(a.drop_first(), b.drop_first());
            assert(a =~= seq![a[0]] + a.drop_first());
            assert(b =~= seq![b[0]] + b.drop_first());
        } else {
            assert(a =~= b);
        }
    }
}

/// Whether `data` hashes to `expected`. The hex renderings of the SHA-1
/// digest and of the expected hash are compared, which amounts to comparing
/// the bytes.
pub fn piece_hash_matches(data: &[u8], expected: &[u8; 20]) -> (ok: bool)
    ensures
        ok == (sha1_digest(data@) == expected@),
{
    let digest = sha1(data);
    let computed = hex_encode(digest.as_slice());
    let wanted = hex_encode(expected.as_slice());
    proof {
        lemma_hex_lower_injective(digest@, expected@);
    }
    computed == wanted
}

} // verus!
