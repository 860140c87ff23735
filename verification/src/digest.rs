//! SHA-256 digests, lowercase hexadecimal rendering, and source fingerprints.

use vstd::prelude::*;
use sha2::{Digest, Sha256};
use crate::text::string_from_chars;

verus! {

/// The SHA-256 digest that the `sha2` crate computes for a byte sequence.
pub uninterp spec fn sha256_of(data: Seq<u8>) -> Seq<u8>;

/// `sha2::Sha256::digest`: the 32-byte SHA-256 digest of the input.
#[verifier::external_body]
pub(crate) fn sha256(data: &[u8]) -> (r: Vec<u8>)
    ensures
        r@ == sha256_of(data@),
        r@.len() == 32,
{
    Sha256::digest(data).to_vec()
}

/// The lowercase hexadecimal digit for a value below 16.
pub open spec fn hex_digit(n: int) -> char {
    if n < 10 {
        (48 + n) as char
    } else {
        (87 + n) as char
    }
}

/// Two lowercase hexadecimal digits per byte, most significant nibble first.
pub open spec fn hex_text(b: Seq<u8>) -> Seq<char>
    decreases b.len(),
{
    if b.len() == 0 {
        Seq::empty()
    } else {
        hex_text(b.drop_last()).push(hex_digit(b.last() as int / 16)).push(
            hex_digit(b.last() as int % 16),
        )
    }
}

pub open spec fn is_lower_hex_char(c: char) -> bool {
    ('0' <= c && c <= '9') || ('a' <= c && c <= 'f')
}

pub open spec fn is_hex_char(c: char) -> bool {
    is_lower_hex_char(c) || ('A' <= c && c <= 'F')
}

fn hex_char(n: u8) -> (c: char)
    requires
        n < 16,
    ensures
        c == hex_digit(n as int),
{
    if n < 10 {
        ((48u8 + n) as char)
    } else {
        ((87u8 + n) as char)
    }
}

pub proof fn lemma_hex_text_len(b: Seq<u8>)
    ensures
        hex_text(b).len() == 2 * b.len(),
    decreases b.len(),
{
    if b.len() > 0 {
        lemma_hex_text_len(b.drop_last());
    }
}

/// Append the lowercase hexadecimal rendering of `bytes` to `out`.
pub fn push_hex(out: &mut Vec<char>, bytes: &[u8])
    ensures
        final(out)@ == old(out)@ + hex_text(bytes@),
{
    let ghost start = out@;
    let mut i: usize = 0;
    while i < bytes.len()
        invariant
            i <= bytes@.len(),
            out@ == start + hex_text(bytes@.take(i as int)),
        decreases bytes@.len() - i,
    {
        let byte = bytes[i];
        out.push(hex_char(byte / 16));
        out.push(hex_char(byte % 16));
        proof {
            assert(bytes@.take(i + 1).drop_last() =~= bytes@.take(i as int));
        }
        i = i + 1;
    }
    assert(bytes@.take(bytes@.len() as int) =~= bytes@);
}

/// Lowercase hexadecimal rendering of a byte sequence.
pub fn hex_string(bytes: &[u8]) -> (r: String)
    ensures
        r@ == hex_text(bytes@),
{
    let mut out: Vec<char> = Vec::new();
    push_hex(&mut out, bytes);
    assert(out@ =~= hex_text(bytes@));
    string_from_chars(out.as_slice())
}

/// Lowercase hexadecimal SHA-256 digest of a byte sequence.
pub fn hex_digest(bytes: &[u8]) -> (r: String)
    ensures
        r@ == hex_text(sha256_of(bytes@)),
        r@.len() == 64,
{
    let digest = sha256(bytes);
    proof {
        lemma_hex_text_len(digest@);
    }
    hex_string(digest.as_slice())
}

} // verus!
