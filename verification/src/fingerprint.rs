//! Stable digests of exact source bytes.

use vstd::prelude::*;
use crate::digest::{hex_digest, hex_text, sha256_of, is_hex_char, push_hex, sha256, lemma_hex_text_len};
use crate::error::Error;
use crate::text::{chars_of, string_from_chars};

verus! {

/// Stable digest of the exact source bytes observed by a caller.
#[derive(Clone, Debug, PartialEq, Eq)]
pub struct SourceFingerprint(pub String);

impl View for SourceFingerprint {
    type V = Seq<char>;

    open spec fn view(&self) -> Seq<char> {
        self.0@
    }
}

pub open spec fn fingerprint_prefix() -> Seq<char> {
    seq!['s', 'h', 'a', '2', '5', '6', ':']
}

/// `sha256:` followed by the lowercase hexadecimal SHA-256 digest of the bytes.
pub open spec fn fingerprint_text(bytes: Seq<u8>) -> Seq<char> {
    fingerprint_prefix() + hex_text(sha256_of(bytes))
}

pub open spec fn ascii_lower(c: char) -> char {
    if 'A' <= c && c <= 'Z' {
        ((c as u32) + 32) as char
    } else {
        c
    }
}

/// The digest part of a candidate fingerprint: the text after `sha256:`, or nothing.
pub open spec fn fingerprint_digest_part(v: Seq<char>) -> Seq<char> {
    if v.len() >= 7 && v.take(7) == fingerprint_prefix() {
        v.skip(7)
    } else {
        Seq::empty()
    }
}

/// A fingerprint is accepted when its digest part is exactly 64 hexadecimal
/// digits; the accepted value is normalized to lowercase.
pub open spec fn fingerprint_parse_spec(v: Seq<char>) -> Option<Seq<char>> {
    let d = fingerprint_digest_part(v);
    if d.len() == 64 && (forall|i: int| 0 <= i < d.len() ==> #[trigger] is_hex_char(d[i])) {
        Some(fingerprint_prefix() + d.map_values(|c: char| ascii_lower(c)))
    } else {
        None
    }
}

fn push_prefix(out: &mut Vec<char>)
    ensures
        final(out)@ == old(out)@ + fingerprint_prefix(),
{
    out.push('s');
    out.push('h');
    out.push('a');
    out.push('2');
    out.push('5');
    out.push('6');
    out.push(':');
    assert(final(out)@ =~= old(out)@ + fingerprint_prefix());
}

impl SourceFingerprint {
    /// The fingerprint of exact bytes.
    pub fn of(bytes: &[u8]) -> (r: Self)
        ensures
            r@ == fingerprint_text(bytes@),
    {
        let digest = sha256(bytes);
        let mut out: Vec<char> = Vec::new();
        push_prefix(&mut out);
        push_hex(&mut out, digest.as_slice());
        assert(out@ =~= fingerprint_text(bytes@));
        SourceFingerprint(string_from_chars(out.as_slice()))
    }

    /// The fingerprint text.
    pub fn as_str(&self) -> (r: &str)
        ensures
            r@ == self@,
    {
        self.0.as_str()
    }

    /// The fingerprint text, as its display form.
    pub fn to_string(&self) -> (r: String)
        ensures
            r@ == self@,
    {
        self.0.clone()
    }

    /// Parse a fingerprint: `sha256:` and 64 hexadecimal digits, normalized to lowercase.
    pub fn parse(value: &str) -> (r: Result<Self, Error>)
        ensures
            match fingerprint_parse_spec(value@) {
                Some(t) => r matches Ok(f) && f@ == t,
                None => r matches Err(Error::UnsafePath(m)) && m@ == "invalid source fingerprint"@,
            },
    {
        let cs = chars_of(value);
        let has_prefix = cs.len() >= 7 && cs[0] == 's' && cs[1] == 'h' && cs[2] == 'a' && cs[3]
            == '2' && cs[4] == '5' && cs[5] == '6' && cs[6] == ':';
        proof {
            if cs@.len() >= 7 {
                assert(has_prefix == (cs@.take(7) =~= fingerprint_prefix()));
            }
        }
        let ghost d = fingerprint_digest_part(value@);
        let mut ok = has_prefix && cs.len() == 71;
        let mut out: Vec<char> = Vec::new();
        push_prefix(&mut out);
        if ok {
            let mut i: usize = 7;
            while i < 71
                invariant
                    cs@ == value@,
                    cs@.len() == 71,
                    d == cs@.skip(7),
                    7 <= i <= 71,
                    ok == (forall|k: int| 0 <= k < i - 7 ==> #[trigger] is_hex_char(d[k])),
                    ok ==> out@ == fingerprint_prefix() + d.take(i - 7).map_values(
                        |c: char| ascii_lower(c),
                    ),
                decreases 71 - i,
            {
                let c = cs[i];
                let is_hex = ('0' <= c && c <= '9') || ('a' <= c && c <= 'f') || ('A' <= c && c
                    <= 'F');
                assert(d[i - 7] == c);
                assert(is_hex == is_hex_char(c));
                if !is_hex {
                    ok = false;
                }
                if ok {
                    let lower = if 'A' <= c && c <= 'Z' {
                        ((c as u8) + 32) as char
                    } else {
                        c
                    };
                    assert(lower == ascii_lower(c));
                    out.push(lower);
                    assert(d.take(i - 6).map_values(|c: char| ascii_lower(c)) =~= d.take(
                        i - 7,
                    ).map_values(|c: char| ascii_lower(c)).push(ascii_lower(c)));
                }
                i = i + 1;
            }
            assert(d.take(64) =~= d);
        }
        if ok {
            Ok(SourceFingerprint(string_from_chars(out.as_slice())))
        } else {
            proof {
                if d.len() == 64 {
                    assert(cs@.len() == 71 && has_prefix);
                }
            }
            Err(Error::UnsafePath("invalid source fingerprint".to_owned()))
        }
    }
}

proof fn lemma_hex_text_lower(b: Seq<u8>)
    ensures
        forall|i: int| 0 <= i < hex_text(b).len() ==> #[trigger] crate::digest::is_lower_hex_char(
            hex_text(b)[i],
        ),
    decreases b.len(),
{
    lemma_hex_text_len(b);
    if b.len() > 0 {
        lemma_hex_text_len(b.drop_last());
        lemma_hex_text_lower(b.drop_last());
        let hi = b.last() as int / 16;
        let lo = b.last() as int % 16;
        assert(crate::digest::is_lower_hex_char(crate::digest::hex_digit(hi)));
        assert(crate::digest::is_lower_hex_char(crate::digest::hex_digit(lo)));
    }
}

/// Law: a fingerprint built from any 32-byte digest parses back to itself
/// (so every fingerprint that `SourceFingerprint::of` returns round-trips).
pub proof fn lemma_fingerprint_round_trip(digest: Seq<u8>)
    requires
        digest.len() == 32,
    ensures
        fingerprint_parse_spec(fingerprint_prefix() + hex_text(digest)) == Some(
            fingerprint_prefix() + hex_text(digest),
        ),
{
    let h = hex_text(digest);
    let t = fingerprint_prefix() + h;
    lemma_hex_text_len(digest);
    lemma_hex_text_lower(digest);
    assert(t.take(7) =~= fingerprint_prefix());
    assert(fingerprint_digest_part(t) =~= h);
    assert forall|i: int| 0 <= i < h.len() implies #[trigger] is_hex_char(h[i]) by {}
    assert forall|i: int| 0 <= i < h.len() implies ascii_lower(h[i]) == h[i] by {
        assert(crate::digest::is_lower_hex_char(h[i]));
    }
    assert(h.map_values(|c: char| ascii_lower(c)) =~= h);
}

} // verus!
