//! Text primitives shared by the projection, export and protocol code: the
//! few standard-library conversions the library relies on, and verified
//! searching over character sequences.

use vstd::prelude::*;
use vstd::utf8::*;

verus! {

/// What `std::str::from_utf8` errors print for bytes that are not UTF-8.
pub uninterp spec fn utf8_error_text(bytes: Seq<u8>) -> Seq<char>;

/// What `str::to_lowercase` returns for a string.
pub uninterp spec fn lowercase_of(s: Seq<char>) -> Seq<char>;

/// What `String::from_utf8_lossy` returns for a byte sequence.
pub uninterp spec fn lossy_text_of(bytes: Seq<u8>) -> Seq<char>;

/// What the `Debug` format of a string slice prints (quoted and escaped).
pub uninterp spec fn debug_text_of(s: Seq<char>) -> Seq<char>;

/// `String::from_utf8`: succeeds exactly when the bytes are UTF-8, and then
/// holds the decoded characters; otherwise the error's display text.
#[verifier::external_body]
pub(crate) fn string_from_utf8(bytes: Vec<u8>) -> (r: Result<String, String>)
    ensures
        r is Ok <==> valid_utf8(bytes@),
        r matches Ok(s) ==> s@ == decode_utf8(bytes@),
        r matches Err(m) ==> m@ == utf8_error_text(bytes@),
{
    match String::from_utf8(bytes) {
        Ok(s) => Ok(s),
        Err(e) => Err(e.to_string()),
    }
}

/// `str::to_lowercase` (full Unicode lowercase mapping); the result is named.
#[verifier::external_body]
pub(crate) fn to_lowercase(s: &str) -> (r: String)
    ensures
        r@ == lowercase_of(s@),
{
    s.to_lowercase()
}

/// `String::from_utf8_lossy`: valid UTF-8 decodes unchanged; other input is
/// decoded with replacement characters (named).
#[verifier::external_body]
pub(crate) fn lossy_text(bytes: &[u8]) -> (r: String)
    ensures
        r@ == lossy_text_of(bytes@),
        valid_utf8(bytes@) ==> r@ == decode_utf8(bytes@),
{
    String::from_utf8_lossy(bytes).into_owned()
}

/// The `Debug` rendering of a string slice (named).
#[verifier::external_body]
pub(crate) fn debug_text(s: &str) -> (r: String)
    ensures
        r@ == debug_text_of(s@),
{
    format!("{s:?}")
}

/// `String::from_iter` over characters: the string holds exactly those characters.
#[verifier::external_body]
pub(crate) fn string_from_chars(cs: &[char]) -> (r: String)
    ensures
        r@ == cs@,
{
    cs.iter().collect()
}

pub open spec fn decimal_digit(d: int) -> char {
    (48 + d) as char
}

/// Decimal digits of a number, most significant first, without padding.
pub open spec fn decimal_text(n: nat) -> Seq<char>
    decreases n,
{
    if n < 10 {
        seq![decimal_digit(n as int)]
    } else {
        decimal_text(n / 10).push(decimal_digit((n % 10) as int))
    }
}

fn push_decimal(out: &mut Vec<char>, n: u64)
    ensures
        final(out)@ == old(out)@ + decimal_text(n as nat),
    decreases n,
{
    if n >= 10 {
        push_decimal(out, n / 10);
    }
    let d: u8 = (n % 10) as u8;
    let c = (48u8 + d) as char;
    assert(c == decimal_digit((n % 10) as int));
    out.push(c);
    assert(decimal_text(n as nat) == if n < 10 {
        seq![decimal_digit(n as int)]
    } else {
        decimal_text((n / 10) as nat).push(decimal_digit((n % 10) as int))
    });
}

/// The decimal digits of a number, as `u64::to_string` writes them.
pub(crate) fn decimal(n: u64) -> (r: String)
    ensures
        r@ == decimal_text(n as nat),
{
    let mut digits: Vec<char> = Vec::new();
    push_decimal(&mut digits, n);
    assert(digits@ =~= decimal_text(n as nat));
    string_from_chars(digits.as_slice())
}

/// The characters of a string slice.
pub fn chars_of(s: &str) -> (r: Vec<char>)
    ensures
        r@ == s@,
{
    let mut out: Vec<char> = Vec::new();
    for c in it: s.chars()
        invariant
            it.seq() == s@,
            out@ == s@.take(it.index() as int),
    {
        assert(s@.take(it.index() as int).push(c) =~= s@.take(it.index() + 1));
        out.push(c);
    }
    assert(out@ =~= s@);
    out
}

/// `needle` occurs in `hay` starting at `i`.
pub open spec fn occurs_at<A>(hay: Seq<A>, needle: Seq<A>, i: int) -> bool {
    0 <= i && i + needle.len() <= hay.len() && hay.subrange(i, i + needle.len()) == needle
}

pub open spec fn seq_contains<A>(hay: Seq<A>, needle: Seq<A>) -> bool {
    exists|i: int| #[trigger] occurs_at(hay, needle, i)
}

/// Whether `needle` occurs as a contiguous run in `hay`.
pub fn contains_chars(hay: &[char], needle: &[char]) -> (r: bool)
    ensures
        r == seq_contains(hay@, needle@),
{
    if needle.len() > hay.len() {
        return false;
    }
    if needle.len() == 0 {
        assert(hay@.subrange(0, 0) =~= needle@);
        assert(occurs_at(hay@, needle@, 0));
        return true;
    }
    let last = hay.len() - needle.len();
    let mut i: usize = 0;
    while i <= last
        invariant
            last == hay@.len() - needle@.len(),
            needle@.len() > 0,
            hay@.len() <= usize::MAX,
            i <= last + 1,
            forall|k: int| 0 <= k < i ==> !#[trigger] occurs_at(hay@, needle@, k),
        decreases last + 1 - i,
    {
        let mut j: usize = 0;
        let mut same = true;
        while j < needle.len()
            invariant
                i <= last,
                last == hay@.len() - needle@.len(),
                hay@.len() <= usize::MAX,
                j <= needle@.len(),
                same == (forall|k: int| 0 <= k < j ==> hay@[i + k] == needle@[k]),
            decreases needle@.len() - j,
        {
            if hay[i + j] != needle[j] {
                same = false;
            }
            j = j + 1;
        }
        if same {
            assert(hay@.subrange(i as int, i + needle@.len()) =~= needle@);
            assert(occurs_at(hay@, needle@, i as int));
            return true;
        }
        proof {
            if occurs_at(hay@, needle@, i as int) {
                assert forall|k: int| 0 <= k < needle@.len() implies hay@[i + k] == needle@[k] by {
                    assert(hay@.subrange(i as int, i + needle@.len())[k] == hay@[i + k]);
                }
            }
        }
        i = i + 1;
    }
    proof {
        assert forall|k: int| #[trigger] occurs_at(hay@, needle@, k) implies false by {}
    }
    false
}

/// Byte length of a Unicode `White_Space` character whose UTF-8 encoding starts
/// at `i`, or 0 when none does.
pub open spec fn ws_len_at(b: Seq<u8>, i: int) -> int {
    if 0 <= i < b.len() && ((9u8 <= b[i] && b[i] <= 13u8) || b[i] == 32u8) {
        1
    } else if 0 <= i && i + 1 < b.len() && b[i] == 0xC2u8 && (b[i + 1] == 0x85u8 || b[i + 1]
        == 0xA0u8) {
        2
    } else if 0 <= i && i + 2 < b.len() && ws3(b[i], b[i + 1], b[i + 2]) {
        3
    } else {
        0
    }
}

/// The three-byte encodings of `White_Space` characters.
pub open spec fn ws3(x: u8, y: u8, z: u8) -> bool {
    ||| (x == 0xE1u8 && y == 0x9Au8 && z == 0x80u8)
    ||| (x == 0xE2u8 && y == 0x80u8 && ((0x80u8 <= z && z <= 0x8Au8) || z == 0xA8u8 || z
        == 0xA9u8 || z == 0xAFu8))
    ||| (x == 0xE2u8 && y == 0x81u8 && z == 0x9Fu8)
    ||| (x == 0xE3u8 && y == 0x80u8 && z == 0x80u8)
}

/// Byte length of a `White_Space` character whose encoding ends just before `j`, or 0.
pub open spec fn ws_len_before(b: Seq<u8>, j: int) -> int {
    if 1 <= j <= b.len() && ((9u8 <= b[j - 1] && b[j - 1] <= 13u8) || b[j - 1] == 32u8) {
        1
    } else if 2 <= j <= b.len() && b[j - 2] == 0xC2u8 && (b[j - 1] == 0x85u8 || b[j - 1]
        == 0xA0u8) {
        2
    } else if 3 <= j <= b.len() && ws3(b[j - 3], b[j - 2], b[j - 1]) {
        3
    } else {
        0
    }
}

/// Leading white space removed (`str::trim_start` on the UTF-8 text).
pub open spec fn trim_start_bytes(s: Seq<u8>) -> Seq<u8>
    decreases s.len(),
{
    if ws_len_at(s, 0) > 0 {
        trim_start_bytes(s.skip(ws_len_at(s, 0)))
    } else {
        s
    }
}

/// Trailing white space removed (`str::trim_end` on the UTF-8 text).
pub open spec fn trim_end_bytes(s: Seq<u8>) -> Seq<u8>
    decreases s.len(),
{
    if ws_len_before(s, s.len() as int) > 0 {
        trim_end_bytes(s.take(s.len() - ws_len_before(s, s.len() as int)))
    } else {
        s
    }
}

/// White space removed at both ends (`str::trim` on the UTF-8 text).
pub open spec fn trim_bytes(s: Seq<u8>) -> Seq<u8> {
    trim_end_bytes(trim_start_bytes(s))
}

fn ws_len_at_exec(b: &[u8], i: usize) -> (r: usize)
    ensures
        r == ws_len_at(b@, i as int),
{
    let n = b.len();
    if i < n && ((9u8 <= b[i] && b[i] <= 13u8) || b[i] == 32u8) {
        1
    } else if i < n && n - i > 1 && b[i] == 0xC2u8 && (b[i + 1] == 0x85u8 || b[i + 1] == 0xA0u8) {
        2
    } else if i < n && n - i > 2 && ws3_exec(b[i], b[i + 1], b[i + 2]) {
        3
    } else {
        0
    }
}

fn ws3_exec(x: u8, y: u8, z: u8) -> (r: bool)
    ensures
        r == ws3(x, y, z),
{
    (x == 0xE1u8 && y == 0x9Au8 && z == 0x80u8) || (x == 0xE2u8 && y == 0x80u8 && ((0x80u8 <= z
        && z <= 0x8Au8) || z == 0xA8u8 || z == 0xA9u8 || z == 0xAFu8)) || (x == 0xE2u8 && y
        == 0x81u8 && z == 0x9Fu8) || (x == 0xE3u8 && y == 0x80u8 && z == 0x80u8)
}

fn ws_len_before_exec(b: &[u8], j: usize) -> (r: usize)
    ensures
        r == ws_len_before(b@, j as int),
{
    let n = b.len();
    if 1 <= j && j <= n && ((9u8 <= b[j - 1] && b[j - 1] <= 13u8) || b[j - 1] == 32u8) {
        1
    } else if 2 <= j && j <= n && b[j - 2] == 0xC2u8 && (b[j - 1] == 0x85u8 || b[j - 1]
        == 0xA0u8) {
        2
    } else if 3 <= j && j <= n && ws3_exec(b[j - 3], b[j - 2], b[j - 1]) {
        3
    } else {
        0
    }
}

/// The bounds `[from', to')` of `b[from..to]` with white space trimmed at both ends.
pub fn trim_range(b: &[u8], from: usize, to: usize) -> (r: (usize, usize))
    requires
        from <= to <= b@.len(),
    ensures
        from <= r.0 <= r.1 <= to,
        b@.subrange(r.0 as int, r.1 as int) == trim_bytes(b@.subrange(from as int, to as int)),
        b@.subrange(r.0 as int, to as int) == trim_start_bytes(b@.subrange(from as int, to as int)),
{
    let s = trim_start_range(b, from, to);
    let e = trim_end_range(b, s, to);
    (s, e)
}

/// Start of `b[from..to]` after leading white space.
pub fn trim_start_range(b: &[u8], from: usize, to: usize) -> (r: usize)
    requires
        from <= to <= b@.len(),
    ensures
        from <= r <= to,
        b@.subrange(r as int, to as int) == trim_start_bytes(b@.subrange(from as int, to as int)),
{
    let mut i = from;
    loop
        invariant
            from <= i <= to,
            to <= b@.len(),
            trim_start_bytes(b@.subrange(i as int, to as int)) == trim_start_bytes(
                b@.subrange(from as int, to as int),
            ),
        decreases to - i,
    {
        let ghost sub = b@.subrange(i as int, to as int);
        let k = ws_len_at_exec(b, i);
        if k == 0 || k > to - i {
            proof {
                if k == 0 {
                    assert(ws_len_at(sub, 0) == 0) by {
                        if sub.len() > 0 {
                            assert(sub[0] == b@[i as int]);
                        }
                        if sub.len() > 1 {
                            assert(sub[1] == b@[i + 1]);
                        }
                        if sub.len() > 2 {
                            assert(sub[2] == b@[i + 2]);
                        }
                    }
                } else {
                    assert(ws_len_at(sub, 0) == 0) by {
                        if sub.len() > 0 {
                            assert(sub[0] == b@[i as int]);
                        }
                        if sub.len() > 1 {
                            assert(sub[1] == b@[i + 1]);
                        }
                    }
                }
            }
            return i;
        }
        proof {
            assert(sub[0] == b@[i as int]);
            if k >= 2 {
                assert(sub[1] == b@[i + 1]);
            }
            if k >= 3 {
                assert(sub[2] == b@[i + 2]);
            }
            assert(ws_len_at(sub, 0) == k);
            assert(sub.skip(k as int) =~= b@.subrange(i + k, to as int));
        }
        i = i + k;
    }
}

/// End of `b[from..to]` before trailing white space.
pub fn trim_end_range(b: &[u8], from: usize, to: usize) -> (r: usize)
    requires
        from <= to <= b@.len(),
    ensures
        from <= r <= to,
        b@.subrange(from as int, r as int) == trim_end_bytes(b@.subrange(from as int, to as int)),
{
    let mut j = to;
    loop
        invariant
            from <= j <= to,
            to <= b@.len(),
            trim_end_bytes(b@.subrange(from as int, j as int)) == trim_end_bytes(
                b@.subrange(from as int, to as int),
            ),
        decreases j - from,
    {
        let ghost sub = b@.subrange(from as int, j as int);
        let k = ws_len_before_exec(b, j);
        if k == 0 || k > j - from {
            proof {
                assert(ws_len_before(sub, sub.len() as int) == 0) by {
                    if sub.len() >= 1 {
                        assert(sub[sub.len() - 1] == b@[j - 1]);
                    }
                    if sub.len() >= 2 {
                        assert(sub[sub.len() - 2] == b@[j - 2]);
                    }
                    if sub.len() >= 3 {
                        assert(sub[sub.len() - 3] == b@[j - 3]);
                    }
                }
            }
            return j;
        }
        proof {
            assert(sub[sub.len() - 1] == b@[j - 1]);
            if k >= 2 {
                assert(sub[sub.len() - 2] == b@[j - 2]);
            }
            if k >= 3 {
                assert(sub[sub.len() - 3] == b@[j - 3]);
            }
            assert(ws_len_before(sub, sub.len() as int) == k);
            assert(sub.take(sub.len() - k) =~= b@.subrange(from as int, j - k));
        }
        j = j - k;
    }
}


/// The UTF-8 encoding of a concatenation is the concatenation of the encodings.
pub proof fn lemma_encode_utf8_concat(a: Seq<char>, b: Seq<char>)
    ensures
        encode_utf8(a + b) == encode_utf8(a) + encode_utf8(b),
    decreases a.len(),
{
    if a.len() > 0 {
        lemma_encode_utf8_concat(a.drop_first(), b);
        assert((a + b).drop_first() =~= a.drop_first() + b);
        assert((a + b)[0] == a[0]);
        assert(encode_scalar(a[0] as u32) + (encode_utf8(a.drop_first()) + encode_utf8(b)) =~= (encode_scalar(a[0] as u32) + encode_utf8(a.drop_first())) + encode_utf8(b));
    } else {
        assert(a + b =~= b);
    }
}


/// All characters are ASCII.
pub open spec fn is_ascii_text(s: Seq<char>) -> bool {
    forall|i: int| 0 <= i < s.len() ==> ((#[trigger] s[i]) as u32) < 128
}

/// The bytes of ASCII text, one per character.
pub open spec fn ascii_of(s: Seq<char>) -> Seq<u8> {
    s.map_values(|c: char| c as u8)
}

/// The bytes of ASCII text.
pub fn ascii_bytes(s: &str) -> (r: Vec<u8>)
    requires
        is_ascii_text(s@),
    ensures
        r@ == ascii_of(s@),
{
    let cs = chars_of(s);
    let mut out: Vec<u8> = Vec::new();
    let mut i: usize = 0;
    while i < cs.len()
        invariant
            cs@ == s@,
            i <= cs@.len(),
            is_ascii_text(s@),
            out@ == ascii_of(s@).take(i as int),
        decreases cs@.len() - i,
    {
        let c = cs[i];
        assert((c as u32) < 128);
        out.push(c as u8);
        assert(out@ =~= ascii_of(s@).take(i + 1));
        i = i + 1;
    }
    assert(ascii_of(s@).take(s@.len() as int) =~= ascii_of(s@));
    out
}


pub proof fn lemma_encode_injective(a: Seq<char>, b: Seq<char>)
    requires
        encode_utf8(a) == encode_utf8(b),
    ensures
        a == b,
{
    vstd::utf8::encode_utf8_decode_utf8(a);
    vstd::utf8::encode_utf8_decode_utf8(b);
}

/// Whether two strings hold the same characters.
pub fn same_text(a: &str, b: &str) -> (r: bool)
    ensures
        r == (a@ == b@),
{
    let r = crate::paths::bytes_equal(a.as_bytes(), b.as_bytes());
    proof {
        if r {
            lemma_encode_injective(a@, b@);
        }
    }
    r
}


/// Trimming the start leaves a suffix that starts with no white space.
pub proof fn lemma_trim_start_suffix(s: Seq<u8>)
    ensures
        trim_start_bytes(s).len() <= s.len(),
        trim_start_bytes(s) == s.skip(s.len() - trim_start_bytes(s).len()),
        ws_len_at(trim_start_bytes(s), 0) == 0,
    decreases s.len(),
{
    if ws_len_at(s, 0) > 0 {
        let t = s.skip(ws_len_at(s, 0));
        lemma_trim_start_suffix(t);
        assert(t.skip(t.len() - trim_start_bytes(t).len()) =~= s.skip(s.len() - trim_start_bytes(t).len()));
    } else {
        assert(s.skip(0) =~= s);
    }
}

/// Trimming the end leaves a prefix that ends with no white space.
pub proof fn lemma_trim_end_prefix(s: Seq<u8>)
    ensures
        trim_end_bytes(s).len() <= s.len(),
        trim_end_bytes(s) == s.take(trim_end_bytes(s).len() as int),
        ws_len_before(trim_end_bytes(s), trim_end_bytes(s).len() as int) == 0,
    decreases s.len(),
{
    if ws_len_before(s, s.len() as int) > 0 {
        let t = s.take(s.len() - ws_len_before(s, s.len() as int));
        lemma_trim_end_prefix(t);
        assert(t.take(trim_end_bytes(t).len() as int) =~= s.take(trim_end_bytes(t).len() as int));
    } else {
        assert(s.take(s.len() as int) =~= s);
    }
}

/// A prefix of bytes that start with no white space starts with no white space.
pub proof fn lemma_prefix_no_leading_ws(w: Seq<u8>, n: int)
    requires
        0 <= n <= w.len(),
        ws_len_at(w, 0) == 0,
    ensures
        ws_len_at(w.take(n), 0) == 0,
{
    let q = w.take(n);
    if n > 0 {
        assert(q[0] == w[0]);
    }
    if n > 1 {
        assert(q[1] == w[1]);
    }
    if n > 2 {
        assert(q[2] == w[2]);
    }
}

} // verus!
