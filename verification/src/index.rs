//! A deterministic, disposable projection of the Markdown files of one vault:
//! titles, text, fingerprints and Wikilinks, rebuilt from fresh observations.

use vstd::prelude::*;
use vstd::string::StringSliceAdditionalSpecFns;
use crate::text::{trim_bytes, trim_range, lossy_text, lossy_text_of};
use crate::frontmatter_scalar::{copy_range, first_byte, line_end, located_range, locate_frontmatter_scalar};
use crate::paths::{file_name, name_stem, path_file_name, stem_of, path_le, path_le_exec, lemma_path_le_total, lemma_path_le_transitive};
use crate::fingerprint::{SourceFingerprint, fingerprint_text};
use crate::text::{string_from_utf8, utf8_error_text, to_lowercase, lowercase_of, chars_of, contains_chars, seq_contains};
use vstd::utf8::{valid_utf8, decode_utf8};

verus! {

/// The first position at or after `from` where the bytes `x`, `y` occur in a row.
pub open spec fn find_pair(b: Seq<u8>, x: u8, y: u8, from: int) -> Option<int>
    decreases b.len() - from,
{
    if from < 0 || from + 2 > b.len() {
        None
    } else if b[from] == x && b[from + 1] == y {
        Some(from)
    } else {
        find_pair(b, x, y, from + 1)
    }
}

proof fn lemma_find_pair_bounds(b: Seq<u8>, x: u8, y: u8, from: int)
    ensures
        find_pair(b, x, y, from) matches Some(k) ==> from <= k && k + 2 <= b.len() && b[k] == x
            && b[k + 1] == y,
    decreases b.len() - from,
{
    if from >= 0 && from + 2 <= b.len() && !(b[from] == x && b[from + 1] == y) {
        lemma_find_pair_bounds(b, x, y, from + 1);
    }
}

fn find_pair_exec(b: &[u8], x: u8, y: u8, from: usize) -> (r: Option<usize>)
    requires
        from <= b@.len(),
    ensures
        match find_pair(b@, x, y, from as int) {
            Some(k) => r == Some(k as usize),
            None => r is None,
        },
        r matches Some(k) ==> from <= k && k + 2 <= b@.len(),
        find_pair(b@, x, y, from as int) matches Some(k) ==> from <= k && k + 2 <= b@.len(),
{
    proof {
        lemma_find_pair_bounds(b@, x, y, from as int);
    }
    let mut i = from;
    while i < b.len() && b.len() - i >= 2
        invariant
            from <= i <= b@.len(),
            find_pair(b@, x, y, from as int) == find_pair(b@, x, y, i as int),
        decreases b@.len() - i,
    {
        if b[i] == x && b[i + 1] == y {
            return Some(i);
        }
        i = i + 1;
    }
    None
}

/// The text of a Wikilink target: what precedes the first `|`, trimmed.
pub open spec fn link_target(seg: Seq<u8>) -> Seq<u8> {
    let cut = match first_byte(seg, 124u8, 0) {
        Some(k) => k,
        None => seg.len() as int,
    };
    trim_bytes(seg.take(cut))
}

/// The non-empty `[[target]]` / `[[target|alias]]` targets from position `pos` on.
pub open spec fn wikilinks_from(b: Seq<u8>, pos: int) -> Seq<Seq<u8>>
    decreases b.len() - pos,
{
    if pos < 0 || pos > b.len() {
        Seq::empty()
    } else {
        match find_pair(b, 91u8, 91u8, pos) {
            None => Seq::empty(),
            Some(s) => match find_pair(b, 93u8, 93u8, s + 2) {
                None => Seq::empty(),
                Some(e) => if pos < e + 2 <= b.len() && s + 2 <= e {
                    let t = link_target(b.subrange(s + 2, e));
                    let rest = wikilinks_from(b, e + 2);
                    if t.len() > 0 {
                        seq![t] + rest
                    } else {
                        rest
                    }
                } else {
                    Seq::empty()
                },
            },
        }
    }
}

proof fn lemma_find_pair_at(b: Seq<u8>, x: u8, y: u8, from: int, t: int)
    requires
        0 <= from <= t,
        t + 2 <= b.len(),
        b[t] == x && b[t + 1] == y,
        forall|i: int| from <= i < t ==> !(b[i] == x && #[trigger] b[i + 1] == y),
    ensures
        find_pair(b, x, y, from) == Some(t),
    decreases t - from,
{
    if from < t {
        assert(!(b[from] == x && b[from + 1] == y));
        lemma_find_pair_at(b, x, y, from + 1, t);
    }
}

proof fn lemma_find_pair_shift(p: Seq<u8>, c: Seq<u8>, x: u8, y: u8, k: int)
    requires
        0 <= k,
    ensures
        find_pair(p + c, x, y, p.len() + k) == match find_pair(c, x, y, k) {
            Some(m) => Some(m + p.len()),
            None => None,
        },
    decreases c.len() - k,
{
    let b = p + c;
    if k + 2 <= c.len() {
        assert(b[p.len() + k] == c[k]);
        assert(b[p.len() + k + 1] == c[k + 1]);
        if !(c[k] == x && c[k + 1] == y) {
            lemma_find_pair_shift(p, c, x, y, k + 1);
            assert(p.len() + k + 1 == p.len() + (k + 1));
        }
    }
}

proof fn lemma_wikilinks_shift(p: Seq<u8>, c: Seq<u8>, k: int)
    requires
        0 <= k,
    ensures
        wikilinks_from(p + c, p.len() + k) == wikilinks_from(c, k),
    decreases c.len() - k,
{
    let b = p + c;
    let off = p.len() as int;
    if k <= c.len() {
        lemma_find_pair_shift(p, c, 91u8, 91u8, k);
        lemma_find_pair_bounds(c, 91u8, 91u8, k);
        if let Some(s1) = find_pair(c, 91u8, 91u8, k) {
            lemma_find_pair_shift(p, c, 93u8, 93u8, s1 + 2);
            assert(off + (s1 + 2) == (s1 + off) + 2);
            lemma_find_pair_bounds(c, 93u8, 93u8, s1 + 2);
            if let Some(e1) = find_pair(c, 93u8, 93u8, s1 + 2) {
                assert(b.subrange(s1 + off + 2, e1 + off) =~= c.subrange(s1 + 2, e1));
                if k < e1 + 2 <= c.len() && s1 + 2 <= e1 {
                    lemma_wikilinks_shift(p, c, e1 + 2);
                    assert(off + (e1 + 2) == (e1 + off) + 2);
                }
            }
        }
    }
}

/// Law: in `a [[x]] c`, where `a` holds no `[` and `x` holds no `]`, the outgoing
/// links are the target of `x` (its text before the first `|`, trimmed) when that
/// is not empty, whatever bytes it holds, followed by the links of `c`.
pub proof fn lemma_wikilink_kept_in_order(a: Seq<u8>, x: Seq<u8>, c: Seq<u8>)
    requires
        forall|i: int| 0 <= i < a.len() ==> a[i] != 91u8,
        forall|i: int| 0 <= i < x.len() ==> x[i] != 93u8,
    ensures
        ({
            let t = trim_bytes(x.take(match first_byte(x, 124u8, 0) {
                Some(k) => k,
                None => x.len() as int,
            }));
            wikilinks_from(a + seq![91u8, 91u8] + x + seq![93u8, 93u8] + c, 0) == (if t.len() > 0 {
                seq![t]
            } else {
                Seq::<Seq<u8>>::empty()
            }) + wikilinks_from(c, 0)
        }),
{
    let pre = a + seq![91u8, 91u8] + x + seq![93u8, 93u8];
    let b = pre + c;
    let s0 = a.len() as int;
    let e0 = s0 + 2 + x.len();
    assert forall|i: int| 0 <= i < s0 implies !(b[i] == 91u8 && #[trigger] b[i + 1] == 91u8) by {
        assert(b[i] == a[i]);
    }
    assert(b[s0] == 91u8 && b[s0 + 1] == 91u8);
    lemma_find_pair_at(b, 91u8, 91u8, 0, s0);
    assert forall|i: int| s0 + 2 <= i < e0 implies !(b[i] == 93u8 && #[trigger] b[i + 1] == 93u8) by {
        assert(b[i] == x[i - s0 - 2]);
    }
    assert(b[e0] == 93u8 && b[e0 + 1] == 93u8);
    lemma_find_pair_at(b, 93u8, 93u8, s0 + 2, e0);
    assert(b.subrange(s0 + 2, e0) =~= x);
    lemma_wikilinks_shift(pre, c, 0);
    assert(pre.len() == e0 + 2);
    let t = link_target(x);
    if t.len() > 0 {
        assert(wikilinks_from(b, 0) == seq![t] + wikilinks_from(c, 0));
    } else {
        assert(Seq::<Seq<u8>>::empty() + wikilinks_from(c, 0) =~= wikilinks_from(c, 0));
    }
}

pub open spec fn string_views(v: Seq<String>) -> Seq<Seq<char>> {
    v.map_values(|s: String| s@)
}

pub open spec fn lossy_all(v: Seq<Seq<u8>>) -> Seq<Seq<char>> {
    v.map_values(|x: Seq<u8>| lossy_text_of(x))
}

/// The Wikilink targets of a note, in order of appearance.
pub fn wikilinks(text: &str) -> (r: Vec<String>)
    ensures
        string_views(r@) == lossy_all(wikilinks_from(text.spec_bytes(), 0)),
{
    let b = text.as_bytes();
    let n = b.len();
    assert(n == b@.len());
    let mut out: Vec<String> = Vec::new();
    let mut pos: usize = 0;
    loop
        invariant
            pos <= b@.len(),
            b@.len() <= usize::MAX,
            b@ == text.spec_bytes(),
            lossy_all(wikilinks_from(b@, 0)) == string_views(out@) + lossy_all(
                wikilinks_from(b@, pos as int),
            ),
        decreases b@.len() - pos,
    {
        let s = match find_pair_exec(b, 91u8, 91u8, pos) {
            Some(s) => s,
            None => {
                assert(wikilinks_from(b@, pos as int) =~= Seq::<Seq<u8>>::empty());
                assert(lossy_all(Seq::<Seq<u8>>::empty()) =~= Seq::<Seq<char>>::empty());
                assert(string_views(out@) + Seq::<Seq<char>>::empty() =~= string_views(out@));
                return out;
            },
        };
        assert(find_pair(b@, 91u8, 91u8, pos as int) == Some(s as int));
        let e = match find_pair_exec(b, 93u8, 93u8, s + 2) {
            Some(e) => e,
            None => {
                assert(wikilinks_from(b@, pos as int) =~= Seq::<Seq<u8>>::empty());
                assert(lossy_all(Seq::<Seq<u8>>::empty()) =~= Seq::<Seq<char>>::empty());
                assert(string_views(out@) + Seq::<Seq<char>>::empty() =~= string_views(out@));
                return out;
            },
        };
        assert(find_pair(b@, 93u8, 93u8, s + 2) == Some(e as int));
        let seg = copy_range(b, s + 2, e);
        let cut = match crate::frontmatter_scalar::first_byte_exec(seg.as_slice(), 124u8, 0) {
            Some(k) => k,
            None => seg.len(),
        };
        let (ta, tb) = trim_range(seg.as_slice(), 0, cut);
        assert(seg@.subrange(0, cut as int) =~= seg@.take(cut as int));
        let ghost rest = wikilinks_from(b@, e + 2);
        assert(seg@ == b@.subrange(s + 2, e as int));
        assert(seg@.subrange(ta as int, tb as int) == link_target(seg@));
        assert(wikilinks_from(b@, pos as int) == (if tb > ta {
            seq![link_target(seg@)] + rest
        } else {
            rest
        }));
        if tb > ta {
            let t = copy_range(seg.as_slice(), ta, tb);
            let ghost prev = string_views(out@);
            out.push(lossy_text(t.as_slice()));
            proof {
                assert(t@ == link_target(seg@));
                assert(string_views(out@) =~= prev.push(lossy_text_of(t@)));
                assert(lossy_all(seq![t@] + rest) =~= seq![lossy_text_of(t@)] + lossy_all(rest));
                assert(prev + lossy_all(seq![t@] + rest) =~= prev.push(lossy_text_of(t@)) + lossy_all(rest));
            }
        }
        pos = e + 2;
    }
}

/// Quote characters removed at both ends (`trim_matches(['\'', '"'])`).
pub open spec fn trim_quotes_start(s: Seq<u8>) -> Seq<u8>
    decreases s.len(),
{
    if s.len() > 0 && (s[0] == 39u8 || s[0] == 34u8) {
        trim_quotes_start(s.drop_first())
    } else {
        s
    }
}

pub open spec fn trim_quotes_end(s: Seq<u8>) -> Seq<u8>
    decreases s.len(),
{
    if s.len() > 0 && (s.last() == 39u8 || s.last() == 34u8) {
        trim_quotes_end(s.drop_last())
    } else {
        s
    }
}

pub open spec fn trim_quotes(s: Seq<u8>) -> Seq<u8> {
    trim_quotes_end(trim_quotes_start(s))
}

/// The end of a line's content as `str::lines` sees it: the newline is removed,
/// and then a carriage return before it.
pub open spec fn lines_content_end(b: Seq<u8>, start: int) -> int {
    let le = line_end(b, start);
    if le > start && b[le - 1] == 10u8 {
        if le - 1 > start && b[le - 2] == 13u8 {
            le - 2
        } else {
            le - 1
        }
    } else {
        le
    }
}

/// The first `# ` heading line whose text, trimmed, is not empty.
pub open spec fn heading_from(b: Seq<u8>, start: int) -> Option<Seq<u8>>
    decreases b.len() - start,
{
    if start < 0 || start >= b.len() {
        None
    } else {
        let le = line_end(b, start);
        let c = b.subrange(start, lines_content_end(b, start));
        let t = trim_bytes(c.skip(2));
        if c.len() >= 2 && c[0] == 35u8 && c[1] == 32u8 && t.len() > 0 {
            Some(t)
        } else if start < le <= b.len() {
            heading_from(b, le)
        } else {
            None
        }
    }
}

/// A line starts at `i`: at the start of the text or after a line feed.
pub open spec fn at_line_start(b: Seq<u8>, i: int) -> bool {
    0 <= i < b.len() && (i == 0 || b[i - 1] == 10u8)
}

/// A line starts at `i` with `#` followed by a space.
pub open spec fn hash_space_line(b: Seq<u8>, i: int) -> bool {
    at_line_start(b, i) && i + 1 < b.len() && b[i] == 35u8 && b[i + 1] == 32u8
}

proof fn lemma_lines_content_bounds(b: Seq<u8>, start: int)
    requires
        0 <= start < b.len(),
    ensures
        start < line_end(b, start) <= b.len(),
        start <= lines_content_end(b, start) <= line_end(b, start),
        line_end(b, start) < b.len() ==> b[line_end(b, start) - 1] == 10u8,
{
    crate::frontmatter_scalar::lemma_line_bounds(b, start);
}

proof fn lemma_no_heading_from(b: Seq<u8>, start: int)
    requires
        0 <= start,
        start < b.len() ==> at_line_start(b, start),
        forall|i: int| start <= i ==> !#[trigger] hash_space_line(b, i),
    ensures
        heading_from(b, start) is None,
    decreases b.len() - start,
{
    if start < b.len() {
        lemma_lines_content_bounds(b, start);
        let le = line_end(b, start);
        let c = b.subrange(start, lines_content_end(b, start));
        if c.len() >= 2 {
            assert(c[0] == b[start]);
            assert(c[1] == b[start + 1]);
            assert(!hash_space_line(b, start));
        }
        if le < b.len() {
            lemma_no_heading_from(b, le);
        }
    }
}

proof fn lemma_heading_from_line(b: Seq<u8>, start: int)
    requires
        0 <= start,
        start < b.len() ==> at_line_start(b, start),
    ensures
        heading_from(b, start) matches Some(t) ==> exists|i: int|
            start <= i && #[trigger] hash_space_line(b, i) && i + 2 <= lines_content_end(b, i)
                && t == trim_bytes(b.subrange(i + 2, lines_content_end(b, i))) && t.len() > 0,
    decreases b.len() - start,
{
    if start < b.len() {
        lemma_lines_content_bounds(b, start);
        let le = line_end(b, start);
        let ce = lines_content_end(b, start);
        let c = b.subrange(start, ce);
        let t = trim_bytes(c.skip(2));
        if c.len() >= 2 && c[0] == 35u8 && c[1] == 32u8 && t.len() > 0 {
            assert(b[start] == c[0]);
            assert(b[start + 1] == c[1]);
            assert(c.skip(2) =~= b.subrange(start + 2, ce));
            assert(hash_space_line(b, start));
        } else if le < b.len() {
            lemma_heading_from_line(b, le);
        }
    }
}

/// Law: a note heading comes only from a line that starts with `#` and a space;
/// it is that line's remaining text, trimmed, and not empty. A text with no such
/// line (only `##`, `#tag` or other lines) has no heading.
pub proof fn lemma_heading_needs_hash_and_space(b: Seq<u8>)
    ensures
        heading_from(b, 0) matches Some(t) ==> exists|i: int|
            #[trigger] hash_space_line(b, i) && i + 2 <= lines_content_end(b, i)
                && t == trim_bytes(b.subrange(i + 2, lines_content_end(b, i))) && t.len() > 0,
        (forall|i: int| !#[trigger] hash_space_line(b, i)) ==> heading_from(b, 0) is None,
{
    lemma_heading_from_line(b, 0);
    if forall|i: int| !#[trigger] hash_space_line(b, i) {
        lemma_no_heading_from(b, 0);
    }
}

/// Law: a note whose text does not open with `---` and has no line starting with
/// `#` and a space is titled by the stem of its file name.
pub proof fn lemma_title_falls_back_to_stem(b: Seq<u8>, path: Seq<u8>)
    requires
        !(b.len() >= 3 && b[0] == 45u8 && b[1] == 45u8 && b[2] == 45u8),
        forall|i: int| !#[trigger] hash_space_line(b, i),
    ensures
        title_spec(b, path) == match file_name(path) {
            Some(n) => lossy_text_of(name_stem(n)),
            None => Seq::empty(),
        },
{
    lemma_no_heading_from(b, 0);
    assert(crate::frontmatter::yaml_start_of(b) is None);
    assert(!crate::frontmatter::is_bare_delimiter(b));
}

/// Law: a note whose text does not open with `---` and whose first line is `#`, a
/// space and a heading is titled by that heading, trimmed, when it is not empty.
pub proof fn lemma_title_from_first_heading(b: Seq<u8>, path: Seq<u8>)
    requires
        !(b.len() >= 3 && b[0] == 45u8 && b[1] == 45u8 && b[2] == 45u8),
        hash_space_line(b, 0),
        trim_bytes(b.subrange(2, lines_content_end(b, 0))).len() > 0,
    ensures
        title_spec(b, path) == lossy_text_of(trim_bytes(b.subrange(2, lines_content_end(b, 0)))),
{
    lemma_lines_content_bounds(b, 0);
    assert(crate::frontmatter::yaml_start_of(b) is None);
    assert(!crate::frontmatter::is_bare_delimiter(b));
    let ce = lines_content_end(b, 0);
    let c = b.subrange(0, ce);
    assert(c.skip(2) =~= b.subrange(2, ce));
    assert(c[0] == b[0]);
    assert(c[1] == b[1]);
}

pub open spec fn title_key_chars() -> Seq<char> {
    seq!['t', 'i', 't', 'l', 'e']
}

pub open spec fn title_key_bytes() -> Seq<u8> {
    seq![116u8, 105u8, 116u8, 108u8, 101u8]
}

/// The title of a note: a non-empty frontmatter `title` scalar (quotes removed),
/// else the first non-empty `# ` heading, else the file stem of its path.
pub open spec fn title_spec(b: Seq<u8>, path: Seq<u8>) -> Seq<char> {
    let fallback = match heading_from(b, 0) {
        Some(t) => lossy_text_of(t),
        None => match file_name(path) {
            Some(n) => lossy_text_of(name_stem(n)),
            None => Seq::empty(),
        },
    };
    match located_range(b, title_key_bytes(), title_key_chars()) {
        Some(p) => if trim_bytes(b.subrange(p.0, p.1)).len() > 0 {
            lossy_text_of(trim_quotes(trim_bytes(b.subrange(p.0, p.1))))
        } else {
            fallback
        },
        None => fallback,
    }
}

fn trim_quotes_range(b: &[u8], from: usize, to: usize) -> (r: (usize, usize))
    requires
        from <= to <= b@.len(),
    ensures
        from <= r.0 <= r.1 <= to,
        b@.subrange(r.0 as int, r.1 as int) == trim_quotes(b@.subrange(from as int, to as int)),
{
    let mut i = from;
    while i < to && (b[i] == 39u8 || b[i] == 34u8)
        invariant
            from <= i <= to <= b@.len(),
            trim_quotes_start(b@.subrange(i as int, to as int)) == trim_quotes_start(
                b@.subrange(from as int, to as int),
            ),
        decreases to - i,
    {
        assert(b@.subrange(i as int, to as int).drop_first() =~= b@.subrange(i + 1, to as int));
        i = i + 1;
    }
    proof {
        if i < to {
            assert(b@.subrange(i as int, to as int)[0] == b@[i as int]);
        }
    }
    let mut j = to;
    while j > i && (b[j - 1] == 39u8 || b[j - 1] == 34u8)
        invariant
            i <= j <= to <= b@.len(),
            trim_quotes_end(b@.subrange(i as int, j as int)) == trim_quotes_end(
                b@.subrange(i as int, to as int),
            ),
        decreases j - i,
    {
        assert(b@.subrange(i as int, j as int).drop_last() =~= b@.subrange(i as int, j - 1));
        j = j - 1;
    }
    proof {
        if j > i {
            assert(b@.subrange(i as int, j as int).last() == b@[j - 1]);
        }
    }
    (i, j)
}

fn heading_exec(b: &[u8]) -> (r: Option<(usize, usize)>)
    ensures
        match heading_from(b@, 0) {
            Some(t) => r matches Some(p) && p.0 <= p.1 <= b@.len() && b@.subrange(
                p.0 as int,
                p.1 as int,
            ) == t,
            None => r is None,
        },
{
    let mut start: usize = 0;
    while start < b.len()
        invariant
            start <= b@.len(),
            heading_from(b@, 0) == heading_from(b@, start as int),
        decreases b@.len() - start,
    {
        let le = match crate::frontmatter_scalar::first_byte_exec(b, 10u8, start) {
            Some(k) => k + 1,
            None => b.len(),
        };
        let mut ce = le;
        if le > start && b[le - 1] == 10u8 {
            if le - 1 > start && b[le - 2] == 13u8 {
                ce = le - 2;
            } else {
                ce = le - 1;
            }
        }
        assert(le == line_end(b@, start as int));
        assert(ce == lines_content_end(b@, start as int));
        let ghost c = b@.subrange(start as int, ce as int);
        if ce - start >= 2 && b[start] == 35u8 && b[start + 1] == 32u8 {
            let (ta, tb) = trim_range(b, start + 2, ce);
            assert(c.skip(2) =~= b@.subrange(start + 2, ce as int));
            if tb > ta {
                return Some((ta, tb));
            }
        } else {
            proof {
                if c.len() >= 2 {
                    assert(c[0] == b@[start as int]);
                    assert(c[1] == b@[start + 1]);
                }
            }
        }
        start = le;
    }
    None
}

/// The title of a note (see `title_spec`).
pub fn title_for(text: &str, path: &[u8]) -> (r: String)
    ensures
        r@ == title_spec(text.spec_bytes(), path@),
{
    let b = text.as_bytes();
    proof {
        reveal_strlit("title");
        vstd::utf8::is_ascii_chars_encode_utf8("title"@);
        assert("title"@ =~= title_key_chars());
        assert("title".spec_bytes() =~= title_key_bytes());
    }
    match locate_frontmatter_scalar(text, "title") {
        Ok(range) => {
            let (a, z) = trim_range(b, range.start, range.end);
            if z > a {
                let (qa, qz) = trim_quotes_range(b, a, z);
                let v = copy_range(b, qa, qz);
                return lossy_text(v.as_slice());
            }
        },
        Err(_) => {},
    }
    match heading_exec(b) {
        Some((a, z)) => {
            let v = copy_range(b, a, z);
            lossy_text(v.as_slice())
        },
        None => match path_file_name(path) {
            Some(name) => {
                let stem = stem_of(name.as_slice());
                lossy_text(stem.as_slice())
            },
            None => String::new(),
        },
    }
}


/// A source-file problem that prevents a complete current projection.
#[derive(Clone, Debug, PartialEq, Eq)]
pub struct IndexDiagnostic {
    pub path: Vec<u8>,
    pub message: String,
}

impl View for IndexDiagnostic {
    type V = (Seq<u8>, Seq<char>);

    open spec fn view(&self) -> (Seq<u8>, Seq<char>) {
        (self.path@, self.message@)
    }
}

/// One immutable observation of a Markdown source file.
#[derive(Clone, Debug, PartialEq, Eq)]
pub struct IndexedNote {
    pub path: Vec<u8>,
    pub title: String,
    pub text: String,
    pub fingerprint: SourceFingerprint,
    pub outgoing_links: Vec<String>,
}

pub struct NoteView {
    pub path: Seq<u8>,
    pub title: Seq<char>,
    pub text: Seq<char>,
    pub fingerprint: Seq<char>,
    pub links: Seq<Seq<char>>,
}

impl View for IndexedNote {
    type V = NoteView;

    open spec fn view(&self) -> NoteView {
        NoteView {
            path: self.path@,
            title: self.title@,
            text: self.text@,
            fingerprint: self.fingerprint@,
            links: string_views(self.outgoing_links@),
        }
    }
}

/// The freshness of the in-memory projection relative to its source vault.
#[derive(Clone, Debug, PartialEq, Eq)]
pub enum IndexStatus {
    /// No rebuild has been completed yet.
    Empty,
    /// The projection was rebuilt from a complete observation.
    Current { generation: u64 },
    /// Some sources could not be observed, so results are incomplete.
    Degraded { generation: u64, errors: Vec<IndexDiagnostic> },
}

/// One observation of a Markdown source by the directory walk: its path relative to
/// the vault root, and either the bytes of two consecutive reads or the message of
/// the read that failed.
#[derive(Debug)]
pub struct SourceRead {
    pub path: Vec<u8>,
    pub contents: Result<(Vec<u8>, Vec<u8>), String>,
}

pub open spec fn diagnostic_views(v: Seq<IndexDiagnostic>) -> Seq<(Seq<u8>, Seq<char>)> {
    v.map_values(|d: IndexDiagnostic| d@)
}

pub open spec fn note_views(v: Seq<IndexedNote>) -> Seq<NoteView> {
    v.map_values(|n: IndexedNote| n@)
}

pub open spec fn changed_during_indexing() -> Seq<char> {
    "source changed during indexing; retry rebuild"@
}

/// The projection of a source from the bytes of two reads: both reads must agree,
/// the bytes must be UTF-8, and then the note holds its title, text, fingerprint
/// and Wikilinks.
pub open spec fn project_spec(path: Seq<u8>, first: Seq<u8>, second: Seq<u8>) -> Result<NoteView, Seq<char>> {
    if first != second {
        Err(changed_during_indexing())
    } else if !valid_utf8(first) {
        Err(utf8_error_text(first))
    } else {
        Ok(NoteView {
            path: path,
            title: title_spec(first, path),
            text: decode_utf8(first),
            fingerprint: fingerprint_text(first),
            links: lossy_all(wikilinks_from(first, 0)),
        })
    }
}

pub open spec fn read_spec(r: SourceRead) -> Result<NoteView, Seq<char>> {
    match r.contents {
        Ok(pair) => project_spec(r.path@, pair.0@, pair.1@),
        Err(m) => Err(m@),
    }
}

/// The notes projected from a sequence of observations, in order.
pub open spec fn projected_notes(reads: Seq<SourceRead>) -> Seq<NoteView>
    decreases reads.len(),
{
    if reads.len() == 0 {
        Seq::empty()
    } else {
        let prev = projected_notes(reads.drop_last());
        match read_spec(reads.last()) {
            Ok(n) => prev.push(n),
            Err(_) => prev,
        }
    }
}

/// The diagnostics for observations that could not be projected, in order.
pub open spec fn read_failures(reads: Seq<SourceRead>) -> Seq<(Seq<u8>, Seq<char>)>
    decreases reads.len(),
{
    if reads.len() == 0 {
        Seq::empty()
    } else {
        let prev = read_failures(reads.drop_last());
        match read_spec(reads.last()) {
            Ok(_) => prev,
            Err(m) => prev.push((reads.last().path@, m)),
        }
    }
}

/// Read failures name the full path of the source: the root joined with its relative path.
pub open spec fn rooted(root: Seq<u8>, ds: Seq<(Seq<u8>, Seq<char>)>) -> Seq<(Seq<u8>, Seq<char>)> {
    ds.map_values(|d: (Seq<u8>, Seq<char>)| (crate::paths::join(root, d.0), d.1))
}

/// Observations ordered by path.
pub open spec fn reads_sorted(reads: Seq<SourceRead>) -> bool {
    forall|i: int, j: int| 0 <= i < j < reads.len() ==> path_le(#[trigger] reads[i].path@, #[trigger] reads[j].path@)
}

pub open spec fn notes_sorted(notes: Seq<NoteView>) -> bool {
    forall|i: int, j: int| 0 <= i < j < notes.len() ==> path_le(#[trigger] notes[i].path, #[trigger] notes[j].path)
}

/// Project one observed source.
pub fn project_source(read: SourceRead) -> (r: Result<IndexedNote, IndexDiagnostic>)
    ensures
        match read_spec(read) {
            Ok(n) => r matches Ok(note) && note@ == n,
            Err(m) => r matches Err(d) && d@ == (read.path@, m),
        },
{
    let path = read.path;
    match read.contents {
        Err(message) => Err(IndexDiagnostic { path, message }),
        Ok((first, second)) => {
            if !crate::paths::bytes_equal(first.as_slice(), second.as_slice()) {
                return Err(IndexDiagnostic { path, message: "source changed during indexing; retry rebuild".to_owned() });
            }
            let fingerprint = SourceFingerprint::of(first.as_slice());
            let ghost bytes = first@;
            match string_from_utf8(first) {
                Err(message) => Err(IndexDiagnostic { path, message }),
                Ok(text) => {
                    proof {
                        vstd::utf8::decode_utf8_encode_utf8(bytes);
                        assert(vstd::utf8::encode_utf8(text@) == bytes);
                    }
                    let title = title_for(text.as_str(), path.as_slice());
                    let links = wikilinks(text.as_str());
                    Ok(IndexedNote { path, title, text, fingerprint, outgoing_links: links })
                },
            }
        },
    }
}


/// Order observations by path.
pub fn sort_reads(reads: Vec<SourceRead>) -> (r: Vec<SourceRead>)
    ensures
        reads_sorted(r@),
        r@.to_multiset() == reads@.to_multiset(),
{
    broadcast use vstd::seq_lib::group_to_multiset_ensures;
    broadcast use vstd::multiset::group_multiset_axioms;

    let mut input = reads;
    let mut sorted: Vec<SourceRead> = Vec::new();
    while input.len() > 0
        invariant
            reads_sorted(sorted@),
            sorted@.to_multiset().add(input@.to_multiset()) == reads@.to_multiset(),
        decreases input@.len(),
    {
        let ghost before = input@;
        let x = input.pop().unwrap();
        proof {
            assert(before =~= input@.push(x));
        }
        let mut j: usize = 0;
        while j < sorted.len() && !path_le_exec(x.path.as_slice(), sorted[j].path.as_slice())
            invariant
                j <= sorted@.len(),
                forall|k: int| 0 <= k < j ==> !path_le(x.path@, #[trigger] sorted@[k].path@),
            decreases sorted@.len() - j,
        {
            j = j + 1;
        }
        let ghost old_sorted = sorted@;
        proof {
            assert forall|k: int| 0 <= k < j implies path_le(#[trigger] old_sorted[k].path@, x.path@) by {
                lemma_path_le_total(x.path@, old_sorted[k].path@);
            }
            assert forall|k: int| j <= k < old_sorted.len() implies path_le(x.path@, #[trigger] old_sorted[k].path@) by {
                if k > j {
                    lemma_path_le_transitive(x.path@, old_sorted[j as int].path@, old_sorted[k].path@);
                }
            }
        }
        sorted.insert(j, x);
        proof {
            let ns = sorted@;
            assert(ns == old_sorted.insert(j as int, x));
            assert forall|a: int, b: int| 0 <= a < b < ns.len() implies path_le(#[trigger] ns[a].path@, #[trigger] ns[b].path@) by {
                if a < j && b < j {
                } else if a < j && b == j {
                } else if a < j && b > j {
                    lemma_path_le_transitive(ns[a].path@, x.path@, ns[b].path@);
                } else if a == j {
                } else {
                    assert(ns[a] == old_sorted[a - 1]);
                    assert(ns[b] == old_sorted[b - 1]);
                }
            }
            vstd::seq_lib::to_multiset_insert(old_sorted, j as int, x);
            vstd::seq_lib::to_multiset_build(input@, x);
            assert(sorted@.to_multiset().add(input@.to_multiset()) =~= old_sorted.to_multiset().add(before.to_multiset()));
        }
    }
    proof {
        assert(input@.to_multiset() =~= vstd::multiset::Multiset::<SourceRead>::empty());
        assert(sorted@.to_multiset().add(input@.to_multiset()) =~= sorted@.to_multiset());
    }
    sorted
}


/// The generation that follows a status: 1 after `Empty`, otherwise one more
/// (saturating at the largest `u64`).
pub open spec fn next_generation(s: IndexStatus) -> u64 {
    match s {
        IndexStatus::Empty => 1,
        IndexStatus::Current { generation } => if generation == u64::MAX {
            u64::MAX
        } else {
            (generation + 1) as u64
        },
        IndexStatus::Degraded { generation, .. } => if generation == u64::MAX {
            u64::MAX
        } else {
            (generation + 1) as u64
        },
    }
}

/// A status is `Current` with the generation when there are no errors, and
/// `Degraded` with the generation and exactly these errors otherwise.
pub open spec fn status_is(s: IndexStatus, generation: u64, errors: Seq<(Seq<u8>, Seq<char>)>) -> bool {
    if errors.len() == 0 {
        s == IndexStatus::Current { generation }
    } else {
        s matches IndexStatus::Degraded { generation: g, errors: e } && g == generation
            && diagnostic_views(e@) == errors
    }
}

/// A deterministic, disposable projection of Markdown files in one vault.
///
/// The vault files remain authoritative: this type stores only derived values,
/// and `rebuild` always replaces the projection from fresh observations.
#[derive(Debug)]
pub struct MarkdownIndex {
    status: IndexStatus,
    notes: Vec<IndexedNote>,
}

impl MarkdownIndex {
    #[verifier::type_invariant]
    spec fn sorted_notes(&self) -> bool {
        notes_sorted(note_views(self.notes@))
    }

    pub closed spec fn status_spec(&self) -> IndexStatus {
        self.status
    }

    pub closed spec fn notes_spec(&self) -> Seq<NoteView> {
        note_views(self.notes@)
    }

    pub fn new() -> (r: Self)
        ensures
            r.status_spec() == IndexStatus::Empty,
            r.notes_spec() == Seq::<NoteView>::empty(),
    {
        let r = MarkdownIndex { status: IndexStatus::Empty, notes: Vec::new() };
        assert(r.notes_spec() =~= Seq::<NoteView>::empty());
        r
    }

    pub fn status(&self) -> (r: &IndexStatus)
        ensures
            *r == self.status_spec(),
    {
        &self.status
    }

    /// The projected notes, always ordered by path.
    pub fn notes(&self) -> (r: &[IndexedNote])
        ensures
            note_views(r@) == self.notes_spec(),
            notes_sorted(self.notes_spec()),
    {
        proof {
            use_type_invariant(self);
        }
        self.notes.as_slice()
    }

    /// Rebuild the complete projection from one walk of the vault: the walk's own
    /// errors, and one observation per Markdown source it found.
    ///
    /// Sources that cannot be read consistently or decoded as UTF-8 are omitted and
    /// make the result explicitly degraded, each under its full path below `root`;
    /// nothing of the previous projection is kept. Observations are taken in path order.
    pub fn rebuild(&mut self, root: &[u8], walk_errors: Vec<IndexDiagnostic>, reads: Vec<SourceRead>) -> (r: &IndexStatus)
        ensures
            exists|sorted: Seq<SourceRead>|
                #![trigger reads_sorted(sorted)]
                reads_sorted(sorted) && sorted.to_multiset() == reads@.to_multiset()
                    && final(self).notes_spec() == projected_notes(sorted) && status_is(
                    final(self).status_spec(),
                    next_generation(old(self).status_spec()),
                    diagnostic_views(walk_errors@) + rooted(root@, read_failures(sorted)),
                ),
            *r == final(self).status_spec(),
    {
        let generation = match &self.status {
            IndexStatus::Empty => 1u64,
            IndexStatus::Current { generation } => generation.saturating_add(1),
            IndexStatus::Degraded { generation, .. } => generation.saturating_add(1),
        };
        let sorted = sort_reads(reads);
        let ghost sorted_view = sorted@;
        let n = sorted.len();
        let mut errors = walk_errors;
        let mut notes: Vec<IndexedNote> = Vec::new();
        let mut remaining = sorted;
        let mut i: usize = 0;
        proof {
            assert(sorted_view.take(0) =~= Seq::<SourceRead>::empty());
        }
        while remaining.len() > 0
            invariant
                n == sorted_view.len(),
                i <= n,
                remaining@ == sorted_view.skip(i as int),
                note_views(notes@) == projected_notes(sorted_view.take(i as int)),
                diagnostic_views(errors@) == diagnostic_views(walk_errors@) + rooted(root@, read_failures(sorted_view.take(i as int))),
                reads_sorted(sorted_view),
                notes_sorted(note_views(notes@)),
                forall|k: int| 0 <= k < notes@.len() ==> exists|j: int| 0 <= j < i && #[trigger] notes@[k].path@ == sorted_view[j].path@,
            decreases remaining@.len(),
        {
            let read = remaining.remove(0);
            assert(read == sorted_view[i as int]);
            assert(remaining@ =~= sorted_view.skip(i + 1));
            assert(sorted_view.take(i + 1).drop_last() =~= sorted_view.take(i as int));
            let ghost pview = read.path@;
            match project_source(read) {
                Ok(note) => {
                    let ghost prev = note_views(notes@);
                    proof {
                        assert forall|k: int| 0 <= k < notes@.len() implies path_le(#[trigger] notes@[k].path@, pview) by {
                            let j = choose|j: int| 0 <= j < i && notes@[k].path@ == sorted_view[j].path@;
                        }
                    }
                    notes.push(note);
                    proof {
                        assert(note_views(notes@) =~= prev.push(note@));
                        assert forall|a: int, b: int| 0 <= a < b < note_views(notes@).len() implies path_le(#[trigger] note_views(notes@)[a].path, #[trigger] note_views(notes@)[b].path) by {
                            if b == notes@.len() - 1 {
                                assert(notes@[a].path@ == note_views(notes@)[a].path);
                            }
                        }
                        assert forall|k: int| 0 <= k < notes@.len() implies exists|j: int| 0 <= j < i + 1 && #[trigger] notes@[k].path@ == sorted_view[j].path@ by {
                            if k == notes@.len() - 1 {
                                assert(notes@[k].path@ == sorted_view[i as int].path@);
                            } else {
                                let j = choose|j: int| 0 <= j < i && notes@[k].path@ == sorted_view[j].path@;
                            }
                        }
                    }
                },
                Err(d) => {
                    let full = IndexDiagnostic { path: crate::paths::join_path(root, d.path.as_slice()), message: d.message };
                    let ghost prev = diagnostic_views(errors@);
                    errors.push(full);
                    proof {
                        assert(diagnostic_views(errors@) =~= prev.push(full@));
                        assert(rooted(root@, read_failures(sorted_view.take(i + 1))) =~= rooted(root@, read_failures(sorted_view.take(i as int))).push(full@));
                        assert(diagnostic_views(walk_errors@) + rooted(root@, read_failures(sorted_view.take(i + 1))) =~= (diagnostic_views(walk_errors@) + rooted(root@, read_failures(sorted_view.take(i as int)))).push(full@));
                    }
                },
            }
            i = i + 1;
        }
        proof {
            assert(sorted_view.take(n as int) =~= sorted_view);
        }
        self.notes = notes;
        if errors.len() == 0 {
            self.status = IndexStatus::Current { generation };
        } else {
            self.status = IndexStatus::Degraded { generation, errors };
        }
        &self.status
    }
}

impl Default for MarkdownIndex {
    /// An index with nothing projected yet.
    fn default() -> (r: Self)
        ensures
            r.status_spec() == IndexStatus::Empty,
            r.notes_spec() == Seq::<NoteView>::empty(),
    {
        Self::new()
    }
}

/// A note matches a lowercased query when its lowercased path, title, text or one
/// of its lowercased links contains the query.
pub open spec fn note_matches(n: NoteView, q: Seq<char>) -> bool {
    ||| seq_contains(lowercase_of(lossy_text_of(n.path)), q)
    ||| seq_contains(lowercase_of(n.title), q)
    ||| seq_contains(lowercase_of(n.text), q)
    ||| exists|i: int| 0 <= i < n.links.len() && seq_contains(lowercase_of(#[trigger] n.links[i]), q)
}

/// The notes that match, in order.
pub open spec fn matching_notes(notes: Seq<NoteView>, q: Seq<char>) -> Seq<NoteView>
    decreases notes.len(),
{
    if notes.len() == 0 {
        Seq::empty()
    } else {
        let prev = matching_notes(notes.drop_last(), q);
        if note_matches(notes.last(), q) {
            prev.push(notes.last())
        } else {
            prev
        }
    }
}

/// Law: searching the projection returns exactly the notes whose lowercased path
/// (read as text), title, text or one of whose lowercased links contains the
/// lowercased query: each such note is returned, and no other.
pub proof fn lemma_search_matches_exactly(notes: Seq<NoteView>, q: Seq<char>, n: NoteView)
    ensures
        matching_notes(notes, q).contains(n) <==> notes.contains(n) && (
            seq_contains(lowercase_of(lossy_text_of(n.path)), q)
            || seq_contains(lowercase_of(n.title), q)
            || seq_contains(lowercase_of(n.text), q)
            || exists|i: int| 0 <= i < n.links.len() && seq_contains(lowercase_of(#[trigger] n.links[i]), q)),
    decreases notes.len(),
{
    let h = note_matches(n, q);
    assert(h == (seq_contains(lowercase_of(lossy_text_of(n.path)), q)
        || seq_contains(lowercase_of(n.title), q)
        || seq_contains(lowercase_of(n.text), q)
        || exists|i: int| 0 <= i < n.links.len() && seq_contains(lowercase_of(#[trigger] n.links[i]), q)));
    if notes.len() > 0 {
        let init = notes.drop_last();
        let l = notes.last();
        lemma_search_matches_exactly(init, q, n);
        let prev = matching_notes(init, q);
        assert(notes.contains(n) <==> init.contains(n) || l == n) by {
            if notes.contains(n) && l != n {
                let k = choose|k: int| 0 <= k < notes.len() && notes[k] == n;
                assert(k < notes.len() - 1);
                assert(init[k] == n);
            }
            if init.contains(n) {
                let k = choose|k: int| 0 <= k < init.len() && init[k] == n;
                assert(notes[k] == n);
            }
            if l == n {
                assert(notes[notes.len() - 1] == n);
            }
        }
        if note_matches(l, q) {
            let m = prev.push(l);
            assert(m.contains(n) <==> prev.contains(n) || l == n) by {
                if m.contains(n) && l != n {
                    let k = choose|k: int| 0 <= k < m.len() && m[k] == n;
                    assert(k < prev.len());
                    assert(prev[k] == n);
                }
                if prev.contains(n) {
                    let k = choose|k: int| 0 <= k < prev.len() && prev[k] == n;
                    assert(m[k] == n);
                }
                if l == n {
                    assert(m[prev.len() as int] == n);
                }
            }
        }
    }
}

pub open spec fn ref_views(v: Seq<&IndexedNote>) -> Seq<NoteView> {
    v.map_values(|n: &IndexedNote| n@)
}

/// Whether the lowercase form of `s` contains the characters `q`.
pub fn lower_contains(s: &str, q: &[char]) -> (r: bool)
    ensures
        r == seq_contains(lowercase_of(s@), q@),
{
    let lower = to_lowercase(s);
    let cs = chars_of(lower.as_str());
    contains_chars(cs.as_slice(), q)
}

/// Whether a note matches a lowercased query (see `note_matches`).
pub fn note_matches_query(note: &IndexedNote, q: &[char]) -> (r: bool)
    ensures
        r == note_matches(note@, q@),
{
    let path_text = lossy_text(note.path.as_slice());
    if lower_contains(path_text.as_str(), q) {
        return true;
    }
    if lower_contains(note.title.as_str(), q) {
        return true;
    }
    if lower_contains(note.text.as_str(), q) {
        return true;
    }
    let mut i: usize = 0;
    while i < note.outgoing_links.len()
        invariant
            i <= note.outgoing_links@.len(),
            forall|k: int| 0 <= k < i ==> !seq_contains(lowercase_of(#[trigger] note@.links[k]), q@),
        decreases note.outgoing_links@.len() - i,
    {
        assert(note@.links[i as int] == note.outgoing_links@[i as int]@);
        if lower_contains(note.outgoing_links[i].as_str(), q) {
            return true;
        }
        i = i + 1;
    }
    false
}

impl MarkdownIndex {
    /// Return notes whose path, title, text, or links contain `query`, ignoring
    /// case. Results are ordered by path.
    pub fn search(&self, query: &str) -> (r: Vec<&IndexedNote>)
        ensures
            ref_views(r@) == matching_notes(self.notes_spec(), lowercase_of(query@)),
            notes_sorted(ref_views(r@)),
    {
        proof {
            use_type_invariant(self);
        }
        let lower = to_lowercase(query);
        let q = chars_of(lower.as_str());
        let ghost all = self.notes_spec();
        let mut out: Vec<&IndexedNote> = Vec::new();
        let mut i: usize = 0;
        while i < self.notes.len()
            invariant
                i <= self.notes@.len(),
                all == note_views(self.notes@),
                notes_sorted(all),
                q@ == lowercase_of(query@),
                ref_views(out@) == matching_notes(all.take(i as int), q@),
                forall|k: int| 0 <= k < out@.len() ==> exists|j: int| 0 <= j < i && #[trigger] ref_views(out@)[k].path == all[j].path,
                notes_sorted(ref_views(out@)),
            decreases self.notes@.len() - i,
        {
            let note = &self.notes[i];
            assert(all.take(i + 1).drop_last() =~= all.take(i as int));
            assert(all[i as int] == note@);
            if note_matches_query(note, q.as_slice()) {
                let ghost prev = ref_views(out@);
                out.push(note);
                proof {
                    assert(ref_views(out@) =~= prev.push(note@));
                    assert forall|a: int, b: int| 0 <= a < b < ref_views(out@).len() implies path_le(#[trigger] ref_views(out@)[a].path, #[trigger] ref_views(out@)[b].path) by {
                        if b == out@.len() - 1 {
                            let j = choose|j: int| 0 <= j < i && prev[a].path == all[j].path;
                            assert(path_le(all[j].path, all[i as int].path));
                        }
                    }
                    assert forall|k: int| 0 <= k < out@.len() implies exists|j: int| 0 <= j < i + 1 && #[trigger] ref_views(out@)[k].path == all[j].path by {
                        if k == out@.len() - 1 {
                            assert(ref_views(out@)[k].path == all[i as int].path);
                        } else {
                            let j = choose|j: int| 0 <= j < i && prev[k].path == all[j].path;
                        }
                    }
                }
            }
            i = i + 1;
        }
        assert(all.take(self.notes@.len() as int) =~= all);
        out
    }
}


/// The notes hold each path once.
pub open spec fn distinct_paths(ns: Seq<NoteView>) -> bool {
    forall|i: int, j: int| 0 <= i < j < ns.len() ==> (#[trigger] ns[i]).path != (#[trigger] ns[j]).path
}

/// Law: a projection is determined by its notes. Two arrangements of the same
/// notes, each holding every path once and both in path order, are equal, so
/// rebuilding from unchanged sources gives the same ordered projection whatever
/// order the sources were observed in.
pub proof fn lemma_projection_order_unique(a: Seq<NoteView>, b: Seq<NoteView>)
    requires
        notes_sorted(a),
        notes_sorted(b),
        distinct_paths(a),
        a.to_multiset() == b.to_multiset(),
    ensures
        a == b,
    decreases a.len(),
{
    broadcast use vstd::seq_lib::group_to_multiset_ensures;
    broadcast use vstd::multiset::group_multiset_axioms;
    vstd::seq_lib::to_multiset_len(a);
    vstd::seq_lib::to_multiset_len(b);
    if a.len() == 0 {
        assert(b =~= a);
    } else {
        assert(a.to_multiset().count(b[0]) > 0);
        assert(b.to_multiset().count(a[0]) > 0);
        assert(a.contains(b[0]));
        assert(b.contains(a[0]));
        let ka = choose|k: int| 0 <= k < a.len() && a[k] == b[0];
        let kb = choose|k: int| 0 <= k < b.len() && b[k] == a[0];
        if ka > 0 {
            assert(path_le(a[0].path, a[ka].path));
            if kb > 0 {
                assert(path_le(b[0].path, b[kb].path));
            } else {
                crate::paths::lemma_path_le_reflexive(b[0].path);
            }
            crate::paths::lemma_path_le_antisymmetric(a[0].path, a[ka].path);
            assert(a[0].path != a[ka].path);
        }
        assert(a[0] == b[0]);
        let a2 = a.drop_first();
        let b2 = b.drop_first();
        vstd::seq_lib::to_multiset_remove(a, 0);
        vstd::seq_lib::to_multiset_remove(b, 0);
        assert(a.remove(0) =~= a2);
        assert(b.remove(0) =~= b2);
        assert forall|i: int, j: int| 0 <= i < j < a2.len() implies path_le(#[trigger] a2[i].path, #[trigger] a2[j].path) by {
            assert(a2[i] == a[i + 1] && a2[j] == a[j + 1]);
        }
        assert forall|i: int, j: int| 0 <= i < j < a2.len() implies (#[trigger] a2[i]).path != (#[trigger] a2[j]).path by {
            assert(a2[i] == a[i + 1] && a2[j] == a[j + 1]);
        }
        assert forall|i: int, j: int| 0 <= i < j < b2.len() implies path_le(#[trigger] b2[i].path, #[trigger] b2[j].path) by {
            assert(b2[i] == b[i + 1] && b2[j] == b[j + 1]);
        }
        lemma_projection_order_unique(a2, b2);
        assert(a =~= seq![a[0]] + a2);
        assert(b =~= seq![b[0]] + b2);
    }
}

} // verus!
