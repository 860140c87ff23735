//! Exact byte span of a top-level scalar value in frontmatter.

use vstd::prelude::*;
use crate::frontmatter::{FrontmatterEnvelope, FrontmatterError, scan_frontmatter, frontmatter_result};
use crate::text::{trim_bytes, trim_start_bytes, trim_end_bytes, ws_len_at, ws_len_before, trim_start_range, trim_end_range, trim_range};
use crate::text::{lemma_trim_start_suffix, lemma_trim_end_prefix, lemma_prefix_no_leading_ws};
use crate::frontmatter::lemma_envelope_bounds;
use vstd::string::StringSliceAdditionalSpecFns;
use crate::text::{lossy_text, lossy_text_of};
use core::ops::Range;
use crate::yaml::{
    yaml_as_mapping, yaml_document_from_str, yaml_key_is_scalar, yaml_key_present, yaml_mapping_get,
    yaml_node_is_scalar, yaml_parse_error, yaml_root_is_mapping,
};

verus! {

/// Fail-closed errors emitted while locating a top-level frontmatter scalar.
#[derive(Clone, Debug, PartialEq, Eq)]
pub enum FrontmatterScalarError {
    NoFrontmatter,
    MissingKey(String),
    DuplicateKey(String),
    NotScalar(String),
    InvalidYaml(String),
}

pub open spec fn is_ascii_ws(c: u8) -> bool {
    c == 32u8 || c == 9u8 || c == 10u8 || c == 12u8 || c == 13u8
}

/// Where a trailing comment starts in a value: the first `#` outside quotes
/// that begins the value or follows ASCII white space (or the end).
pub open spec fn comment_cut(v: Seq<u8>, i: int, quote: Option<u8>) -> int
    decreases v.len() - i,
{
    if i >= v.len() || i < 0 {
        v.len() as int
    } else {
        let c = v[i];
        match quote {
            None => if c == 39u8 || c == 34u8 {
                comment_cut(v, i + 1, Some(c))
            } else if c == 35u8 && (i == 0 || is_ascii_ws(v[i - 1])) {
                i
            } else {
                comment_cut(v, i + 1, None)
            },
            Some(q) => if c == q {
                comment_cut(v, i + 1, None)
            } else {
                comment_cut(v, i + 1, Some(q))
            },
        }
    }
}

/// The first position at or after `i` holding byte `x`, if any.
pub open spec fn first_byte(s: Seq<u8>, x: u8, i: int) -> Option<int>
    decreases s.len() - i,
{
    if i >= s.len() || i < 0 {
        None
    } else if s[i] == x {
        Some(i)
    } else {
        first_byte(s, x, i + 1)
    }
}

/// The end of the line that starts at `start` (after its newline, if it has one).
pub open spec fn line_end(y: Seq<u8>, start: int) -> int {
    match first_byte(y, 10u8, start) {
        Some(k) => k + 1,
        None => y.len() as int,
    }
}

/// The end of a line's content: its newline removed, then a carriage return.
pub open spec fn content_end(y: Seq<u8>, start: int) -> int {
    let le = line_end(y, start);
    let e = if le > start && y[le - 1] == 10u8 {
        le - 1
    } else {
        le
    };
    if e > start && y[e - 1] == 13u8 {
        e - 1
    } else {
        e
    }
}

/// The colon of a top-level `key:` line: the line does not start with white
/// space or `#`, and the text before its first `:` trims to the key.
pub open spec fn key_colon(c: Seq<u8>, key: Seq<u8>) -> Option<int> {
    if ws_len_at(c, 0) > 0 || (c.len() > 0 && c[0] == 35u8) {
        None
    } else {
        match first_byte(c, 58u8, 0) {
            Some(k) => if trim_bytes(c.take(k)) == key {
                Some(k)
            } else {
                None
            },
            None => None,
        }
    }
}

/// The value span of a key line, relative to the line: it starts after the
/// white space that follows the colon and ends before trailing white space and
/// a trailing comment.
pub open spec fn value_span(c: Seq<u8>, colon: int) -> (int, int) {
    let rest = c.skip(colon + 1);
    let vs = colon + 1 + (rest.len() - trim_start_bytes(rest).len());
    let v1 = trim_end_bytes(c.skip(vs));
    let v2 = v1.take(comment_cut(v1, 0, None));
    (vs, vs + trim_end_bytes(v2).len())
}

/// Key lines from the line starting at `start` on: how many there are, and the
/// span (relative to `y`) of the last one whose value is non-empty.
pub open spec fn scan_key_lines(y: Seq<u8>, key: Seq<u8>, start: int) -> (nat, Option<(int, int)>)
    decreases y.len() - start,
{
    if start >= y.len() || start < 0 {
        (0, None)
    } else {
        let le = line_end(y, start);
        let c = y.subrange(start, content_end(y, start));
        let rest = if le > start && le <= y.len() {
            scan_key_lines(y, key, le)
        } else {
            (0, None)
        };
        match key_colon(c, key) {
            None => rest,
            Some(k) => {
                let (vs, ve) = value_span(c, k);
                (rest.0 + 1, if rest.1 is Some {
                    rest.1
                } else if ve > vs {
                    Some((start + vs, start + ve))
                } else {
                    None
                })
            },
        }
    }
}

/// Result of the YAML checks on a frontmatter region for a key.
#[derive(Clone, Copy, Debug, PartialEq, Eq, Structural)]
pub enum YamlKeyCheck {
    /// The root is a mapping whose value for the key is a scalar.
    Scalar,
    RootNotMapping,
    KeyMissing,
    NotScalar,
}


/// A copy of `b[from..to]`.
pub fn copy_range(b: &[u8], from: usize, to: usize) -> (r: Vec<u8>)
    requires
        from <= to <= b@.len(),
    ensures
        r@ == b@.subrange(from as int, to as int),
{
    let mut out: Vec<u8> = Vec::new();
    let mut i = from;
    while i < to
        invariant
            from <= i <= to,
            to <= b@.len(),
            out@ == b@.subrange(from as int, i as int),
        decreases to - i,
    {
        out.push(b[i]);
        assert(b@.subrange(from as int, i + 1) =~= b@.subrange(from as int, i as int).push(
            b@[i as int],
        ));
        i = i + 1;
    }
    out
}

pub(crate) fn first_byte_exec(s: &[u8], x: u8, from: usize) -> (r: Option<usize>)
    requires
        from <= s@.len(),
    ensures
        match first_byte(s@, x, from as int) {
            Some(k) => r == Some(k as usize),
            None => r is None,
        },
        match first_byte(s@, x, from as int) {
            Some(k) => from <= k < s@.len() && s@[k] == x,
            None => true,
        },
{
    let mut i = from;
    while i < s.len()
        invariant
            from <= i <= s@.len(),
            first_byte(s@, x, from as int) == first_byte(s@, x, i as int),
        decreases s@.len() - i,
    {
        if s[i] == x {
            return Some(i);
        }
        i = i + 1;
    }
    None
}

fn comment_cut_exec(v: &[u8]) -> (r: usize)
    ensures
        r == comment_cut(v@, 0, None),
        r <= v@.len(),
{
    let mut i: usize = 0;
    let mut quote: Option<u8> = None;
    while i < v.len()
        invariant
            i <= v@.len(),
            comment_cut(v@, 0, None) == comment_cut(v@, i as int, quote),
        decreases v@.len() - i,
    {
        let c = v[i];
        match quote {
            None => {
                if c == 39u8 || c == 34u8 {
                    quote = Some(c);
                } else if c == 35u8 && (i == 0 || {
                    let p = v[i - 1];
                    p == 32u8 || p == 9u8 || p == 10u8 || p == 12u8 || p == 13u8
                }) {
                    return i;
                }
            },
            Some(q) => {
                if c == q {
                    quote = None;
                }
            },
        }
        i = i + 1;
    }
    v.len()
}

proof fn lemma_comment_cut_bounds(v: Seq<u8>, i: int, quote: Option<u8>)
    requires
        0 <= i,
    ensures
        0 <= comment_cut(v, i, quote) <= v.len(),
    decreases v.len() - i,
{
    if i < v.len() {
        let c = v[i];
        match quote {
            None => {
                lemma_comment_cut_bounds(v, i + 1, Some(c));
                lemma_comment_cut_bounds(v, i + 1, None);
            },
            Some(q) => {
                lemma_comment_cut_bounds(v, i + 1, None);
                lemma_comment_cut_bounds(v, i + 1, Some(q));
            },
        }
    }
}

fn key_colon_exec(c: &[u8], key: &[u8]) -> (r: Option<usize>)
    ensures
        match key_colon(c@, key@) {
            Some(k) => r == Some(k as usize),
            None => r is None,
        },
        match key_colon(c@, key@) {
            Some(k) => 0 <= k < c@.len(),
            None => true,
        },
{
    let ts = trim_start_range(c, 0, c.len());
    assert(c@.subrange(0, c@.len() as int) =~= c@);
    proof {
        lemma_trim_start_unchanged(c@);
    }
    if ts != 0 || (c.len() > 0 && c[0] == 35u8) {
        return None;
    }
    match first_byte_exec(c, 58u8, 0) {
        Some(k) => {
            let (a, b) = trim_range(c, 0, k);
            assert(c@.subrange(0, k as int) =~= c@.take(k as int));
            let same = b - a == key.len() && {
                let mut i: usize = 0;
                let mut eq = true;
                while i < key.len()
                    invariant
                        a <= b <= c@.len(),
                        b - a == key@.len(),
                        i <= key@.len(),
                        eq == (forall|j: int| 0 <= j < i ==> c@[a + j] == key@[j]),
                    decreases key@.len() - i,
                {
                    if c[a + i] != key[i] {
                        eq = false;
                    }
                    i = i + 1;
                }
                eq
            };
            proof {
                let t = c@.subrange(a as int, b as int);
                if same {
                    assert(t =~= key@);
                } else if t.len() == key@.len() {
                    assert(!(t =~= key@)) by {
                        let j = choose|j: int| 0 <= j < key@.len() && c@[a + j] != key@[j];
                        assert(t[j] == c@[a + j]);
                    }
                }
            }
            if same {
                Some(k)
            } else {
                None
            }
        },
        None => None,
    }
}

proof fn lemma_trim_start_unchanged(s: Seq<u8>)
    ensures
        (trim_start_bytes(s) == s) <==> ws_len_at(s, 0) == 0,
        trim_start_bytes(s).len() <= s.len(),
    decreases s.len(),
{
    if ws_len_at(s, 0) > 0 {
        lemma_trim_start_unchanged(s.skip(ws_len_at(s, 0)));
    }
}

proof fn lemma_trim_end_len(s: Seq<u8>)
    ensures
        trim_end_bytes(s).len() <= s.len(),
    decreases s.len(),
{
    if crate::text::ws_len_before(s, s.len() as int) > 0 {
        lemma_trim_end_len(s.take(s.len() - crate::text::ws_len_before(s, s.len() as int)));
    }
}

/// The value span of a key line (see `value_span`).
fn value_span_exec(c: &[u8], colon: usize) -> (r: (usize, usize))
    requires
        colon < c@.len(),
    ensures
        r.0 as int == value_span(c@, colon as int).0,
        r.1 as int == value_span(c@, colon as int).1,
        colon < r.0 <= r.1 <= c@.len(),
{
    let n = c.len();
    let vs = trim_start_range(c, colon + 1, n);
    assert(c@.subrange(colon + 1, n as int) =~= c@.skip(colon + 1));
    proof {
        lemma_trim_start_unchanged(c@.skip(colon + 1));
    }
    let v1_end = trim_end_range(c, vs, n);
    assert(c@.subrange(vs as int, n as int) =~= c@.skip(vs as int));
    let v1 = copy_range(c, vs, v1_end);
    let cut = comment_cut_exec(v1.as_slice());
    let ve = trim_end_range(c, vs, vs + cut);
    proof {
        assert(v1@.take(cut as int) =~= c@.subrange(vs as int, vs + cut));
    }
    (vs, ve)
}

/// Scan the key lines of a YAML region (see `scan_key_lines`).
pub fn scan_key_lines_exec(y: &[u8], key: &[u8]) -> (r: (usize, Option<(usize, usize)>))
    ensures
        r.0 as nat == scan_key_lines(y@, key@, 0).0,
        match scan_key_lines(y@, key@, 0).1 {
            Some(p) => r.1 == Some((p.0 as usize, p.1 as usize)) && 0 <= p.0 <= p.1 <= y@.len(),
            None => r.1 is None,
        },
{
    let mut cursor: usize = 0;
    let mut count: usize = 0;
    let mut found: Option<(usize, usize)> = None;
    while cursor < y.len()
        invariant
            cursor <= y@.len(),
            count <= cursor,
            scan_key_lines(y@, key@, 0).0 == count + scan_key_lines(y@, key@, cursor as int).0,
            scan_key_lines(y@, key@, 0).1 == (if scan_key_lines(y@, key@, cursor as int).1 is Some {
                scan_key_lines(y@, key@, cursor as int).1
            } else {
                match found {
                    Some(p) => Some((p.0 as int, p.1 as int)),
                    None => None,
                }
            }),
            match found {
                Some(p) => p.0 <= p.1 <= y@.len(),
                None => true,
            },
        decreases y@.len() - cursor,
    {
        let le = match first_byte_exec(y, 10u8, cursor) {
            Some(k) => k + 1,
            None => y.len(),
        };
        let mut ce = le;
        if ce > cursor && y[ce - 1] == 10u8 {
            ce = ce - 1;
        }
        if ce > cursor && y[ce - 1] == 13u8 {
            ce = ce - 1;
        }
        assert(le == line_end(y@, cursor as int));
        assert(ce == content_end(y@, cursor as int));
        let c = copy_range(y, cursor, ce);
        match key_colon_exec(c.as_slice(), key) {
            Some(k) => {
                let (vs, ve) = value_span_exec(c.as_slice(), k);
                count = count + 1;
                if ve > vs {
                    found = Some((cursor + vs, cursor + ve));
                }
            },
            None => {},
        }
        cursor = le;
    }
    (count, found)
}


/// What the YAML checks give for a region and a key.
pub open spec fn yaml_check_spec(text: Seq<char>, key: Seq<char>) -> Result<YamlKeyCheck, Seq<char>> {
    match yaml_parse_error(text) {
        Some(m) => Err(m),
        None => Ok(if !yaml_root_is_mapping(text) {
            YamlKeyCheck::RootNotMapping
        } else if !yaml_key_present(text, key) {
            YamlKeyCheck::KeyMissing
        } else if !yaml_key_is_scalar(text, key) {
            YamlKeyCheck::NotScalar
        } else {
            YamlKeyCheck::Scalar
        }),
    }
}

/// Parse YAML text with `yaml_edit` and check that its root mapping holds a scalar for `key`.
pub fn check_yaml_key(yaml: &str, key: &str) -> (r: Result<YamlKeyCheck, String>)
    ensures
        match yaml_check_spec(yaml@, key@) {
            Ok(c) => r == Ok::<YamlKeyCheck, String>(c),
            Err(m) => r matches Err(e) && e@ == m,
        },
{
    let document = match yaml_document_from_str(yaml) {
        Ok(d) => d,
        Err(m) => {
            return Err(m);
        },
    };
    let mapping = match yaml_as_mapping(&document) {
        Some(m) => m,
        None => {
            return Ok(YamlKeyCheck::RootNotMapping);
        },
    };
    let value = match yaml_mapping_get(&mapping, key) {
        Some(v) => v,
        None => {
            return Ok(YamlKeyCheck::KeyMissing);
        },
    };
    if yaml_node_is_scalar(&value) {
        Ok(YamlKeyCheck::Scalar)
    } else {
        Ok(YamlKeyCheck::NotScalar)
    }
}

/// The YAML text of a frontmatter region, as handed to the YAML checks.
pub open spec fn region_text(b: Seq<u8>, env: FrontmatterEnvelope) -> Seq<char> {
    lossy_text_of(b.subrange(env.yaml_start as int, env.yaml_end as int))
}

/// The span located in a frontmatter region once the YAML checks have answered.
pub open spec fn span_spec(
    b: Seq<u8>,
    env: FrontmatterEnvelope,
    key: &str,
    check: Result<YamlKeyCheck, Seq<char>>,
    r: Result<Range<usize>, FrontmatterScalarError>,
) -> bool {
    match check {
        Err(m) => r matches Err(FrontmatterScalarError::InvalidYaml(t)) && t@ == m,
        Ok(YamlKeyCheck::RootNotMapping) => r matches Err(FrontmatterScalarError::InvalidYaml(t))
            && t@ == "root is not a mapping"@,
        Ok(YamlKeyCheck::KeyMissing) => r matches Err(FrontmatterScalarError::MissingKey(k)) && k@
            == key@,
        Ok(YamlKeyCheck::NotScalar) => r matches Err(FrontmatterScalarError::NotScalar(k)) && k@
            == key@,
        Ok(YamlKeyCheck::Scalar) => {
            let y = b.subrange(env.yaml_start as int, env.yaml_end as int);
            let (count, span) = scan_key_lines(y, key.spec_bytes(), 0);
            if count == 0 {
                r matches Err(FrontmatterScalarError::MissingKey(k)) && k@ == key@
            } else if count == 1 {
                match span {
                    Some(p) => r matches Ok(range) && range.start == env.yaml_start + p.0
                        && range.end == env.yaml_start + p.1,
                    None => r matches Err(FrontmatterScalarError::NotScalar(k)) && k@ == key@,
                }
            } else {
                r matches Err(FrontmatterScalarError::DuplicateKey(k)) && k@ == key@
            }
        },
    }
}

/// What `locate_frontmatter_scalar` returns for a source and a key, given what the
/// YAML checks answer for the frontmatter region.
pub open spec fn locate_spec(
    b: Seq<u8>,
    key: &str,
    scan: Result<Option<FrontmatterEnvelope>, FrontmatterError>,
    check: Result<YamlKeyCheck, Seq<char>>,
    r: Result<Range<usize>, FrontmatterScalarError>,
) -> bool {
    match scan {
        Err(FrontmatterError::UnsupportedBom) => r matches Err(FrontmatterScalarError::InvalidYaml(t))
            && t@ == "UTF-8 BOM before frontmatter is not supported"@,
        Err(FrontmatterError::Unclosed) => r matches Err(FrontmatterScalarError::InvalidYaml(t))
            && t@ == "frontmatter opening delimiter has no closing delimiter"@,
        Ok(None) => r == Err::<Range<usize>, FrontmatterScalarError>(
            FrontmatterScalarError::NoFrontmatter,
        ),
        Ok(Some(env)) => span_spec(b, env, key, check, r),
    }
}

/// What the YAML checks answer for the frontmatter region of a source (when it has one).
pub open spec fn yaml_answer(b: Seq<u8>, key: Seq<char>) -> Result<YamlKeyCheck, Seq<char>> {
    match frontmatter_result(b) {
        Ok(Some(env)) => yaml_check_spec(region_text(b, env), key),
        _ => Ok(YamlKeyCheck::Scalar),
    }
}

/// The span that `locate_frontmatter_scalar` finds, when it finds one.
pub open spec fn located_range(b: Seq<u8>, key: Seq<u8>, key_chars: Seq<char>) -> Option<(int, int)> {
    match frontmatter_result(b) {
        Ok(Some(env)) => match yaml_check_spec(region_text(b, env), key_chars) {
            Ok(YamlKeyCheck::Scalar) => {
                let y = b.subrange(env.yaml_start as int, env.yaml_end as int);
                let (count, span) = scan_key_lines(y, key, 0);
                if count == 1 {
                    match span {
                        Some(p) => Some((env.yaml_start + p.0, env.yaml_start + p.1)),
                        None => None,
                    }
                } else {
                    None
                }
            },
            _ => None,
        },
        _ => None,
    }
}

/// Locate the span of `key`'s value in a frontmatter region, given the answer of the YAML checks.
pub fn span_in_envelope(
    source: &str,
    env: FrontmatterEnvelope,
    key: &str,
    check: Result<YamlKeyCheck, String>,
) -> (r: Result<Range<usize>, FrontmatterScalarError>)
    requires
        env.yaml_start <= env.yaml_end <= source.spec_bytes().len(),
    ensures
        span_spec(
            source.spec_bytes(),
            env,
            key,
            match check {
                Ok(c) => Ok(c),
                Err(m) => Err(m@),
            },
            r,
        ),
        r matches Ok(range) ==> range.start <= range.end <= source.spec_bytes().len(),
{
    match check {
        Err(m) => Err(FrontmatterScalarError::InvalidYaml(m)),
        Ok(YamlKeyCheck::RootNotMapping) => Err(
            FrontmatterScalarError::InvalidYaml("root is not a mapping".to_owned()),
        ),
        Ok(YamlKeyCheck::KeyMissing) => Err(FrontmatterScalarError::MissingKey(key.to_owned())),
        Ok(YamlKeyCheck::NotScalar) => Err(FrontmatterScalarError::NotScalar(key.to_owned())),
        Ok(YamlKeyCheck::Scalar) => {
            let bytes = source.as_bytes();
            let y = copy_range(bytes, env.yaml_start, env.yaml_end);
            let (count, span) = scan_key_lines_exec(y.as_slice(), key.as_bytes());
            if count == 0 {
                Err(FrontmatterScalarError::MissingKey(key.to_owned()))
            } else if count == 1 {
                match span {
                    Some((a, b)) => Ok(Range { start: env.yaml_start + a, end: env.yaml_start + b }),
                    None => Err(FrontmatterScalarError::NotScalar(key.to_owned())),
                }
            } else {
                Err(FrontmatterScalarError::DuplicateKey(key.to_owned()))
            }
        },
    }
}

/// Locate the exact byte span of a top-level scalar value in frontmatter.
///
/// YAML is parsed with `yaml_edit` for validation and type checking. The span is
/// then found in the original source, so line endings, comments, quoting and
/// spacing remain untouched.
pub fn locate_frontmatter_scalar(source: &str, key: &str) -> (r: Result<
    Range<usize>,
    FrontmatterScalarError,
>)
    ensures
        locate_spec(
            source.spec_bytes(),
            key,
            frontmatter_result(source.spec_bytes()),
            yaml_answer(source.spec_bytes(), key@),
            r,
        ),
        match located_range(source.spec_bytes(), key.spec_bytes(), key@) {
            Some(p) => r matches Ok(range) && range.start == p.0 && range.end == p.1,
            None => r is Err,
        },
        r matches Ok(range) ==> range.start <= range.end <= source.spec_bytes().len(),
        r matches Ok(range) ==> span_on_key_line(source.spec_bytes(), key.spec_bytes(), (range.start as int, range.end as int)),
{
    let source_len: usize = source.as_bytes().len();
    proof {
        assert(source.spec_bytes().len() == source_len);
        if located_range(source.spec_bytes(), key.spec_bytes(), key@) is Some {
            lemma_located_range(source.spec_bytes(), key.spec_bytes(), key@);
        }
    }
    let scan = scan_frontmatter(source);
    match scan {
        Err(e) => Err(FrontmatterScalarError::InvalidYaml(e.message())),
        Ok(None) => Err(FrontmatterScalarError::NoFrontmatter),
        Ok(Some(env)) => {
            let bytes = source.as_bytes();
            let region = copy_range(bytes, env.yaml_start, env.yaml_end);
            let yaml = lossy_text(region.as_slice());
            let check = check_yaml_key(yaml.as_str(), key);
            let r = span_in_envelope(source, env, key, check);
            r
        },
    }
}


pub(crate) proof fn lemma_first_byte(s: Seq<u8>, x: u8, i: int)
    requires
        0 <= i,
    ensures
        match first_byte(s, x, i) {
            Some(k) => i <= k < s.len() && s[k] == x && forall|m: int| i <= m < k ==> s[m] != x,
            None => forall|m: int| i <= m < s.len() ==> s[m] != x,
        },
    decreases s.len() - i,
{
    if i < s.len() && s[i] != x {
        lemma_first_byte(s, x, i + 1);
    }
}

pub(crate) proof fn lemma_line_bounds(y: Seq<u8>, s: int)
    requires
        0 <= s < y.len(),
    ensures
        s < line_end(y, s) <= y.len(),
        s <= content_end(y, s) <= line_end(y, s),
        forall|m: int| s <= m < content_end(y, s) ==> y[m] != 10u8,
        line_end(y, s) < y.len() ==> y[line_end(y, s) - 1] == 10u8,
{
    lemma_first_byte(y, 10u8, s);
}

/// The key line at `s` holds a non-empty value whose span (relative to `y`) is `p`.
pub open spec fn key_line_span(y: Seq<u8>, key: Seq<u8>, s: int, p: (int, int)) -> bool {
    &&& 0 <= s < y.len()
    &&& key_colon(y.subrange(s, content_end(y, s)), key) matches Some(k)
    &&& p == (s + value_span(y.subrange(s, content_end(y, s)), k).0, s + value_span(
        y.subrange(s, content_end(y, s)),
        k,
    ).1)
    &&& value_span(y.subrange(s, content_end(y, s)), k).1 > value_span(y.subrange(s, content_end(y, s)), k).0
}

proof fn lemma_scan_span(y: Seq<u8>, key: Seq<u8>, start: int)
    requires
        0 <= start,
        scan_key_lines(y, key, start).1 is Some,
    ensures
        exists|s: int|
            start <= s && (s == start || y[s - 1] == 10u8) && #[trigger] key_line_span(
                y,
                key,
                s,
                scan_key_lines(y, key, start).1->Some_0,
            ),
    decreases y.len() - start,
{
    lemma_line_bounds(y, start);
    let le = line_end(y, start);
    let c = y.subrange(start, content_end(y, start));
    let p = scan_key_lines(y, key, start).1->Some_0;
    let rest = if le > start && le <= y.len() {
        scan_key_lines(y, key, le)
    } else {
        (0nat, None::<(int, int)>)
    };
    if rest.1 is Some {
        lemma_scan_span(y, key, le);
        let s = choose|s: int|
            le <= s && (s == le || y[s - 1] == 10u8) && #[trigger] key_line_span(y, key, s, rest.1->Some_0);
        if s == le {
            assert(le < y.len());
        }
        assert(p == rest.1->Some_0);
        assert(start <= s && (s == start || y[s - 1] == 10u8) && key_line_span(y, key, s, p));
    } else {
        assert(key_line_span(y, key, start, p));
    }
}

/// The value span of a key line lies after the colon and within the line, and
/// its bytes neither start nor end with white space.
proof fn lemma_value_span(c: Seq<u8>, key: Seq<u8>, k: int)
    requires
        key_colon(c, key) == Some(k),
    ensures
        k + 1 <= value_span(c, k).0 <= value_span(c, k).1 <= c.len(),
        value_span(c, k).1 > value_span(c, k).0 ==> ws_len_at(
            c.subrange(value_span(c, k).0, value_span(c, k).1),
            0,
        ) == 0,
        ws_len_before(
            c.subrange(value_span(c, k).0, value_span(c, k).1),
            value_span(c, k).1 - value_span(c, k).0,
        ) == 0,
{
    lemma_first_byte(c, 58u8, 0);
    let rest = c.skip(k + 1);
    let t = trim_start_bytes(rest);
    lemma_trim_start_suffix(rest);
    let vs = k + 1 + (rest.len() - t.len());
    assert(c.skip(vs) =~= t);
    let v1 = trim_end_bytes(c.skip(vs));
    lemma_trim_end_prefix(c.skip(vs));
    let cut = comment_cut(v1, 0, None);
    lemma_comment_cut_bounds(v1, 0, None);
    let v2 = v1.take(cut);
    let v3 = trim_end_bytes(v2);
    lemma_trim_end_prefix(v2);
    let ve = vs + v3.len();
    assert(value_span(c, k) == (vs, ve));
    assert(v3 =~= t.take(v3.len() as int));
    assert(c.subrange(vs, ve) =~= v3);
    lemma_prefix_no_leading_ws(t, v3.len() as int);
}

/// The span `p` lies inside the YAML region of the frontmatter, on one line of it
/// that starts with the key and a colon, after that colon; it holds no line feed
/// and neither starts nor ends with white space.
pub open spec fn span_on_key_line(b: Seq<u8>, key: Seq<u8>, p: (int, int)) -> bool {
    let env = frontmatter_result(b)->Ok_0->Some_0;
    let ys = env.yaml_start as int;
    let y = b.subrange(ys, env.yaml_end as int);
    &&& frontmatter_result(b) is Ok && frontmatter_result(b)->Ok_0 is Some
    &&& ys <= p.0 < p.1 <= env.yaml_end
    &&& forall|m: int| p.0 <= m < p.1 ==> b[m] != 10u8
    &&& ws_len_at(b.subrange(p.0, p.1), 0) == 0
    &&& ws_len_before(b.subrange(p.0, p.1), p.1 - p.0) == 0
    &&& exists|s: int|
        0 <= s && ys + s <= p.0 && (s == 0 || y[s - 1] == 10u8) && (#[trigger] key_colon(
            y.subrange(s, content_end(y, s)),
            key,
        ) matches Some(k) && ys + s + k < p.0 && p.1 <= ys + content_end(y, s))
}

/// Law: the range `locate_frontmatter_scalar` returns lies on the key's line
/// inside the YAML region (see `span_on_key_line`).
pub proof fn lemma_located_range(b: Seq<u8>, key: Seq<u8>, key_chars: Seq<char>)
    requires
        b.len() <= usize::MAX,
        located_range(b, key, key_chars) is Some,
    ensures
        span_on_key_line(b, key, located_range(b, key, key_chars)->Some_0),
{
    lemma_envelope_bounds(b);
    let env = frontmatter_result(b)->Ok_0->Some_0;
    let ys = env.yaml_start as int;
    let y = b.subrange(ys, env.yaml_end as int);
    let q = scan_key_lines(y, key, 0).1->Some_0;
    lemma_scan_span(y, key, 0);
    let s = choose|s: int| 0 <= s && (s == 0 || y[s - 1] == 10u8) && #[trigger] key_line_span(y, key, s, q);
    lemma_line_bounds(y, s);
    let c = y.subrange(s, content_end(y, s));
    let k = key_colon(c, key)->Some_0;
    lemma_first_byte(c, 58u8, 0);
    lemma_value_span(c, key, k);
    let (vs, ve) = value_span(c, k);
    assert(q == (s + vs, s + ve));
    let p = located_range(b, key, key_chars)->Some_0;
    assert(p == (ys + s + vs, ys + s + ve));
    assert(y.len() == env.yaml_end - ys);
    assert(c.len() == content_end(y, s) - s);
    assert(p.1 <= ys + content_end(y, s));
    assert forall|m: int| p.0 <= m < p.1 implies b[m] != 10u8 by {
        assert(s <= m - ys < content_end(y, s));
        assert(b[m] == y[m - ys]);
    }
    assert(b.subrange(p.0, p.1) =~= c.subrange(vs, ve));
}

} // verus!
