use vstd::prelude::*;
use core::ops::Range;
use vstd::string::StringSliceAdditionalSpecFns;

verus! {

/// Line-ending pattern observed in a frontmatter envelope.
#[derive(Clone, Copy, Debug, PartialEq, Eq, Structural)]
pub enum LineEndings {
    Lf,
    CrLf,
    Mixed,
}

/// Exact source spans for a YAML frontmatter envelope and Markdown body.
#[derive(Clone, Copy, Debug, PartialEq, Eq, Structural)]
pub struct FrontmatterEnvelope {
    pub yaml_start: usize,
    pub yaml_end: usize,
    pub body_start: usize,
    pub body_end: usize,
    pub line_endings: LineEndings,
}

/// Fail-closed errors emitted while locating a frontmatter envelope.
#[derive(Clone, Copy, Debug, PartialEq, Eq, Structural)]
pub enum FrontmatterError {
    UnsupportedBom,
    Unclosed,
}

pub open spec fn is_newline(b: Seq<u8>, i: int) -> bool {
    0 <= i < b.len() && b[i] == 10u8
}

/// The byte order mark U+FEFF, as UTF-8.
pub open spec fn starts_with_bom(b: Seq<u8>) -> bool {
    b.len() >= 3 && b[0] == 0xEFu8 && b[1] == 0xBBu8 && b[2] == 0xBFu8
}

/// Three dashes at position `p`.
pub open spec fn dashes_at(b: Seq<u8>, p: int) -> bool {
    0 <= p && p + 3 <= b.len() && b[p] == 45u8 && b[p + 1] == 45u8 && b[p + 2] == 45u8
}

/// Where the YAML region starts: after an exact `---` first line ended by LF or CRLF.
pub open spec fn yaml_start_of(b: Seq<u8>) -> Option<int> {
    if dashes_at(b, 0) && b.len() >= 5 && b[3] == 13u8 && b[4] == 10u8 {
        Some(5)
    } else if dashes_at(b, 0) && b.len() >= 4 && b[3] == 10u8 {
        Some(4)
    } else {
        None
    }
}

/// The whole source is exactly `---`.
pub open spec fn is_bare_delimiter(b: Seq<u8>) -> bool {
    b.len() == 3 && dashes_at(b, 0)
}

/// `p` begins a line of the region that starts at `from` (and is not past the end).
pub open spec fn line_start_in(b: Seq<u8>, from: int, p: int) -> bool {
    from <= p < b.len() && (p == from || b[p - 1] == 10u8)
}

/// The line at `p` is exactly `---`, ended by LF, CRLF or the end of the source.
pub open spec fn delimiter_line(b: Seq<u8>, p: int) -> bool {
    dashes_at(b, p) && (p + 3 == b.len() || b[p + 3] == 10u8 || (p + 4 < b.len() && b[p + 3]
        == 13u8 && b[p + 4] == 10u8))
}

/// The first byte after the delimiter line at `p`.
pub open spec fn after_delimiter(b: Seq<u8>, p: int) -> int {
    if p + 3 == b.len() {
        p + 3
    } else if b[p + 3] == 10u8 {
        p + 4
    } else {
        p + 5
    }
}

/// `c` is the first delimiter line of the region that starts at `from`.
pub open spec fn first_delimiter(b: Seq<u8>, from: int, c: int) -> bool {
    &&& line_start_in(b, from, c)
    &&& delimiter_line(b, c)
    &&& forall|q: int| from <= q < c && #[trigger] line_start_in(b, from, q) ==> !delimiter_line(b, q)
}

pub open spec fn has_delimiter(b: Seq<u8>, from: int) -> bool {
    exists|q: int| #[trigger] line_start_in(b, from, q) && delimiter_line(b, q)
}

/// A newline at `i` that is preceded by a carriage return.
pub open spec fn crlf_at(b: Seq<u8>, i: int) -> bool {
    is_newline(b, i) && i > 0 && b[i - 1] == 13u8
}

pub open spec fn bare_lf_at(b: Seq<u8>, i: int) -> bool {
    is_newline(b, i) && !(i > 0 && b[i - 1] == 13u8)
}

/// The line-ending pattern of all newlines before position `n`.
pub open spec fn endings_before(b: Seq<u8>, n: int) -> LineEndings {
    let has_lf = exists|i: int| 0 <= i < n && #[trigger] bare_lf_at(b, i);
    let has_crlf = exists|i: int| 0 <= i < n && #[trigger] crlf_at(b, i);
    if has_lf && has_crlf {
        LineEndings::Mixed
    } else if has_crlf {
        LineEndings::CrLf
    } else {
        LineEndings::Lf
    }
}

/// What `scan_frontmatter` returns for the bytes of a source.
pub open spec fn frontmatter_spec(
    b: Seq<u8>,
    r: Result<Option<FrontmatterEnvelope>, FrontmatterError>,
) -> bool {
    if starts_with_bom(b) {
        r == Err::<Option<FrontmatterEnvelope>, FrontmatterError>(FrontmatterError::UnsupportedBom)
    } else if is_bare_delimiter(b) {
        r == Err::<Option<FrontmatterEnvelope>, FrontmatterError>(FrontmatterError::Unclosed)
    } else {
        match yaml_start_of(b) {
            None => r == Ok::<Option<FrontmatterEnvelope>, FrontmatterError>(None),
            Some(ys) => if !has_delimiter(b, ys) {
                r == Err::<Option<FrontmatterEnvelope>, FrontmatterError>(
                    FrontmatterError::Unclosed,
                )
            } else {
                match r {
                    Ok(Some(env)) => {
                        &&& env.yaml_start == ys
                        &&& first_delimiter(b, ys, env.yaml_end as int)
                        &&& env.body_start == after_delimiter(b, env.yaml_end as int)
                        &&& env.body_end == b.len()
                        &&& env.line_endings == endings_before(b, env.body_start as int)
                    },
                    _ => false,
                }
            },
        }
    }
}

/// The result of `scan_frontmatter` as a function of the source bytes.
pub open spec fn frontmatter_result(b: Seq<u8>) -> Result<Option<FrontmatterEnvelope>, FrontmatterError> {
    if starts_with_bom(b) {
        Err(FrontmatterError::UnsupportedBom)
    } else if is_bare_delimiter(b) {
        Err(FrontmatterError::Unclosed)
    } else {
        match yaml_start_of(b) {
            None => Ok(None),
            Some(ys) => if !has_delimiter(b, ys) {
                Err(FrontmatterError::Unclosed)
            } else {
                let c = choose|c: int| first_delimiter(b, ys, c);
                let body = after_delimiter(b, c);
                Ok(Some(FrontmatterEnvelope {
                    yaml_start: ys as usize,
                    yaml_end: c as usize,
                    body_start: body as usize,
                    body_end: b.len() as usize,
                    line_endings: endings_before(b, body),
                }))
            },
        }
    }
}

proof fn lemma_first_delimiter_exists(b: Seq<u8>, from: int, q: int)
    requires
        line_start_in(b, from, q),
        delimiter_line(b, q),
    ensures
        exists|c: int| first_delimiter(b, from, c),
    decreases q - from,
{
    if forall|p: int| from <= p < q && #[trigger] line_start_in(b, from, p) ==> !delimiter_line(b, p) {
        assert(first_delimiter(b, from, q));
    } else {
        let p = choose|p: int| from <= p < q && #[trigger] line_start_in(b, from, p) && delimiter_line(b, p);
        lemma_first_delimiter_exists(b, from, p);
    }
}

/// The YAML region of an envelope lies within the source: it starts after the
/// opening delimiter line and ends where the closing delimiter line starts.
pub proof fn lemma_envelope_bounds(b: Seq<u8>)
    requires
        b.len() <= usize::MAX,
        frontmatter_result(b) is Ok,
        frontmatter_result(b)->Ok_0 is Some,
    ensures
        ({
            let env = frontmatter_result(b)->Ok_0->Some_0;
            &&& yaml_start_of(b) == Some(env.yaml_start as int)
            &&& first_delimiter(b, env.yaml_start as int, env.yaml_end as int)
            &&& env.yaml_start <= env.yaml_end < b.len()
        }),
{
    let ys = yaml_start_of(b)->Some_0;
    let q = choose|q: int| #[trigger] line_start_in(b, ys, q) && delimiter_line(b, q);
    lemma_first_delimiter_exists(b, ys, q);
    let c = choose|c: int| first_delimiter(b, ys, c);
    assert(first_delimiter(b, ys, c));
}

/// Law: the YAML region of an envelope starts after the opening `---` line (at 5
/// after CRLF, else at 4) and ends where the first later `---` line starts; that
/// closing line is `---` followed by nothing, LF or CRLF, the body starts right
/// after it and runs to the end of the source, and no line of the YAML region
/// before it is a delimiter line.
pub proof fn lemma_envelope_shape(b: Seq<u8>)
    requires
        b.len() <= usize::MAX,
        frontmatter_result(b) is Ok,
        frontmatter_result(b)->Ok_0 is Some,
    ensures
        ({
            let env = frontmatter_result(b)->Ok_0->Some_0;
            let ys = env.yaml_start as int;
            let ye = env.yaml_end as int;
            let bs = env.body_start as int;
            &&& ys == (if b.len() >= 5 && b[3] == 13u8 && b[4] == 10u8 { 5int } else { 4int })
            &&& dashes_at(b, 0)
            &&& ys <= ye
            &&& dashes_at(b, ye)
            &&& ye + 3 <= bs <= b.len()
            &&& env.body_end == b.len()
            &&& (bs == ye + 3 && bs == b.len() || bs == ye + 4 && b[ye + 3] == 10u8 || bs == ye + 5 && b[ye
                + 3] == 13u8 && b[ye + 4] == 10u8)
            &&& forall|q: int| ys <= q < ye && #[trigger] line_start_in(b, ys, q) ==> !delimiter_line(b, q)
            &&& env.line_endings == endings_before(b, bs)
        }),
{
    lemma_envelope_bounds(b);
}

/// The first delimiter line of a region is unique.
pub proof fn lemma_first_delimiter_unique(b: Seq<u8>, from: int, c1: int, c2: int)
    requires
        first_delimiter(b, from, c1),
        first_delimiter(b, from, c2),
    ensures
        c1 == c2,
{
    if c1 < c2 {
        assert(line_start_in(b, from, c1));
    } else if c2 < c1 {
        assert(line_start_in(b, from, c2));
    }
}

/// `frontmatter_spec` determines the result: it is `frontmatter_result`.
pub proof fn lemma_frontmatter_result(b: Seq<u8>, r: Result<Option<FrontmatterEnvelope>, FrontmatterError>)
    requires
        frontmatter_spec(b, r),
        b.len() <= usize::MAX,
    ensures
        r == frontmatter_result(b),
{
    if !starts_with_bom(b) && !is_bare_delimiter(b) {
        if let Some(ys) = yaml_start_of(b) {
            if has_delimiter(b, ys) {
                let env = r->Ok_0->Some_0;
                let c = choose|c: int| first_delimiter(b, ys, c);
                lemma_first_delimiter_unique(b, ys, c, env.yaml_end as int);
            }
        }
    }
}

impl FrontmatterError {
    /// The error's display text.
    pub fn message(&self) -> (r: String)
        ensures
            r@ == (match self {
                FrontmatterError::UnsupportedBom => "UTF-8 BOM before frontmatter is not supported"@,
                FrontmatterError::Unclosed => "frontmatter opening delimiter has no closing delimiter"@,
            }),
    {
        match self {
            FrontmatterError::UnsupportedBom => "UTF-8 BOM before frontmatter is not supported".to_owned(),
            FrontmatterError::Unclosed => "frontmatter opening delimiter has no closing delimiter".to_owned(),
        }
    }
}

impl FrontmatterEnvelope {
    pub fn yaml_range(&self) -> (r: Range<usize>)
        ensures
            r.start == self.yaml_start,
            r.end == self.yaml_end,
    {
        Range { start: self.yaml_start, end: self.yaml_end }
    }

    pub fn body_range(&self) -> (r: Range<usize>)
        ensures
            r.start == self.body_start,
            r.end == self.body_end,
    {
        Range { start: self.body_start, end: self.body_end }
    }

    pub fn line_endings(&self) -> (r: LineEndings)
        ensures
            r == self.line_endings,
    {
        self.line_endings
    }
}


#[derive(Clone, Copy, Debug, PartialEq, Eq, Structural)]
enum Eol {
    Lf,
    CrLf,
}

/// Bounds of the line that starts at `start`: where its content ends, where the
/// next line starts, and which newline ended it.
fn next_line(bytes: &[u8], start: usize) -> (r: (usize, usize, Option<Eol>))
    requires
        start <= bytes@.len(),
        start >= 1 ==> bytes@[start - 1] == 10u8,
    ensures
        start <= r.0 <= r.1 <= bytes@.len(),
        forall|i: int| start <= i < r.0 ==> !#[trigger] is_newline(bytes@, i),
        match r.2 {
            None => r.0 == bytes@.len() && r.1 == bytes@.len(),
            Some(Eol::Lf) => r.1 == r.0 + 1 && bare_lf_at(bytes@, r.0 as int),
            Some(Eol::CrLf) => r.1 == r.0 + 2 && bytes@[r.0 as int] == 13u8 && crlf_at(
                bytes@,
                r.0 + 1,
            ),
        },
{
    let mut lf = start;
    while lf < bytes.len()
        invariant
            start <= lf <= bytes@.len(),
            start >= 1 ==> bytes@[start - 1] == 10u8,
            forall|i: int| start <= i < lf ==> !#[trigger] is_newline(bytes@, i),
        decreases bytes@.len() - lf,
    {
        if bytes[lf] == 10u8 {
            if lf > start && bytes[lf - 1] == 13u8 {
                return (lf - 1, lf + 1, Some(Eol::CrLf));
            } else {
                return (lf, lf + 1, Some(Eol::Lf));
            }
        }
        lf = lf + 1;
    }
    (bytes.len(), bytes.len(), None)
}

pub open spec fn has_bare_lf_before(b: Seq<u8>, n: int) -> bool {
    exists|i: int| 0 <= i < n && #[trigger] bare_lf_at(b, i)
}

pub open spec fn has_crlf_before(b: Seq<u8>, n: int) -> bool {
    exists|i: int| 0 <= i < n && #[trigger] crlf_at(b, i)
}

/// Locate exact frontmatter and body byte spans without normalizing source.
///
/// Only an exact `---` first line is treated as an opening delimiter. The
/// closing delimiter must also be an exact `---` line. Missing or ambiguous
/// delimiters fail closed rather than guessing an editable YAML region.
pub fn scan_frontmatter(source: &str) -> (r: Result<Option<FrontmatterEnvelope>, FrontmatterError>)
    ensures
        frontmatter_spec(source.spec_bytes(), r),
        r == frontmatter_result(source.spec_bytes()),
{
    let bytes = source.as_bytes();
    let ghost b = bytes@;
    let n = bytes.len();
    if n >= 3 && bytes[0] == 0xEFu8 && bytes[1] == 0xBBu8 && bytes[2] == 0xBFu8 {
        return Err(FrontmatterError::UnsupportedBom);
    }
    let dashes = n >= 3 && bytes[0] == 45u8 && bytes[1] == 45u8 && bytes[2] == 45u8;
    let (yaml_start, opening_eol) = if dashes && n >= 5 && bytes[3] == 13u8 && bytes[4] == 10u8 {
        (5usize, Eol::CrLf)
    } else if dashes && n >= 4 && bytes[3] == 10u8 {
        (4usize, Eol::Lf)
    } else if dashes && n == 3 {
        return Err(FrontmatterError::Unclosed);
    } else {
        return Ok(None);
    };
    assert(yaml_start_of(b) == Some(yaml_start as int));
    proof {
        if opening_eol == Eol::CrLf {
            assert(crlf_at(b, 4));
            assert(forall|i: int| 0 <= i < 5 && #[trigger] bare_lf_at(b, i) ==> false);
        } else {
            assert(bare_lf_at(b, 3));
            assert(forall|i: int| 0 <= i < 4 && #[trigger] crlf_at(b, i) ==> false);
        }
    }
    let mut cursor = yaml_start;
    let mut observed = opening_eol;
    let mut mixed = false;
    while cursor < n
        invariant
            n == b.len(),
            b == bytes@,
            b == source.spec_bytes(),
            yaml_start_of(b) == Some(yaml_start as int),
            !starts_with_bom(b),
            !is_bare_delimiter(b),
            yaml_start <= cursor <= n,
            cursor < n ==> b[cursor - 1] == 10u8,
            forall|q: int|
                yaml_start <= q < cursor && #[trigger] line_start_in(b, yaml_start as int, q)
                    ==> !delimiter_line(b, q),
            has_bare_lf_before(b, cursor as int) || has_crlf_before(b, cursor as int),
            mixed == (has_bare_lf_before(b, cursor as int) && has_crlf_before(b, cursor as int)),
            !mixed ==> ((observed == Eol::CrLf) == has_crlf_before(b, cursor as int)),
        decreases n - cursor,
    {
        let (content_end, line_end, eol) = next_line(bytes, cursor);
        let ghost old_cursor = cursor as int;
        proof {
            assert(line_start_in(b, yaml_start as int, old_cursor));
            // the only newline in this line is the one that ends it
            match eol {
                None => {
                    assert forall|i: int| old_cursor <= i < line_end implies !#[trigger] is_newline(b, i) by {}
                },
                Some(Eol::Lf) => {},
                Some(Eol::CrLf) => {
                    assert(!is_newline(b, content_end as int));
                },
            }
        }
        if let Some(e) = eol {
            mixed = mixed || (e != observed);
            observed = e;
        }
        proof {
            let le = line_end as int;
            let ce = content_end as int;
            // newline bookkeeping up to line_end
            match eol {
                None => {
                    assert(has_bare_lf_before(b, le) == has_bare_lf_before(b, old_cursor)) by {
                        if has_bare_lf_before(b, le) {
                            let i = choose|i: int| 0 <= i < le && #[trigger] bare_lf_at(b, i);
                            assert(!is_newline(b, i) || i < old_cursor);
                        }
                    }
                    assert(has_crlf_before(b, le) == has_crlf_before(b, old_cursor)) by {
                        if has_crlf_before(b, le) {
                            let i = choose|i: int| 0 <= i < le && #[trigger] crlf_at(b, i);
                            assert(!is_newline(b, i) || i < old_cursor);
                        }
                    }
                },
                Some(Eol::Lf) => {
                    assert(bare_lf_at(b, ce));
                    assert(has_bare_lf_before(b, le));
                    assert(has_crlf_before(b, le) == has_crlf_before(b, old_cursor)) by {
                        if has_crlf_before(b, le) {
                            let i = choose|i: int| 0 <= i < le && #[trigger] crlf_at(b, i);
                            assert(i < old_cursor || i == ce || !is_newline(b, i));
                        }
                    }
                },
                Some(Eol::CrLf) => {
                    assert(crlf_at(b, ce + 1));
                    assert(has_crlf_before(b, le));
                    assert(has_bare_lf_before(b, le) == has_bare_lf_before(b, old_cursor)) by {
                        if has_bare_lf_before(b, le) {
                            let i = choose|i: int| 0 <= i < le && #[trigger] bare_lf_at(b, i);
                            assert(i < old_cursor || i == ce + 1 || i == ce || !is_newline(b, i));
                        }
                    }
                },
            }
            // the line is a delimiter exactly when its content is `---`
            assert(delimiter_line(b, old_cursor) == (content_end == cursor + 3 && dashes_at(
                b,
                old_cursor,
            ))) by {
                if delimiter_line(b, old_cursor) {
                    assert(!is_newline(b, old_cursor));
                    assert(!is_newline(b, old_cursor + 1));
                    assert(!is_newline(b, old_cursor + 2));
                    if old_cursor + 3 == b.len() {
                        assert(eol is None);
                    } else if b[old_cursor + 3] == 10u8 {
                        assert(is_newline(b, old_cursor + 3));
                        assert(content_end == old_cursor + 3);
                    } else {
                        assert(!is_newline(b, old_cursor + 3));
                        assert(is_newline(b, old_cursor + 4));
                        assert(content_end == old_cursor + 3);
                    }
                }
                if content_end == old_cursor + 3 && dashes_at(b, old_cursor) {
                    match eol {
                        None => {},
                        Some(Eol::Lf) => { assert(b[old_cursor + 3] == 10u8); },
                        Some(Eol::CrLf) => {},
                    }
                }
            }
        }
        if content_end - cursor == 3 && bytes[cursor] == 45u8 && bytes[cursor + 1] == 45u8
            && bytes[cursor + 2] == 45u8 {
            let line_endings = if mixed {
                LineEndings::Mixed
            } else {
                match observed {
                    Eol::Lf => LineEndings::Lf,
                    Eol::CrLf => LineEndings::CrLf,
                }
            };
            let env = FrontmatterEnvelope {
                yaml_start: yaml_start,
                yaml_end: cursor,
                body_start: line_end,
                body_end: n,
                line_endings: line_endings,
            };
            assert(has_delimiter(b, yaml_start as int));
            assert(first_delimiter(b, yaml_start as int, cursor as int));
            assert(env.line_endings == endings_before(b, env.body_start as int));
            proof {
                lemma_frontmatter_result(b, Ok(Some(env)));
            }
            return Ok(Some(env));
        }
        proof {
            assert forall|q: int|
                yaml_start <= q < line_end && #[trigger] line_start_in(
                    b,
                    yaml_start as int,
                    q,
                ) implies !delimiter_line(b, q) by {
                if q > old_cursor {
                    assert(is_newline(b, q - 1));
                }
            }
        }
        cursor = line_end;
    }
    proof {
        assert forall|q: int| #[trigger] line_start_in(b, yaml_start as int, q) implies !delimiter_line(b, q) by {}
    }
    Err(FrontmatterError::Unclosed)
}

} // verus!
