//! The decisions of the persistent index: freshness labels, comparison of the
//! published rows with an authoritative projection, and metadata checks.

use vstd::prelude::*;
use crate::index::{IndexedNote, IndexStatus, MarkdownIndex, NoteView, IndexDiagnostic, note_views, string_views, diagnostic_views};
use crate::paths::{bytes_equal, same_path, path_equal, path_le, path_le_exec, strip_prefix, strip_path_prefix, lemma_path_le_total, lemma_path_le_transitive, lemma_path_le_reflexive};
use crate::index::{matching_notes, note_matches, lower_contains};
use crate::text::{lossy_text, lossy_text_of, seq_contains, lowercase_of, to_lowercase, chars_of};
use crate::text::{debug_text, debug_text_of};

verus! {

pub const SCHEMA_VERSION: u32 = 2;

pub const LEGACY_SCHEMA_VERSION: u32 = 1;

/// Freshness of a published generation relative to the authoritative files.
#[derive(Clone, Copy, Debug, PartialEq, Eq, Structural)]
pub enum Freshness {
    Empty,
    Current,
    Stale,
    Degraded,
}

pub open spec fn freshness_text(f: Freshness) -> Seq<char> {
    match f {
        Freshness::Empty => "empty"@,
        Freshness::Current => "current"@,
        Freshness::Stale => "stale"@,
        Freshness::Degraded => "degraded"@,
    }
}

/// Errors of the index decisions; storage failures belong to the code that performs the I/O.
#[allow(inconsistent_fields)]
#[derive(Clone, Debug, PartialEq, Eq)]
pub enum StoreError {
    UnsupportedSchema { found: u32, expected: u32 },
    UnsupportedParser { found: String, expected: String },
    InvalidMetadata(String),
    IncompleteSchema,
    GenerationExhausted,
    NotCurrent { freshness: Freshness },
    PublicationAborted(String),
    FreshnessGenerationChanged { expected_generation: Option<u64> },
    UnsafeDatabasePath { path: Vec<u8>, reason: String },
}

/// The freshness a persisted label names, if any.
pub open spec fn freshness_of_text(v: Seq<char>) -> Option<Freshness> {
    if v == freshness_text(Freshness::Empty) {
        Some(Freshness::Empty)
    } else if v == freshness_text(Freshness::Current) {
        Some(Freshness::Current)
    } else if v == freshness_text(Freshness::Stale) {
        Some(Freshness::Stale)
    } else if v == freshness_text(Freshness::Degraded) {
        Some(Freshness::Degraded)
    } else {
        None
    }
}

/// Law: parsing the label of a freshness gives that freshness back.
pub proof fn lemma_freshness_label_round_trip(f: Freshness)
    ensures
        freshness_of_text(freshness_text(f)) == Some(f),
{
    reveal_strlit("empty");
    reveal_strlit("current");
    reveal_strlit("stale");
    reveal_strlit("degraded");
    assert("empty"@[0] != "stale"@[0]);
    assert("empty"@.len() != "current"@.len() && "empty"@.len() != "degraded"@.len());
    assert("current"@.len() != "stale"@.len() && "current"@.len() != "degraded"@.len());
    assert("stale"@.len() != "degraded"@.len());
}

impl Freshness {
    /// The persisted label of a freshness.
    pub fn as_str(self) -> (r: &'static str)
        ensures
            r@ == freshness_text(self),
    {
        match self {
            Freshness::Empty => "empty",
            Freshness::Current => "current",
            Freshness::Stale => "stale",
            Freshness::Degraded => "degraded",
        }
    }

    /// Parse a persisted freshness label.
    pub fn parse(value: &str) -> (r: Result<Freshness, StoreError>)
        ensures
            match freshness_of_text(value@) {
                Some(f) => r == Ok::<Freshness, StoreError>(f),
                None => r matches Err(StoreError::InvalidMetadata(m)) && m@ == "unknown freshness value "@
                    + debug_text_of(value@),
            },
    {
        let cs = crate::text::chars_of(value);
        proof {
            reveal_strlit("empty");
            reveal_strlit("current");
            reveal_strlit("stale");
            reveal_strlit("degraded");
        }
        if chars_are(cs.as_slice(), "empty") {
            return Ok(Freshness::Empty);
        }
        if chars_are(cs.as_slice(), "current") {
            return Ok(Freshness::Current);
        }
        if chars_are(cs.as_slice(), "stale") {
            return Ok(Freshness::Stale);
        }
        if chars_are(cs.as_slice(), "degraded") {
            return Ok(Freshness::Degraded);
        }
        let mut message = "unknown freshness value ".to_owned();
        let quoted = debug_text(value);
        message.append(quoted.as_str());
        Err(StoreError::InvalidMetadata(message))
    }
}

/// Whether a character sequence spells a literal.
fn chars_are(cs: &[char], lit: &str) -> (r: bool)
    ensures
        r == (cs@ == lit@),
{
    let lc = crate::text::chars_of(lit);
    if cs.len() != lc.len() {
        return false;
    }
    let mut i: usize = 0;
    while i < cs.len()
        invariant
            cs@.len() == lc@.len(),
            lc@ == lit@,
            i <= cs@.len(),
            forall|k: int| 0 <= k < i ==> cs@[k] == lc@[k],
        decreases cs@.len() - i,
    {
        if cs[i] != lc[i] {
            return false;
        }
        i = i + 1;
    }
    assert(cs@ =~= lc@);
    true
}


/// A diagnostic persisted with a generation.
#[derive(Clone, Debug, PartialEq, Eq)]
pub struct Diagnostic {
    pub path: Vec<u8>,
    pub message: String,
}

impl View for Diagnostic {
    type V = (Seq<u8>, Seq<char>);

    open spec fn view(&self) -> (Seq<u8>, Seq<char>) {
        (self.path@, self.message@)
    }
}

pub open spec fn diag_views(v: Seq<Diagnostic>) -> Seq<(Seq<u8>, Seq<char>)> {
    v.map_values(|d: Diagnostic| d@)
}

/// Metadata of the published generation.
#[derive(Clone, Debug, PartialEq, Eq)]
pub struct IndexMetadata {
    pub schema_version: u32,
    pub parser_version: String,
    pub generation: Option<u64>,
    pub freshness: Freshness,
    pub note_count: u64,
    pub completed_at_unix_ms: Option<u64>,
    pub observed_at_unix_ms: Option<u64>,
    pub diagnostics: Vec<Diagnostic>,
}

/// One persisted row of a published generation.
#[derive(Clone, Debug, PartialEq, Eq)]
pub struct StoredNote {
    pub path: Vec<u8>,
    pub title: String,
    pub text: String,
    pub fingerprint: String,
    pub outgoing_links: Vec<String>,
    pub generation: u64,
}

pub struct StoredView {
    pub path: Seq<u8>,
    pub title: Seq<char>,
    pub text: Seq<char>,
    pub fingerprint: Seq<char>,
    pub links: Seq<Seq<char>>,
    pub generation: u64,
}

impl View for StoredNote {
    type V = StoredView;

    open spec fn view(&self) -> StoredView {
        StoredView {
            path: self.path@,
            title: self.title@,
            text: self.text@,
            fingerprint: self.fingerprint@,
            links: string_views(self.outgoing_links@),
            generation: self.generation,
        }
    }
}

pub open spec fn stored_views(v: Seq<StoredNote>) -> Seq<StoredView> {
    v.map_values(|n: StoredNote| n@)
}

/// The published rows together with their metadata.
#[derive(Clone, Debug, PartialEq, Eq)]
pub struct QuerySnapshot {
    pub metadata: IndexMetadata,
    pub notes: Vec<StoredNote>,
}

/// Differences between an authoritative projection and the published rows:
/// drift of the sources, and rows that disagree with sources they claim to match.
#[derive(Debug)]
pub struct ProjectionComparison {
    pub source_diagnostics: Vec<Diagnostic>,
    pub integrity_diagnostics: Vec<Diagnostic>,
}

pub type DiagView = (Seq<u8>, Seq<char>);

pub open spec fn path_lt(a: Seq<u8>, b: Seq<u8>) -> bool {
    path_le(a, b) && a != b
}

/// The comparison of the projection from `i` and the rows from `j` on:
/// (source diagnostics, integrity diagnostics), in the order of the merge walk.
pub open spec fn compare_from(src: Seq<NoteView>, st: Seq<StoredView>, g: u64, i: int, j: int) -> (Seq<DiagView>, Seq<DiagView>)
    decreases (src.len() - i) + (st.len() - j),
{
    if i < 0 || j < 0 || i > src.len() || j > st.len() || (i >= src.len() && j >= st.len()) {
        (Seq::empty(), Seq::empty())
    } else if i < src.len() && j < st.len() && path_equal(src[i].path, st[j].path) {
        let s = src[i];
        let p = st[j];
        let path = s.path;
        let (sd, id) = if s.fingerprint == p.fingerprint {
            (
                Seq::<DiagView>::empty(),
                (if s.title != p.title { seq![(path, "stored title does not match authoritative source projection"@)] } else { Seq::empty() })
                + (if s.text != p.text { seq![(path, "stored text does not match authoritative source projection"@)] } else { Seq::empty() })
                + (if s.links != p.links { seq![(path, "stored links do not match authoritative source projection"@)] } else { Seq::empty() }),
            )
        } else {
            (seq![(path, "source changed after published generation"@)], Seq::<DiagView>::empty())
        };
        let id2 = id + (if p.generation != g { seq![(path, "stored row generation does not match published generation"@)] } else { Seq::empty() });
        let rest = compare_from(src, st, g, i + 1, j + 1);
        (sd + rest.0, id2 + rest.1)
    } else if i < src.len() && j < st.len() && path_lt(src[i].path, st[j].path) {
        let rest = compare_from(src, st, g, i + 1, j);
        (seq![(src[i].path, "source added after published generation"@)] + rest.0, rest.1)
    } else if j < st.len() {
        let rest = compare_from(src, st, g, i, j + 1);
        (seq![(st[j].path, "source removed after published generation"@)] + rest.0, rest.1)
    } else {
        let rest = compare_from(src, st, g, i + 1, j);
        (seq![(src[i].path, "source added after published generation"@)] + rest.0, rest.1)
    }
}

fn strings_equal(a: &Vec<String>, b: &Vec<String>) -> (r: bool)
    ensures
        r == (string_views(a@) == string_views(b@)),
{
    if a.len() != b.len() {
        assert(string_views(a@).len() != string_views(b@).len());
        return false;
    }
    let mut i: usize = 0;
    while i < a.len()
        invariant
            a@.len() == b@.len(),
            i <= a@.len(),
            forall|k: int| 0 <= k < i ==> a@[k]@ == b@[k]@,
        decreases a@.len() - i,
    {
        if a[i] != b[i] {
            assert(string_views(a@)[i as int] != string_views(b@)[i as int]);
            return false;
        }
        i = i + 1;
    }
    assert(string_views(a@) =~= string_views(b@));
    true
}

fn diagnostic(path: &Vec<u8>, message: &str) -> (r: Diagnostic)
    ensures
        r@ == (path@, message@),
{
    Diagnostic { path: path.clone(), message: message.to_owned() }
}

/// Compare an authoritative projection with the rows of a published generation.
pub fn compare_source_projection(projection: &MarkdownIndex, published: &[StoredNote], expected_generation: u64) -> (r: ProjectionComparison)
    ensures
        (diag_views(r.source_diagnostics@), diag_views(r.integrity_diagnostics@)) == compare_from(
            projection.notes_spec(),
            stored_views(published@),
            expected_generation,
            0,
            0,
        ),
{
    let notes = projection.notes();
    let ghost src = note_views(notes@);
    let ghost st = stored_views(published@);
    let mut sources: Vec<Diagnostic> = Vec::new();
    let mut integrity: Vec<Diagnostic> = Vec::new();
    let mut i: usize = 0;
    let mut j: usize = 0;
    proof {
        reveal_strlit("stored title does not match authoritative source projection");
        reveal_strlit("stored text does not match authoritative source projection");
        reveal_strlit("stored links do not match authoritative source projection");
        reveal_strlit("source changed after published generation");
        reveal_strlit("stored row generation does not match published generation");
        reveal_strlit("source added after published generation");
        reveal_strlit("source removed after published generation");
    }
    while i < notes.len() || j < published.len()
        invariant
            i <= notes@.len(),
            j <= published@.len(),
            src == note_views(notes@),
            st == stored_views(published@),
            compare_from(src, st, expected_generation, 0, 0) == (
                diag_views(sources@) + compare_from(src, st, expected_generation, i as int, j as int).0,
                diag_views(integrity@) + compare_from(src, st, expected_generation, i as int, j as int).1,
            ),
        decreases (notes@.len() - i) + (published@.len() - j),
    {
        let ghost rest = compare_from(src, st, expected_generation, i as int, j as int);
        let ghost s0 = diag_views(sources@);
        let ghost i0 = diag_views(integrity@);
        if i < notes.len() && j < published.len() && same_path(notes[i].path.as_slice(), published[j].path.as_slice()) {
            let source = &notes[i];
            let stored = &published[j];
            assert(src[i as int] == source@);
            assert(st[j as int] == stored@);
            let ghost next = compare_from(src, st, expected_generation, i + 1, j + 1);
            let ghost mut added_s: Seq<DiagView> = Seq::empty();
            let ghost mut added_i: Seq<DiagView> = Seq::empty();
            if source.fingerprint.0 == stored.fingerprint {
                if source.title != stored.title {
                    integrity.push(diagnostic(&source.path, "stored title does not match authoritative source projection"));
                    proof { added_i = added_i.push((source.path@, "stored title does not match authoritative source projection"@)); }
                }
                if source.text != stored.text {
                    integrity.push(diagnostic(&source.path, "stored text does not match authoritative source projection"));
                    proof { added_i = added_i.push((source.path@, "stored text does not match authoritative source projection"@)); }
                }
                if !strings_equal(&source.outgoing_links, &stored.outgoing_links) {
                    integrity.push(diagnostic(&source.path, "stored links do not match authoritative source projection"));
                    proof { added_i = added_i.push((source.path@, "stored links do not match authoritative source projection"@)); }
                }
            } else {
                sources.push(diagnostic(&source.path, "source changed after published generation"));
                proof { added_s = added_s.push((source.path@, "source changed after published generation"@)); }
            }
            if stored.generation != expected_generation {
                integrity.push(diagnostic(&source.path, "stored row generation does not match published generation"));
                proof { added_i = added_i.push((source.path@, "stored row generation does not match published generation"@)); }
            }
            proof {
                assert(diag_views(sources@) =~= s0 + added_s);
                assert(diag_views(integrity@) =~= i0 + added_i);
                assert(rest.0 =~= added_s + next.0);
                assert(rest.1 =~= added_i + next.1);
                assert(s0 + rest.0 =~= (s0 + added_s) + next.0);
                assert(i0 + rest.1 =~= (i0 + added_i) + next.1);
            }
            i = i + 1;
            j = j + 1;
        } else if i < notes.len() && j < published.len() && path_le_exec(notes[i].path.as_slice(), published[j].path.as_slice())
            && !bytes_equal(notes[i].path.as_slice(), published[j].path.as_slice()) {
            assert(src[i as int] == notes@[i as int]@);
            assert(st[j as int] == published@[j as int]@);
            sources.push(diagnostic(&notes[i].path, "source added after published generation"));
            proof {
                let next = compare_from(src, st, expected_generation, i + 1, j as int);
                assert(diag_views(sources@) =~= s0.push((src[i as int].path, "source added after published generation"@)));
                assert(s0 + rest.0 =~= diag_views(sources@) + next.0);
            }
            i = i + 1;
        } else if j < published.len() {
            assert(st[j as int] == published@[j as int]@);
            proof {
                if i < notes.len() {
                    assert(src[i as int] == notes@[i as int]@);
                }
            }
            sources.push(diagnostic(&published[j].path, "source removed after published generation"));
            proof {
                let next = compare_from(src, st, expected_generation, i as int, j + 1);
                assert(diag_views(sources@) =~= s0.push((st[j as int].path, "source removed after published generation"@)));
                assert(s0 + rest.0 =~= diag_views(sources@) + next.0);
            }
            j = j + 1;
        } else {
            assert(src[i as int] == notes@[i as int]@);
            sources.push(diagnostic(&notes[i].path, "source added after published generation"));
            proof {
                let next = compare_from(src, st, expected_generation, i + 1, j as int);
                assert(diag_views(sources@) =~= s0.push((src[i as int].path, "source added after published generation"@)));
                assert(s0 + rest.0 =~= diag_views(sources@) + next.0);
            }
            i = i + 1;
        }
    }
    proof {
        assert(diag_views(sources@) + Seq::<DiagView>::empty() =~= diag_views(sources@));
        assert(diag_views(integrity@) + Seq::<DiagView>::empty() =~= diag_views(integrity@));
    }
    ProjectionComparison { source_diagnostics: sources, integrity_diagnostics: integrity }
}


pub open spec fn changed_during_observation() -> Seq<char> {
    "source changed during freshness verification; retry observation"@
}

/// The diagnostic recorded when the sources change between observations.
pub fn source_changed_during_observation() -> (r: Diagnostic)
    ensures
        r@ == (seq![46u8], changed_during_observation()),
{
    let mut path: Vec<u8> = Vec::new();
    path.push(46u8);
    assert(path@ =~= seq![46u8]);
    Diagnostic { path, message: "source changed during freshness verification; retry observation".to_owned() }
}

pub open spec fn diags_sorted(v: Seq<DiagView>) -> bool {
    forall|i: int, j: int| 0 <= i < j < v.len() ==> path_le((#[trigger] v[i]).0, (#[trigger] v[j]).0)
}

/// Whether a diagnostic is about a path.
pub open spec fn about_path(p: Seq<u8>) -> spec_fn(DiagView) -> bool {
    |e: DiagView| e.0 == p
}

/// The diagnostics about one path, in their order.
pub open spec fn with_path(v: Seq<DiagView>, p: Seq<u8>) -> Seq<DiagView> {
    v.filter(about_path(p))
}

/// Diagnostics arranged by path as a stable sort arranges them: ordered by path,
/// with the diagnostics of each path in their original order.
pub open spec fn stably_arranged(out: Seq<DiagView>, input: Seq<DiagView>) -> bool {
    &&& diags_sorted(out)
    &&& out.to_multiset() == input.to_multiset()
    &&& forall|p: Seq<u8>| #[trigger] with_path(out, p) == with_path(input, p)
}

proof fn lemma_with_path_push(v: Seq<DiagView>, x: DiagView, p: Seq<u8>)
    ensures
        with_path(v.push(x), p) == if x.0 == p { with_path(v, p).push(x) } else { with_path(v, p) },
{
    reveal(Seq::filter);
    assert(v.push(x).drop_last() =~= v);
}

proof fn lemma_with_path_insert(v: Seq<DiagView>, j: int, x: DiagView, p: Seq<u8>)
    requires
        0 <= j <= v.len(),
        forall|m: int| j <= m < v.len() ==> (#[trigger] v[m]).0 != x.0,
    ensures
        with_path(v.insert(j, x), p) == if x.0 == p { with_path(v, p).push(x) } else { with_path(v, p) },
{
    let pred = about_path(p);
    let head = v.take(j);
    let tail = v.skip(j);
    assert(v.insert(j, x) =~= head.push(x) + tail);
    assert(v =~= head + tail);
    Seq::filter_distributes_over_add(head.push(x), tail, pred);
    Seq::filter_distributes_over_add(head, tail, pred);
    lemma_with_path_push(head, x, p);
    if x.0 == p {
        assert(tail.all(|e: DiagView| !pred(e))) by {
            assert forall|m: int| 0 <= m < tail.len() implies !pred(#[trigger] tail[m]) by {
                assert(tail[m] == v[j + m]);
            }
        }
        tail.lemma_all_neg_filter_empty(pred);
        assert(tail.filter(pred) =~= Seq::<DiagView>::empty());
        assert(with_path(head, p).push(x) + tail.filter(pred) =~= (with_path(head, p) + tail.filter(pred)).push(x));
    }
}

/// The path of a projection diagnostic relative to the vault root (unchanged when
/// it does not lie under the root).
pub open spec fn relative_to_root(path: Seq<u8>, root: Seq<u8>) -> Seq<u8> {
    match strip_prefix(path, root) {
        Some(p) => p,
        None => path,
    }
}

pub open spec fn normalized_views(root: Seq<u8>, errors: Seq<(Seq<u8>, Seq<char>)>) -> Seq<DiagView> {
    errors.map_values(|e: (Seq<u8>, Seq<char>)| (relative_to_root(e.0, root), e.1))
}

/// Projection diagnostics with paths made relative to the vault root, ordered by path.
pub fn normalize_diagnostics(root: &[u8], errors: &Vec<IndexDiagnostic>) -> (r: Vec<Diagnostic>)
    ensures
        stably_arranged(diag_views(r@), normalized_views(root@, diagnostic_views(errors@))),
{
    broadcast use vstd::seq_lib::group_to_multiset_ensures;
    broadcast use vstd::multiset::group_multiset_axioms;

    let ghost all = normalized_views(root@, diagnostic_views(errors@));
    let mut sorted: Vec<Diagnostic> = Vec::new();
    let mut i: usize = 0;
    while i < errors.len()
        invariant
            i <= errors@.len(),
            all == normalized_views(root@, diagnostic_views(errors@)),
            diags_sorted(diag_views(sorted@)),
            diag_views(sorted@).to_multiset() == all.take(i as int).to_multiset(),
            forall|p: Seq<u8>| #[trigger] with_path(diag_views(sorted@), p) == with_path(all.take(i as int), p),
        decreases errors@.len() - i,
    {
        let e = &errors[i];
        let path = match strip_path_prefix(e.path.as_slice(), root) {
            Some(p) => p,
            None => e.path.clone(),
        };
        let d = Diagnostic { path, message: e.message.clone() };
        assert(d@ == all[i as int]);
        let mut j: usize = 0;
        while j < sorted.len() && path_le_exec(sorted[j].path.as_slice(), d.path.as_slice())
            invariant
                j <= sorted@.len(),
                forall|k: int| 0 <= k < j ==> path_le(#[trigger] sorted@[k].path@, d.path@),
            decreases sorted@.len() - j,
        {
            j = j + 1;
        }
        let ghost old_sorted = diag_views(sorted@);
        proof {
            assert forall|k: int| 0 <= k < j implies path_le(#[trigger] old_sorted[k].0, d@.0) by {
                assert(old_sorted[k] == sorted@[k]@);
            }
            assert forall|k: int| j <= k < old_sorted.len() implies path_le(d@.0, #[trigger] old_sorted[k].0) by {
                lemma_path_le_total(d@.0, old_sorted[j as int].0);
                assert(old_sorted[j as int] == sorted@[j as int]@);
                if k > j {
                    lemma_path_le_transitive(d@.0, old_sorted[j as int].0, old_sorted[k].0);
                }
            }
            assert forall|m: int| j <= m < old_sorted.len() implies (#[trigger] old_sorted[m]).0 != d@.0 by {
                assert(old_sorted[j as int] == sorted@[j as int]@);
                if old_sorted[m].0 == d@.0 {
                    if m == j {
                        lemma_path_le_reflexive(d@.0);
                    }
                }
            }
        }
        sorted.insert(j, d);
        proof {
            let ns = diag_views(sorted@);
            assert(ns =~= old_sorted.insert(j as int, d@));
            assert forall|a: int, b: int| 0 <= a < b < ns.len() implies path_le((#[trigger] ns[a]).0, (#[trigger] ns[b]).0) by {
                if a < j && b > j {
                    lemma_path_le_transitive(ns[a].0, d@.0, ns[b].0);
                } else if a > j {
                    assert(ns[a] == old_sorted[a - 1]);
                    assert(ns[b] == old_sorted[b - 1]);
                }
            }
            vstd::seq_lib::to_multiset_insert(old_sorted, j as int, d@);
            assert(all.take(i + 1) =~= all.take(i as int).push(all[i as int]));
            vstd::seq_lib::to_multiset_build(all.take(i as int), all[i as int]);
            assert forall|p: Seq<u8>| #[trigger] with_path(ns, p) == with_path(all.take(i + 1), p) by {
                lemma_with_path_insert(old_sorted, j as int, d@, p);
                lemma_with_path_push(all.take(i as int), all[i as int], p);
            }
        }
        i = i + 1;
    }
    assert(all.take(errors@.len() as int) =~= all);
    sorted
}

pub open spec fn note_eq(a: NoteView, b: NoteView) -> bool {
    &&& path_equal(a.path, b.path)
    &&& a.title == b.title
    &&& a.text == b.text
    &&& a.fingerprint == b.fingerprint
    &&& a.links == b.links
}

/// Two projections hold equal notes, in the same order.
pub open spec fn notes_eq(a: Seq<NoteView>, b: Seq<NoteView>) -> bool {
    a.len() == b.len() && forall|i: int| 0 <= i < a.len() ==> note_eq(#[trigger] a[i], b[i])
}

/// Whether two projections hold equal notes.
pub fn same_notes(a: &MarkdownIndex, b: &MarkdownIndex) -> (r: bool)
    ensures
        r == notes_eq(a.notes_spec(), b.notes_spec()),
{
    let x = a.notes();
    let y = b.notes();
    if x.len() != y.len() {
        return false;
    }
    let mut i: usize = 0;
    while i < x.len()
        invariant
            x@.len() == y@.len(),
            i <= x@.len(),
            note_views(x@) == a.notes_spec(),
            note_views(y@) == b.notes_spec(),
            forall|k: int| 0 <= k < i ==> note_eq(#[trigger] a.notes_spec()[k], b.notes_spec()[k]),
        decreases x@.len() - i,
    {
        let p = &x[i];
        let q = &y[i];
        assert(a.notes_spec()[i as int] == p@);
        assert(b.notes_spec()[i as int] == q@);
        if !(same_path(p.path.as_slice(), q.path.as_slice()) && p.title == q.title && p.text == q.text
            && p.fingerprint.0 == q.fingerprint.0 && strings_equal(&p.outgoing_links, &q.outgoing_links)) {
            return false;
        }
        i = i + 1;
    }
    true
}

/// The diagnostics of two consecutive observations when they do not make one
/// consistent observation: the errors of the first degraded one, or the change
/// marker when both are complete but differ. `None` when they agree.
pub open spec fn observation_spec(
    first_status: IndexStatus,
    first: Seq<NoteView>,
    second_status: IndexStatus,
    second: Seq<NoteView>,
    root: Seq<u8>,
) -> Option<Seq<DiagView>> {
    match first_status {
        IndexStatus::Degraded { errors, .. } => Some(normalized_views(root, diagnostic_views(errors@))),
        _ => match second_status {
            IndexStatus::Degraded { errors, .. } => Some(normalized_views(root, diagnostic_views(errors@))),
            _ => if !notes_eq(first, second) {
                Some(seq![(seq![46u8], changed_during_observation())])
            } else {
                None
            },
        },
    }
}

/// Compare two consecutive observations of the sources (see `observation_spec`);
/// diagnostics are ordered by path.
pub fn observation_verdict(first: &MarkdownIndex, second: &MarkdownIndex, root: &[u8]) -> (r: Option<Vec<Diagnostic>>)
    ensures
        match observation_spec(first.status_spec(), first.notes_spec(), second.status_spec(), second.notes_spec(), root@) {
            None => r is None,
            Some(d) => r matches Some(v) && stably_arranged(diag_views(v@), d),
        },
{
    match first.status() {
        IndexStatus::Degraded { errors, .. } => {
            return Some(normalize_diagnostics(root, errors));
        },
        _ => {},
    }
    match second.status() {
        IndexStatus::Degraded { errors, .. } => {
            return Some(normalize_diagnostics(root, errors));
        },
        _ => {},
    }
    if !same_notes(first, second) {
        let mut v: Vec<Diagnostic> = Vec::new();
        v.push(source_changed_during_observation());
        proof {
            assert(diag_views(v@) =~= seq![(seq![46u8], changed_during_observation())]);
        }
        Some(v)
    } else {
        None
    }
}

/// A certifying observation confirms a projection when it is complete and holds the same notes.
pub fn certification_confirms(projection: &MarkdownIndex, certified: &MarkdownIndex) -> (r: bool)
    ensures
        r == ((certified.status_spec() is Empty || certified.status_spec() is Current) && notes_eq(
            projection.notes_spec(),
            certified.notes_spec(),
        )),
{
    let complete = match certified.status() {
        IndexStatus::Empty => true,
        IndexStatus::Current { .. } => true,
        IndexStatus::Degraded { .. } => false,
    };
    complete && same_notes(projection, certified)
}

/// The freshness of a published generation against a consistent projection:
/// empty without a generation; otherwise degraded by integrity problems, current
/// without drift, stale with the drift.
pub open spec fn published_spec(src: Seq<NoteView>, st: Seq<StoredView>, generation: Option<u64>) -> (Freshness, Seq<DiagView>) {
    match generation {
        None => (Freshness::Empty, Seq::empty()),
        Some(g) => {
            let (sd, id) = compare_from(src, st, g, 0, 0);
            if id.len() > 0 {
                (Freshness::Degraded, id)
            } else if sd.len() == 0 {
                (Freshness::Current, Seq::empty())
            } else {
                (Freshness::Stale, sd)
            }
        },
    }
}

/// Decide the freshness of a published generation (see `published_spec`).
pub fn published_verdict(projection: &MarkdownIndex, published: &[StoredNote], generation: Option<u64>) -> (r: (Freshness, Vec<Diagnostic>))
    ensures
        (r.0, diag_views(r.1@)) == published_spec(projection.notes_spec(), stored_views(published@), generation),
{
    match generation {
        None => {
            let v: Vec<Diagnostic> = Vec::new();
            assert(diag_views(v@) =~= Seq::<DiagView>::empty());
            (Freshness::Empty, v)
        },
        Some(g) => {
            let comparison = compare_source_projection(projection, published, g);
            if comparison.integrity_diagnostics.len() > 0 {
                (Freshness::Degraded, comparison.integrity_diagnostics)
            } else if comparison.source_diagnostics.len() == 0 {
                let v: Vec<Diagnostic> = Vec::new();
                assert(diag_views(v@) =~= Seq::<DiagView>::empty());
                (Freshness::Current, v)
            } else {
                (Freshness::Stale, comparison.source_diagnostics)
            }
        },
    }
}

/// The freshness recorded at a verified search: the observation verdict of the
/// observations around the transaction, otherwise the published verdict against
/// the final observation.
pub fn search_verdict(
    initial: &MarkdownIndex,
    last: &MarkdownIndex,
    root: &[u8],
    persisted: &[StoredNote],
    expected_generation: Option<u64>,
) -> (r: (Freshness, Vec<Diagnostic>))
    ensures
        match observation_spec(initial.status_spec(), initial.notes_spec(), last.status_spec(), last.notes_spec(), root@) {
            Some(d) => r.0 == Freshness::Degraded && stably_arranged(diag_views(r.1@), d),
            None => (r.0, diag_views(r.1@)) == published_spec(last.notes_spec(), stored_views(persisted@), expected_generation),
        },
{
    match observation_verdict(initial, last, root) {
        Some(d) => (Freshness::Degraded, d),
        None => published_verdict(last, persisted, expected_generation),
    }
}

pub open spec fn stored_matches(n: StoredView, q: Seq<char>) -> bool {
    ||| seq_contains(lowercase_of(lossy_text_of(n.path)), q)
    ||| seq_contains(lowercase_of(n.title), q)
    ||| seq_contains(lowercase_of(n.text), q)
    ||| exists|i: int| 0 <= i < n.links.len() && seq_contains(lowercase_of(#[trigger] n.links[i]), q)
}

pub open spec fn matching_stored(notes: Seq<StoredView>, q: Seq<char>) -> Seq<StoredView>
    decreases notes.len(),
{
    if notes.len() == 0 {
        Seq::empty()
    } else {
        let prev = matching_stored(notes.drop_last(), q);
        if stored_matches(notes.last(), q) {
            prev.push(notes.last())
        } else {
            prev
        }
    }
}

/// Law: a verified search returns exactly the stored rows whose lowercased path
/// (read as text), title, text or one of whose lowercased links contains the
/// lowercased query: each such row is returned, and no other.
pub proof fn lemma_stored_search_matches_exactly(notes: Seq<StoredView>, q: Seq<char>, n: StoredView)
    ensures
        matching_stored(notes, q).contains(n) <==> notes.contains(n) && (
            seq_contains(lowercase_of(lossy_text_of(n.path)), q)
            || seq_contains(lowercase_of(n.title), q)
            || seq_contains(lowercase_of(n.text), q)
            || exists|i: int| 0 <= i < n.links.len() && seq_contains(lowercase_of(#[trigger] n.links[i]), q)),
    decreases notes.len(),
{
    let h = stored_matches(n, q);
    assert(h == (seq_contains(lowercase_of(lossy_text_of(n.path)), q)
        || seq_contains(lowercase_of(n.title), q)
        || seq_contains(lowercase_of(n.text), q)
        || exists|i: int| 0 <= i < n.links.len() && seq_contains(lowercase_of(#[trigger] n.links[i]), q)));
    if notes.len() > 0 {
        let init = notes.drop_last();
        let l = notes.last();
        lemma_stored_search_matches_exactly(init, q, n);
        let prev = matching_stored(init, q);
        assert(notes.contains(n) <==> init.contains(n) || l == n) by {
            if notes.contains(n) && l != n {
                let k = choose|k: int| 0 <= k < notes.len() && notes[k] == n;
                assert(k < notes.len() - 1);
                assert(init[k] == n);
            }
            if init.contains(n) {
                let k = choose|k: int| 0 <= k < init.len() && init[k] == n;
                assert(notes[k] == n);
            }
            if l == n {
                assert(notes[notes.len() - 1] == n);
            }
        }
        if stored_matches(l, q) {
            let m = prev.push(l);
            assert(m.contains(n) <==> prev.contains(n) || l == n) by {
                if m.contains(n) && l != n {
                    let k = choose|k: int| 0 <= k < m.len() && m[k] == n;
                    assert(k < prev.len());
                    assert(prev[k] == n);
                }
                if prev.contains(n) {
                    let k = choose|k: int| 0 <= k < prev.len() && prev[k] == n;
                    assert(m[k] == n);
                }
                if l == n {
                    assert(m[prev.len() as int] == n);
                }
            }
        }
    }
}

/// Whether a stored row matches a lowercased query.
pub fn note_matches_stored(note: &StoredNote, q: &[char]) -> (r: bool)
    ensures
        r == stored_matches(note@, q@),
{
    let path_text = lossy_text(note.path.as_slice());
    if lower_contains(path_text.as_str(), q) {
        return true;
    }
    if lower_contains(note.title.as_str(), q) {
        return true;
    }
    if lower_contains(note.text.as_str(), q) {
        return true;
    }
    let mut i: usize = 0;
    while i < note.outgoing_links.len()
        invariant
            i <= note.outgoing_links@.len(),
            forall|k: int| 0 <= k < i ==> !seq_contains(lowercase_of(#[trigger] note@.links[k]), q@),
        decreases note.outgoing_links@.len() - i,
    {
        assert(note@.links[i as int] == note.outgoing_links@[i as int]@);
        if lower_contains(note.outgoing_links[i].as_str(), q) {
            return true;
        }
        i = i + 1;
    }
    false
}

/// The stored rows whose path, title, text or links contain the query, ignoring case, in order.
pub fn filter_stored(notes: Vec<StoredNote>, query: &str) -> (r: Vec<StoredNote>)
    ensures
        stored_views(r@) == matching_stored(stored_views(notes@), lowercase_of(query@)),
{
    let lower = to_lowercase(query);
    let q = chars_of(lower.as_str());
    let ghost all = stored_views(notes@);
    let mut out: Vec<StoredNote> = Vec::new();
    let mut rest = notes;
    let mut i: usize = 0;
    let n = rest.len();
    while rest.len() > 0
        invariant
            i <= n,
            n == all.len(),
            stored_views(rest@) == all.skip(i as int),
            q@ == lowercase_of(query@),
            stored_views(out@) == matching_stored(all.take(i as int), q@),
        decreases rest@.len(),
    {
        let ghost before = rest@;
        let note = rest.remove(0);
        proof {
            assert(note@ == stored_views(before)[0]);
            assert(stored_views(rest@) =~= stored_views(before).drop_first());
            assert(all.take(i + 1).drop_last() =~= all.take(i as int));
            assert(all.take(i + 1).last() == note@);
        }
        let ghost prev = stored_views(out@);
        if note_matches_stored(&note, q.as_slice()) {
            out.push(note);
            assert(stored_views(out@) =~= prev.push(stored_views(before)[0]));
        }
        i = i + 1;
    }
    assert(all.take(n as int) =~= all);
    out
}

/// Searching the published snapshot requires it to be current.
pub fn search_snapshot(metadata: IndexMetadata, notes: Vec<StoredNote>, query: &str) -> (r: Result<QuerySnapshot, StoreError>)
    ensures
        metadata.freshness != Freshness::Current ==> r == Err::<QuerySnapshot, StoreError>(
            StoreError::NotCurrent { freshness: metadata.freshness },
        ),
        metadata.freshness == Freshness::Current ==> (r matches Ok(snap) && snap.metadata == metadata
            && stored_views(snap.notes@) == matching_stored(stored_views(notes@), lowercase_of(query@))),
{
    if metadata.freshness != Freshness::Current {
        return Err(StoreError::NotCurrent { freshness: metadata.freshness });
    }
    let found = filter_stored(notes, query);
    Ok(QuerySnapshot { metadata, notes: found })
}


/// What `u64::try_from` reports for a negative `i64`.
pub uninterp spec fn negative_to_u64_text(v: int) -> Seq<char>;

/// `u64::try_from(i64)`: the value when it is not negative, otherwise the error's display text.
#[verifier::external_body]
pub(crate) fn u64_from_i64(v: i64) -> (r: Result<u64, String>)
    ensures
        r is Ok <==> v >= 0,
        r matches Ok(x) ==> x == v,
        r matches Err(m) ==> m@ == negative_to_u64_text(v as int),
{
    match u64::try_from(v) {
        Ok(x) => Ok(x),
        Err(e) => Err(e.to_string()),
    }
}

/// A stored signed integer read back as an unsigned one.
pub fn metadata_u64(v: i64) -> (r: Result<u64, StoreError>)
    ensures
        v >= 0 ==> r == Ok::<u64, StoreError>(v as u64),
        v < 0 ==> (r matches Err(StoreError::InvalidMetadata(m)) && m@ == negative_to_u64_text(v as int)),
{
    match u64_from_i64(v) {
        Ok(x) => Ok(x),
        Err(m) => Err(StoreError::InvalidMetadata(m)),
    }
}

/// An optional stored signed integer read back as an unsigned one.
pub fn metadata_opt_u64(v: Option<i64>) -> (r: Result<Option<u64>, StoreError>)
    ensures
        match v {
            None => r == Ok::<Option<u64>, StoreError>(None),
            Some(x) => if x >= 0 {
                r == Ok::<Option<u64>, StoreError>(Some(x as u64))
            } else {
                r matches Err(StoreError::InvalidMetadata(m)) && m@ == negative_to_u64_text(x as int)
            },
        },
{
    match v {
        None => Ok(None),
        Some(x) => match metadata_u64(x) {
            Ok(y) => Ok(Some(y)),
            Err(e) => Err(e),
        },
    }
}

/// The generation a rebuild publishes after the stored one (none counts as 0):
/// one more, as long as it still fits a signed 64-bit SQLite integer.
pub fn next_publication_generation(prior: Option<i64>) -> (r: Result<u64, StoreError>)
    ensures
        match prior {
            Some(p) => if p < 0 {
                r matches Err(StoreError::InvalidMetadata(m)) && m@ == negative_to_u64_text(p as int)
            } else if p == i64::MAX {
                r == Err::<u64, StoreError>(StoreError::GenerationExhausted)
            } else {
                r == Ok::<u64, StoreError>((p + 1) as u64)
            },
            None => r == Ok::<u64, StoreError>(1),
        },
{
    let prior_generation = match metadata_opt_u64(prior) {
        Ok(Some(g)) => g,
        Ok(None) => 0,
        Err(e) => {
            return Err(e);
        },
    };
    if prior_generation >= 9223372036854775807u64 {
        return Err(StoreError::GenerationExhausted);
    }
    Ok(prior_generation + 1)
}

pub const PARSER_VERSION: &'static str = "markdown-index-v1";

/// Checks of the persisted singleton metadata row.
pub fn check_metadata(schema_version: u32, parser_version: &str, generation: Option<i64>, freshness: &str) -> (r: Result<(), StoreError>)
    ensures
        schema_version != SCHEMA_VERSION ==> r == Err::<(), StoreError>(StoreError::UnsupportedSchema { found: schema_version, expected: SCHEMA_VERSION }),
        schema_version == SCHEMA_VERSION && parser_version@ != PARSER_VERSION@ ==> (r matches Err(StoreError::UnsupportedParser { found, expected })
            && found@ == parser_version@ && expected@ == PARSER_VERSION@),
        schema_version == SCHEMA_VERSION && parser_version@ == PARSER_VERSION@ ==> match freshness_of_text(freshness@) {
            None => r matches Err(StoreError::InvalidMetadata(m)) && m@ == "unknown freshness value "@ + debug_text_of(freshness@),
            Some(f) => if f == Freshness::Current && generation is None {
                r matches Err(StoreError::InvalidMetadata(m)) && m@ == "current index metadata is missing its generation"@
            } else {
                r == Ok::<(), StoreError>(())
            },
        },
{
    if schema_version != SCHEMA_VERSION {
        return Err(StoreError::UnsupportedSchema { found: schema_version, expected: SCHEMA_VERSION });
    }
    let pc = chars_of(parser_version);
    if !chars_are(pc.as_slice(), PARSER_VERSION) {
        return Err(StoreError::UnsupportedParser { found: parser_version.to_owned(), expected: PARSER_VERSION.to_owned() });
    }
    let f = match Freshness::parse(freshness) {
        Ok(f) => f,
        Err(e) => {
            return Err(e);
        },
    };
    if f == Freshness::Current && generation.is_none() {
        return Err(StoreError::InvalidMetadata("current index metadata is missing its generation".to_owned()));
    }
    Ok(())
}

/// What opening a database does for the version marker it finds.
#[derive(Clone, Copy, Debug, PartialEq, Eq, Structural)]
pub enum SchemaAction {
    /// Create the schema in a new database.
    Initialize,
    /// Reset the recognized legacy cache and create the schema.
    ResetLegacy,
    /// The schema is already the current one.
    Ready,
}

/// The action for a version marker: an unversioned database is initialized only
/// when it holds no tables; the legacy version is reset; other versions are refused.
pub fn schema_action(found: u32, has_user_schema: bool) -> (r: Result<SchemaAction, StoreError>)
    ensures
        found == 0 && has_user_schema ==> r == Err::<SchemaAction, StoreError>(StoreError::IncompleteSchema),
        found == 0 && !has_user_schema ==> r == Ok::<SchemaAction, StoreError>(SchemaAction::Initialize),
        found == LEGACY_SCHEMA_VERSION ==> r == Ok::<SchemaAction, StoreError>(SchemaAction::ResetLegacy),
        found == SCHEMA_VERSION ==> r == Ok::<SchemaAction, StoreError>(SchemaAction::Ready),
        found != 0 && found != LEGACY_SCHEMA_VERSION && found != SCHEMA_VERSION ==> r == Err::<SchemaAction, StoreError>(
            StoreError::UnsupportedSchema { found, expected: SCHEMA_VERSION },
        ),
{
    if found == 0 {
        if has_user_schema {
            Err(StoreError::IncompleteSchema)
        } else {
            Ok(SchemaAction::Initialize)
        }
    } else if found == LEGACY_SCHEMA_VERSION {
        Ok(SchemaAction::ResetLegacy)
    } else if found != SCHEMA_VERSION {
        Err(StoreError::UnsupportedSchema { found, expected: SCHEMA_VERSION })
    } else {
        Ok(SchemaAction::Ready)
    }
}

/// The legacy cache is recognized only by exactly its three tables and its own metadata.
pub fn check_legacy_cache(tables: Option<&str>, schema_version: u32, parser_version: &str) -> (r: Result<(), StoreError>)
    ensures
        !(tables matches Some(t) && t@ == "diagnostics,metadata,notes"@) ==> (r matches Err(StoreError::InvalidMetadata(m))
            && m@ == "schema version 1 marker does not describe the recognized legacy cache"@),
        (tables matches Some(t) && t@ == "diagnostics,metadata,notes"@) && (schema_version != LEGACY_SCHEMA_VERSION || parser_version@ != PARSER_VERSION@)
            ==> (r matches Err(StoreError::InvalidMetadata(m)) && m@ == "legacy metadata version does not match its schema marker"@),
        (tables matches Some(t) && t@ == "diagnostics,metadata,notes"@) && schema_version == LEGACY_SCHEMA_VERSION && parser_version@ == PARSER_VERSION@
            ==> r == Ok::<(), StoreError>(()),
{
    let recognized = match tables {
        Some(t) => {
            let tc = chars_of(t);
            chars_are(tc.as_slice(), "diagnostics,metadata,notes")
        },
        None => false,
    };
    if !recognized {
        return Err(StoreError::InvalidMetadata("schema version 1 marker does not describe the recognized legacy cache".to_owned()));
    }
    let pc = chars_of(parser_version);
    if schema_version != LEGACY_SCHEMA_VERSION || !chars_are(pc.as_slice(), PARSER_VERSION) {
        return Err(StoreError::InvalidMetadata("legacy metadata version does not match its schema marker".to_owned()));
    }
    Ok(())
}

/// The disposable database location for a vault: `<fingerprint of the root>.sqlite3`
/// inside the index directory.
pub fn database_path(index_directory: &[u8], vault_root: &[u8]) -> (r: Vec<u8>)
    ensures
        r@ == crate::paths::join(index_directory@, vstd::utf8::encode_utf8(crate::fingerprint::fingerprint_text(vault_root@)) + vstd::utf8::encode_utf8(".sqlite3"@)),
{
    let identity = crate::fingerprint::SourceFingerprint::of(vault_root);
    let mut name = identity.0.clone();
    name.append(".sqlite3");
    let bytes = name.as_str().as_bytes();
    proof {
        crate::text::lemma_encode_utf8_concat(identity@, ".sqlite3"@);
    }
    crate::paths::join_path(index_directory, bytes)
}


/// The `Debug` name of a freshness.
pub open spec fn freshness_debug(f: Freshness) -> Seq<char> {
    match f {
        Freshness::Empty => "Empty"@,
        Freshness::Current => "Current"@,
        Freshness::Stale => "Stale"@,
        Freshness::Degraded => "Degraded"@,
    }
}

/// The `Debug` text of an optional generation.
pub open spec fn generation_debug(g: Option<u64>) -> Seq<char> {
    match g {
        Some(n) => "Some("@ + crate::text::decimal_text(n as nat) + ")"@,
        None => "None"@,
    }
}

/// The display text of a store error.
pub open spec fn store_error_text(e: StoreError) -> Seq<char> {
    match e {
        StoreError::UnsupportedSchema { found, expected } => "unsupported index schema version "@
            + crate::text::decimal_text(found as nat) + "; expected "@ + crate::text::decimal_text(expected as nat),
        StoreError::UnsupportedParser { found, expected } => "unsupported index parser version "@
            + debug_text_of(found@) + "; expected "@ + debug_text_of(expected@),
        StoreError::InvalidMetadata(m) => "invalid index metadata: "@ + m@,
        StoreError::IncompleteSchema => "index schema initialization is incomplete"@,
        StoreError::GenerationExhausted => "index generation is exhausted"@,
        StoreError::NotCurrent { freshness } => "current index required; freshness is "@ + freshness_debug(freshness),
        StoreError::PublicationAborted(m) => "index publication aborted: "@ + m@,
        StoreError::FreshnessGenerationChanged { expected_generation } =>
            "freshness observation lost its published generation (expected "@ + generation_debug(expected_generation) + ")"@,
        StoreError::UnsafeDatabasePath { path, reason } => "unsafe disposable index path "@ + lossy_text_of(path@)
            + ": "@ + reason@,
    }
}

pub(crate) fn concat2(a: &str, b: &str) -> (r: String)
    ensures
        r@ == a@ + b@,
{
    let mut m = a.to_owned();
    m.append(b);
    m
}

impl StoreError {
    /// The display text of the error.
    pub fn message(&self) -> (r: String)
        ensures
            r@ == store_error_text(*self),
    {
        match self {
            StoreError::UnsupportedSchema { found, expected } => {
                let a = crate::text::decimal(*found as u64);
                let mut m = concat2("unsupported index schema version ", a.as_str());
                m.append("; expected ");
                let b = crate::text::decimal(*expected as u64);
                m.append(b.as_str());
                m
            },
            StoreError::UnsupportedParser { found, expected } => {
                let a = debug_text(found.as_str());
                let mut m = concat2("unsupported index parser version ", a.as_str());
                m.append("; expected ");
                let b = debug_text(expected.as_str());
                m.append(b.as_str());
                m
            },
            StoreError::InvalidMetadata(x) => concat2("invalid index metadata: ", x.as_str()),
            StoreError::IncompleteSchema => "index schema initialization is incomplete".to_owned(),
            StoreError::GenerationExhausted => "index generation is exhausted".to_owned(),
            StoreError::NotCurrent { freshness } => {
                let name = match freshness {
                    Freshness::Empty => "Empty",
                    Freshness::Current => "Current",
                    Freshness::Stale => "Stale",
                    Freshness::Degraded => "Degraded",
                };
                concat2("current index required; freshness is ", name)
            },
            StoreError::PublicationAborted(x) => concat2("index publication aborted: ", x.as_str()),
            StoreError::FreshnessGenerationChanged { expected_generation } => {
                let mut m = "freshness observation lost its published generation (expected ".to_owned();
                match expected_generation {
                    Some(n) => {
                        m.append("Some(");
                        let d = crate::text::decimal(*n);
                        m.append(d.as_str());
                        m.append(")");
                    },
                    None => {
                        m.append("None");
                    },
                }
                m.append(")");
                m
            },
            StoreError::UnsafeDatabasePath { path, reason } => {
                let t = lossy_text(path.as_slice());
                let mut m = concat2("unsafe disposable index path ", t.as_str());
                m.append(": ");
                m.append(reason.as_str());
                m
            },
        }
    }
}

/// The ordinary names among the components of a path, in order.
pub open spec fn normal_names(cs: Seq<Seq<u8>>) -> Seq<Seq<u8>>
    decreases cs.len(),
{
    if cs.len() == 0 {
        Seq::empty()
    } else if crate::paths::is_normal_component(cs.last()) {
        normal_names(cs.drop_last()).push(cs.last())
    } else {
        normal_names(cs.drop_last())
    }
}

pub open spec fn unsafe_database_path(path: Seq<u8>, reason: Seq<char>, r: Result<(Vec<Vec<u8>>, Vec<u8>), StoreError>) -> bool {
    r matches Err(StoreError::UnsafeDatabasePath { path: p, reason: m }) && p@ == path && m@ == reason
}

/// What opening one component of the database parent, below the previous one and
/// without following links, gave.
pub enum ComponentOpened {
    Opened,
    /// The component does not exist.
    Missing,
    /// It could not be opened as a directory beneath the previous one; the error's display text.
    Refused(String),
}

/// What to do with one component of the database parent.
pub enum ComponentAction {
    /// Continue below the opened directory.
    Descend,
    /// Create the directory, owner-only, and open it.
    CreateThenOpen,
    /// Stop with this error.
    Fail(StoreError),
}

/// The parent of a database is opened one component at a time: an opened
/// component is descended into, a missing one is created, and any other failure
/// (a link, a file, a denied directory) refuses the database path.
pub fn component_step(path: &[u8], opened: ComponentOpened) -> (r: ComponentAction)
    ensures
        match opened {
            ComponentOpened::Opened => r is Descend,
            ComponentOpened::Missing => r is CreateThenOpen,
            ComponentOpened::Refused(m) => match r {
                ComponentAction::Fail(StoreError::UnsafeDatabasePath { path: p, reason }) => p@ == path@
                    && reason@ == "database parent is not confined: "@ + m@,
                _ => false,
            },
        },
{
    match opened {
        ComponentOpened::Opened => ComponentAction::Descend,
        ComponentOpened::Missing => ComponentAction::CreateThenOpen,
        ComponentOpened::Refused(m) => ComponentAction::Fail(StoreError::UnsafeDatabasePath {
            path: vstd::slice::slice_to_vec(path),
            reason: concat2("database parent is not confined: ", m.as_str()),
        }),
    }
}

/// The directory that holds a database must belong to the current user.
pub fn check_directory_owner(parent: &[u8], owner_uid: u32, current_uid: u32) -> (r: Result<(), StoreError>)
    ensures
        r is Ok <==> owner_uid == current_uid,
        r matches Err(e) ==> (e matches StoreError::UnsafeDatabasePath { path: p, reason } && p@ == parent@
            && reason@ == "database directory is not owned by the current user"@),
{
    if owner_uid != current_uid {
        return Err(StoreError::UnsafeDatabasePath {
            path: vstd::slice::slice_to_vec(parent),
            reason: "database directory is not owned by the current user".to_owned(),
        });
    }
    Ok(())
}

/// Where a database file may be opened: an absolute path with a file name. The
/// result is the ordinary names of its parent, opened one by one below `/`
/// without following links, and the file name.
pub fn database_location(path: &[u8]) -> (r: Result<(Vec<Vec<u8>>, Vec<u8>), StoreError>)
    ensures
        !crate::paths::is_absolute(path@) ==> unsafe_database_path(path@, "database path must be absolute"@, r),
        crate::paths::is_absolute(path@) && crate::paths::file_name(path@) is None ==>
            unsafe_database_path(path@, "database path has no file name"@, r),
        crate::paths::is_absolute(path@) && crate::paths::file_name(path@) is Some ==> (r matches Ok(loc)
            && crate::paths::views(loc.0@) == normal_names(crate::paths::components(path@).drop_last())
            && Some(loc.1@) == crate::paths::file_name(path@)),
{
    if !(path.len() > 0 && path[0] == 47u8) {
        return Err(StoreError::UnsafeDatabasePath {
            path: vstd::slice::slice_to_vec(path),
            reason: "database path must be absolute".to_owned(),
        });
    }
    let name = match crate::paths::path_file_name(path) {
        Some(n) => n,
        None => {
            return Err(StoreError::UnsafeDatabasePath {
                path: vstd::slice::slice_to_vec(path),
                reason: "database path has no file name".to_owned(),
            });
        },
    };
    let comps = crate::paths::path_components(path);
    let ghost cs = crate::paths::components(path@);
    assert(crate::paths::views(comps@) == cs);
    let ghost parent = cs.drop_last();
    let mut names: Vec<Vec<u8>> = Vec::new();
    let last: usize = if comps.len() > 0 { comps.len() - 1 } else { 0 };
    let mut i: usize = 0;
    while i < last
        invariant
            last == (if comps@.len() > 0 { comps@.len() - 1 } else { 0 }),
            i <= last,
            cs == crate::paths::views(comps@),
            parent == cs.drop_last(),
            crate::paths::views(names@) == normal_names(parent.take(i as int)),
        decreases comps@.len() - i,
    {
        let ghost t = parent.take(i + 1);
        assert(t.drop_last() =~= parent.take(i as int));
        assert(t.last() == comps@[i as int]@);
        if crate::vault::is_normal_exec(comps[i].as_slice()) {
            let ghost prev = names@;
            names.push(vstd::slice::slice_to_vec(comps[i].as_slice()));
            assert(crate::paths::views(names@) =~= crate::paths::views(prev).push(comps@[i as int]@));
        }
        i = i + 1;
    }
    proof {
        if comps@.len() > 0 {
            assert(parent.take(i as int) =~= parent);
        } else {
            assert(parent.take(i as int) =~= parent);
        }
    }
    Ok((names, name))
}

/// The database file and the files SQLite keeps beside it.
pub open spec fn sqlite_family(name: Seq<u8>) -> Seq<Seq<u8>> {
    seq![
        name,
        name + crate::text::ascii_of("-journal"@),
        name + crate::text::ascii_of("-wal"@),
        name + crate::text::ascii_of("-shm"@),
    ]
}

pub(crate) fn concat_bytes(a: &[u8], b: &[u8]) -> (r: Vec<u8>)
    ensures
        r@ == a@ + b@,
{
    let mut out = vstd::slice::slice_to_vec(a);
    let mut i: usize = 0;
    let ghost start = out@;
    while i < b.len()
        invariant
            i <= b@.len(),
            out@ == start + b@.take(i as int),
        decreases b@.len() - i,
    {
        out.push(b[i]);
        assert(b@.take(i + 1) =~= b@.take(i as int).push(b@[i as int]));
        i = i + 1;
    }
    assert(b@.take(b@.len() as int) =~= b@);
    out
}

/// The names of a database file and its SQLite sidecars.
pub fn sqlite_family_names(name: &[u8]) -> (r: Vec<Vec<u8>>)
    ensures
        crate::paths::views(r@) == sqlite_family(name@),
{
    proof {
        reveal_strlit("-journal");
        reveal_strlit("-wal");
        reveal_strlit("-shm");
    }
    let journal = crate::text::ascii_bytes("-journal");
    let wal = crate::text::ascii_bytes("-wal");
    let shm = crate::text::ascii_bytes("-shm");
    let mut out: Vec<Vec<u8>> = Vec::new();
    out.push(vstd::slice::slice_to_vec(name));
    out.push(concat_bytes(name, journal.as_slice()));
    out.push(concat_bytes(name, wal.as_slice()));
    out.push(concat_bytes(name, shm.as_slice()));
    assert(crate::paths::views(out@) =~= sqlite_family(name@));
    out
}

/// A recovery candidate refuses to replace the index unless it reached current freshness.
pub fn check_candidate_freshness(freshness: Freshness) -> (r: Result<(), StoreError>)
    ensures
        r is Ok <==> freshness == Freshness::Current,
        r matches Err(e) ==> (e matches StoreError::PublicationAborted(m)
            && m@ == "recovery candidate did not reach current freshness"@),
{
    if freshness != Freshness::Current {
        return Err(StoreError::PublicationAborted("recovery candidate did not reach current freshness".to_owned()));
    }
    Ok(())
}

/// An integrity check passes only when SQLite answers `ok`.
pub fn check_integrity(result: &str, final_check: bool) -> (r: Result<(), StoreError>)
    ensures
        r is Ok <==> result@ == "ok"@,
        r matches Err(e) ==> (e matches StoreError::InvalidMetadata(m) && m@ == (if final_check {
            "recovery candidate failed final integrity check: "@
        } else {
            "recovery candidate failed integrity check: "@
        }) + result@),
{
    if crate::text::same_text(result, "ok") {
        return Ok(());
    }
    let prefix = if final_check {
        "recovery candidate failed final integrity check: "
    } else {
        "recovery candidate failed integrity check: "
    };
    Err(StoreError::InvalidMetadata(concat2(prefix, result)))
}

/// The failure of a candidate that lost freshness before it could replace the index.
pub fn candidate_lost_freshness(error: &StoreError) -> (r: StoreError)
    ensures
        r matches StoreError::PublicationAborted(m)
            && m@ == "recovery candidate lost freshness before replacement: "@ + store_error_text(*error),
{
    let t = error.message();
    StoreError::PublicationAborted(concat2("recovery candidate lost freshness before replacement: ", t.as_str()))
}

/// The replaced index must be current and intact.
pub fn check_replacement(freshness: Freshness, integrity: &str) -> (r: Result<(), StoreError>)
    ensures
        r is Ok <==> freshness == Freshness::Current && integrity@ == "ok"@,
        r matches Err(e) ==> (e matches StoreError::InvalidMetadata(m)
            && m@ == "replacement index failed post-recovery verification"@),
{
    if freshness != Freshness::Current || !crate::text::same_text(integrity, "ok") {
        return Err(StoreError::InvalidMetadata("replacement index failed post-recovery verification".to_owned()));
    }
    Ok(())
}

/// The name of a recovery candidate beside the database: the database name,
/// `.candidate-`, the process id, `-` and the time in milliseconds.
pub fn candidate_name(name: &[u8], pid: u32, millis: u64) -> (r: Vec<u8>)
    ensures
        r@ == name@ + vstd::utf8::encode_utf8(".candidate-"@ + crate::text::decimal_text(pid as nat) + "-"@
            + crate::text::decimal_text(millis as nat)),
{
    let mut suffix = ".candidate-".to_owned();
    let a = crate::text::decimal(pid as u64);
    suffix.append(a.as_str());
    suffix.append("-");
    let b = crate::text::decimal(millis);
    suffix.append(b.as_str());
    concat_bytes(name, suffix.as_str().as_bytes())
}


/// The rows a generation publishes for a projection: one per note, in order,
/// stamped with the generation.
pub open spec fn publish_rows(src: Seq<NoteView>, g: u64) -> Seq<StoredView> {
    src.map_values(|n: NoteView| StoredView {
        path: n.path,
        title: n.title,
        text: n.text,
        fingerprint: n.fingerprint,
        links: n.links,
        generation: g,
    })
}

proof fn lemma_compare_published_from(src: Seq<NoteView>, g: u64, i: int)
    requires
        0 <= i <= src.len(),
    ensures
        compare_from(src, publish_rows(src, g), g, i, i) == (Seq::<DiagView>::empty(), Seq::<DiagView>::empty()),
    decreases src.len() - i,
{
    let st = publish_rows(src, g);
    if i < src.len() {
        lemma_compare_published_from(src, g, i + 1);
        assert(st[i] == (StoredView {
            path: src[i].path,
            title: src[i].title,
            text: src[i].text,
            fingerprint: src[i].fingerprint,
            links: src[i].links,
            generation: g,
        }));
        assert(path_equal(src[i].path, st[i].path));
        let e = Seq::<DiagView>::empty();
        assert(e + e + e =~= e);
        assert(e + e =~= e);
    }
}

/// A published row agrees with a projected note: same path, fingerprint, title,
/// text and links, stamped with the expected generation.
pub open spec fn row_agrees(s: NoteView, p: StoredView, g: u64) -> bool {
    &&& path_equal(s.path, p.path)
    &&& s.fingerprint == p.fingerprint
    &&& s.title == p.title
    &&& s.text == p.text
    &&& s.links == p.links
    &&& p.generation == g
}

/// The published rows agree with the projection one for one, in order.
pub open spec fn rows_agree(src: Seq<NoteView>, st: Seq<StoredView>, g: u64) -> bool {
    src.len() == st.len() && forall|k: int| 0 <= k < src.len() ==> row_agrees(#[trigger] src[k], st[k], g)
}

proof fn lemma_compare_empty_from(src: Seq<NoteView>, st: Seq<StoredView>, g: u64, i: int, j: int)
    requires
        0 <= i <= src.len(),
        0 <= j <= st.len(),
    ensures
        compare_from(src, st, g, i, j) == (Seq::<DiagView>::empty(), Seq::<DiagView>::empty()) <==> (
            src.len() - i == st.len() - j && forall|k: int|
                0 <= k < src.len() - i ==> row_agrees(#[trigger] src[i + k], st[j + k], g)),
    decreases (src.len() - i) + (st.len() - j),
{
    let e = Seq::<DiagView>::empty();
    let r = compare_from(src, st, g, i, j);
    if i >= src.len() && j >= st.len() {
    } else if i < src.len() && j < st.len() && path_equal(src[i].path, st[j].path) {
        lemma_compare_empty_from(src, st, g, i + 1, j + 1);
        let rest = compare_from(src, st, g, i + 1, j + 1);
        let agrees = src.len() - i == st.len() - j && forall|k: int|
            0 <= k < src.len() - i ==> row_agrees(#[trigger] src[i + k], st[j + k], g);
        let agrees_next = src.len() - (i + 1) == st.len() - (j + 1) && forall|k: int|
            0 <= k < src.len() - (i + 1) ==> row_agrees(#[trigger] src[(i + 1) + k], st[(j + 1) + k], g);
        if agrees {
            assert(row_agrees(src[i + 0], st[j + 0], g));
            assert forall|k: int| 0 <= k < src.len() - (i + 1) implies row_agrees(
                #[trigger] src[(i + 1) + k],
                st[(j + 1) + k],
                g,
            ) by {
                assert(row_agrees(src[i + (k + 1)], st[j + (k + 1)], g));
                assert(i + (k + 1) == (i + 1) + k);
            }
            assert(r.0 =~= e);
            assert(r.1 =~= e);
        }
        if r == (e, e) {
            assert(r.0.len() == 0);
            assert(r.1.len() == 0);
            assert(rest.0 =~= e);
            assert(rest.1 =~= e);
            assert(row_agrees(src[i], st[j], g));
            assert forall|k: int| 0 <= k < src.len() - i implies row_agrees(#[trigger] src[i + k], st[j + k], g) by {
                if k > 0 {
                    assert(row_agrees(src[(i + 1) + (k - 1)], st[(j + 1) + (k - 1)], g));
                    assert((i + 1) + (k - 1) == i + k);
                }
            }
        }
    } else {
        if i < src.len() && j < st.len() && path_lt(src[i].path, st[j].path) {
            assert(r.0.len() > 0);
        } else if j < st.len() {
            assert(r.0.len() > 0);
        } else {
            assert(r.0.len() > 0);
        }
        if src.len() - i == st.len() - j {
            assert(i < src.len() && j < st.len());
            assert(!row_agrees(src[i + 0], st[j + 0], g));
        }
    }
}

/// Law: the comparison reports no diagnostic at all exactly when the published
/// rows agree with the projection one for one (same paths in the same order, same
/// fingerprint, title, text and links, and the expected generation).
pub proof fn lemma_no_diagnostics_iff_rows_agree(src: Seq<NoteView>, st: Seq<StoredView>, g: u64)
    ensures
        compare_from(src, st, g, 0, 0) == (Seq::<DiagView>::empty(), Seq::<DiagView>::empty()) <==> rows_agree(src, st, g),
{
    lemma_compare_empty_from(src, st, g, 0, 0);
    if rows_agree(src, st, g) {
        assert forall|k: int| 0 <= k < src.len() - 0 implies row_agrees(#[trigger] src[0 + k], st[0 + k], g) by {
            assert(row_agrees(src[k], st[k], g));
        }
    }
    if compare_from(src, st, g, 0, 0) == (Seq::<DiagView>::empty(), Seq::<DiagView>::empty()) {
        assert forall|k: int| 0 <= k < src.len() implies row_agrees(#[trigger] src[k], st[k], g) by {
            assert(row_agrees(src[0 + k], st[0 + k], g));
        }
    }
}

proof fn lemma_added_from(src: Seq<NoteView>, st: Seq<StoredView>, g: u64, i: int, j: int, a: int)
    requires
        0 <= i <= a < src.len(),
        0 <= j <= st.len(),
        forall|b: int| 0 <= b < st.len() ==> !path_equal(src[a].path, #[trigger] st[b].path),
    ensures
        compare_from(src, st, g, i, j).0.contains((src[a].path, "source added after published generation"@)),
    decreases (src.len() - i) + (st.len() - j),
{
    let d = (src[a].path, "source added after published generation"@);
    let r = compare_from(src, st, g, i, j);
    if i == a {
        if j < st.len() && path_equal(src[i].path, st[j].path) {
            assert(!path_equal(src[a].path, st[j].path));
        } else if j < st.len() && path_lt(src[i].path, st[j].path) {
            assert(r.0[0] == d);
        } else if j < st.len() {
            lemma_added_from(src, st, g, i, j + 1, a);
            let rest = compare_from(src, st, g, i, j + 1);
            let k = choose|k: int| 0 <= k < rest.0.len() && rest.0[k] == d;
            assert(r.0[k + 1] == d);
        } else {
            assert(r.0[0] == d);
        }
    } else {
        let next = if i < src.len() && j < st.len() && path_equal(src[i].path, st[j].path) {
            (i + 1, j + 1)
        } else if i < src.len() && j < st.len() && path_lt(src[i].path, st[j].path) {
            (i + 1, j)
        } else if j < st.len() {
            (i, j + 1)
        } else {
            (i + 1, j)
        };
        lemma_added_from(src, st, g, next.0, next.1, a);
        let rest = compare_from(src, st, g, next.0, next.1);
        let k = choose|k: int| 0 <= k < rest.0.len() && rest.0[k] == d;
        assert(r.0 == compare_from(src, st, g, i, j).0);
        assert(exists|m: int| 0 <= m < r.0.len() && r.0[m] == d) by {
            assert(r.0[r.0.len() - rest.0.len() + k] == d);
        }
    }
}

proof fn lemma_removed_from(src: Seq<NoteView>, st: Seq<StoredView>, g: u64, i: int, j: int, b: int)
    requires
        0 <= i <= src.len(),
        0 <= j <= b < st.len(),
        forall|a: int| 0 <= a < src.len() ==> !path_equal(#[trigger] src[a].path, st[b].path),
    ensures
        compare_from(src, st, g, i, j).0.contains((st[b].path, "source removed after published generation"@)),
    decreases (src.len() - i) + (st.len() - j),
{
    let d = (st[b].path, "source removed after published generation"@);
    let r = compare_from(src, st, g, i, j);
    let next = if i < src.len() && j < st.len() && path_equal(src[i].path, st[j].path) {
        (i + 1, j + 1)
    } else if i < src.len() && j < st.len() && path_lt(src[i].path, st[j].path) {
        (i + 1, j)
    } else if j < st.len() {
        (i, j + 1)
    } else {
        (i + 1, j)
    };
    if j == b && !(i < src.len() && path_lt(src[i].path, st[j].path)) {
        if i < src.len() {
            assert(!path_equal(src[i].path, st[b].path));
        }
        assert(r.0[0] == d);
    } else {
        if j == b && i < src.len() {
            assert(!path_equal(src[i].path, st[b].path));
        }
        lemma_removed_from(src, st, g, next.0, next.1, b);
        let rest = compare_from(src, st, g, next.0, next.1);
        let k = choose|k: int| 0 <= k < rest.0.len() && rest.0[k] == d;
        assert(r.0[r.0.len() - rest.0.len() + k] == d);
    }
}

/// Law: a projected note whose path no published row has is reported as a
/// source added after the published generation, and a published row whose path
/// no projected note has is reported as a source removed after it.
pub proof fn lemma_one_sided_paths_reported(src: Seq<NoteView>, st: Seq<StoredView>, g: u64)
    ensures
        forall|a: int|
            0 <= a < src.len() && (forall|b: int| 0 <= b < st.len() ==> !path_equal(src[a].path, #[trigger] st[b].path))
                ==> compare_from(src, st, g, 0, 0).0.contains(
                (#[trigger] src[a].path, "source added after published generation"@),
            ),
        forall|b: int|
            0 <= b < st.len() && (forall|a: int| 0 <= a < src.len() ==> !path_equal(#[trigger] src[a].path, st[b].path))
                ==> compare_from(src, st, g, 0, 0).0.contains(
                (#[trigger] st[b].path, "source removed after published generation"@),
            ),
{
    assert forall|a: int|
        0 <= a < src.len() && (forall|b: int| 0 <= b < st.len() ==> !path_equal(src[a].path, #[trigger] st[b].path))
            implies compare_from(src, st, g, 0, 0).0.contains(
            (#[trigger] src[a].path, "source added after published generation"@),
        ) by {
        lemma_added_from(src, st, g, 0, 0, a);
    }
    assert forall|b: int|
        0 <= b < st.len() && (forall|a: int| 0 <= a < src.len() ==> !path_equal(#[trigger] src[a].path, st[b].path))
            implies compare_from(src, st, g, 0, 0).0.contains(
            (#[trigger] st[b].path, "source removed after published generation"@),
        ) by {
        lemma_removed_from(src, st, g, 0, 0, b);
    }
}

/// Law: a generation published from a projection is current against that same
/// projection, with no diagnostics; rebuilding from unchanged sources therefore
/// publishes rows that the next observation certifies.
pub proof fn lemma_published_projection_is_current(src: Seq<NoteView>, g: u64)
    ensures
        published_spec(src, publish_rows(src, g), Some(g)) == (Freshness::Current, Seq::<DiagView>::empty()),
{
    lemma_compare_published_from(src, g, 0);
}


/// The text `serde_json::to_string` writes for a list of strings, or `None` where it reports an error.
pub uninterp spec fn links_json_text(links: Seq<Seq<char>>) -> Option<Seq<char>>;

/// The list of strings `serde_json::from_str` reads from a text, or `None` where it reports an error.
pub uninterp spec fn links_of_json_text(text: Seq<char>) -> Option<Seq<Seq<char>>>;

/// `serde_json::to_string` on a list of strings: the JSON text, or `None` for an
/// error; both are what `links_json_text` names for the list.
#[verifier::external_body]
fn links_to_json(links: &Vec<String>) -> (r: Option<String>)
    ensures
        match r {
            Some(t) => links_json_text(string_views(links@)) == Some(t@),
            None => links_json_text(string_views(links@)) is None,
        },
{
    serde_json::to_string(links).ok()
}

/// `serde_json::from_str` into a list of strings: the list that `links_of_json_text`
/// names for the text, or, where that is `None`, the error's display text, of which
/// nothing is stated.
#[verifier::external_body]
fn links_from_json(text: &str) -> (r: Result<Vec<String>, String>)
    ensures
        match r {
            Ok(v) => links_of_json_text(text@) == Some(string_views(v@)),
            Err(_) => links_of_json_text(text@) is None,
        },
{
    serde_json::from_str::<Vec<String>>(text).map_err(|e| e.to_string())
}

/// The text in which the outgoing links of a note are stored: their JSON array,
/// or an empty array should the encoder report an error.
pub fn stored_links_text(links: &Vec<String>) -> (r: String)
    ensures
        r@ == match links_json_text(string_views(links@)) {
            Some(t) => t,
            None => "[]"@,
        },
{
    match links_to_json(links) {
        Some(t) => t,
        None => "[]".to_owned(),
    }
}

/// The outgoing links read back from their stored text, or the decoder's error text.
pub fn parse_stored_links(text: &str) -> (r: Result<Vec<String>, String>)
    ensures
        r is Ok <==> links_of_json_text(text@) is Some,
        r matches Ok(v) ==> links_of_json_text(text@) == Some(string_views(v@)),
{
    links_from_json(text)
}

} // verus!
