//! The sequences of source observations behind a rebuild, a freshness
//! verification and a verified search of the persistent index. Each is a step
//! function from the current state and what the caller observed or read to the
//! next state and what the caller must do; the caller performs the observations,
//! the SQLite work and the clock.

use vstd::prelude::*;
use crate::index::{IndexStatus, MarkdownIndex, diagnostic_views};
use crate::store::{
    DiagView, Diagnostic, Freshness, stably_arranged, IndexMetadata, QuerySnapshot, StoreError, StoredNote, certification_confirms,
    changed_during_observation, diag_views, matching_stored, normalize_diagnostics, normalized_views,
    notes_eq, observation_spec, observation_verdict, published_spec, published_verdict, search_snapshot,
    source_changed_during_observation, stored_views,
};
use crate::text::lowercase_of;

verus! {

/// Diagnostics arranged by path from diagnostic views as a stable sort arranges
/// them (the views of one path keep their order).
pub open spec fn arranged(d: Seq<Diagnostic>, v: Seq<DiagView>) -> bool {
    stably_arranged(diag_views(d), v)
}

/// A complete observation: nothing failed to be read.
pub open spec fn complete(s: IndexStatus) -> bool {
    s is Empty || s is Current
}

/// A certifying observation: complete, with exactly the notes of the candidate.
pub open spec fn confirms(p: MarkdownIndex, c: MarkdownIndex) -> bool {
    complete(c.status_spec()) && notes_eq(p.notes_spec(), c.notes_spec())
}

/// The single diagnostic recorded when the sources changed between observations.
pub open spec fn changed_marker() -> Seq<DiagView> {
    seq![(seq![46u8], changed_during_observation())]
}

fn changed_diagnostics() -> (r: Vec<Diagnostic>)
    ensures
        diag_views(r@) == changed_marker(),
        arranged(r@, changed_marker()),
{
    let mut v: Vec<Diagnostic> = Vec::new();
    v.push(source_changed_during_observation());
    assert(diag_views(v@) =~= changed_marker());
    v
}

/// The normalized errors of an incomplete observation, or none for a complete one.
fn incomplete_errors(p: &MarkdownIndex, root: &[u8]) -> (r: Option<Vec<Diagnostic>>)
    ensures
        match p.status_spec() {
            IndexStatus::Degraded { errors, .. } => r matches Some(d)
                && arranged(d@, normalized_views(root@, diagnostic_views(errors@))),
            _ => r is None,
        },
{
    match p.status() {
        IndexStatus::Degraded { errors, .. } => Some(normalize_diagnostics(root, errors)),
        _ => None,
    }
}

// ----- rebuild and publication -----

/// Where a rebuild stands.
pub enum RebuildState {
    /// Nothing observed yet.
    Start,
    /// A complete candidate was observed; its rows are being staged.
    Candidate(MarkdownIndex),
    /// The candidate's rows are staged; a confirming observation is due.
    Staged(MarkdownIndex),
    /// The confirming observation agreed; a certifying observation is due.
    Confirmed(MarkdownIndex),
    /// The rebuild has decided.
    Done,
}

/// What the caller of a rebuild step observed or did.
pub enum RebuildEvent {
    Observed(MarkdownIndex),
    Staged,
    /// The publication was refused with this message before the certifying observation.
    Refused(String),
}

/// What the caller of a rebuild step must do next.
pub enum RebuildAction {
    /// Observe the sources.
    Observe,
    /// Begin the write transaction, take the next generation and stage the candidate's rows.
    Stage,
    /// The candidate is incomplete: record these diagnostics as degraded and publish nothing.
    RecordDegraded(Vec<Diagnostic>),
    /// Roll the staged rows back, record these diagnostics as degraded and fail with the error.
    Abort(Vec<Diagnostic>, StoreError),
    /// Commit the staged rows as the current generation.
    Publish,
}

/// The events a rebuild state accepts.
pub open spec fn rebuild_event_fits(s: RebuildState, e: RebuildEvent) -> bool {
    match s {
        RebuildState::Candidate(_) => e is Staged,
        RebuildState::Confirmed(_) => e is Observed || e is Refused,
        RebuildState::Done => false,
        _ => e is Observed,
    }
}

/// Whether the error is an aborted publication with this message.
pub open spec fn aborted_with(e: StoreError, text: Seq<char>) -> bool {
    match e {
        StoreError::PublicationAborted(m) => m@ == text,
        _ => false,
    }
}

pub open spec fn publication_changed_text() -> Seq<char> {
    "source changed during index publication; retry rebuild"@
}

pub open spec fn certification_changed_text() -> Seq<char> {
    "source changed at index certification boundary; retry rebuild"@
}

/// One step of a rebuild: an incomplete candidate is recorded as degraded and
/// nothing is published; a complete candidate is staged, then confirmed by an
/// observation that must agree with it and certified by one more complete
/// observation of the same notes before it is published. Any disagreement aborts
/// the publication with the diagnostics of what was observed.
pub fn rebuild_step(state: RebuildState, event: RebuildEvent, root: &[u8]) -> (r: (RebuildState, RebuildAction))
    requires
        rebuild_event_fits(state, event),
    ensures
        match state {
            RebuildState::Start => match event {
                RebuildEvent::Observed(p) => match p.status_spec() {
                    IndexStatus::Degraded { errors, .. } => r.0 is Done && match r.1 {
                        RebuildAction::RecordDegraded(d) => arranged(d@, normalized_views(root@, diagnostic_views(errors@))),
                        _ => false,
                    },
                    _ => r.0 == RebuildState::Candidate(p) && r.1 is Stage,
                },
                _ => true,
            },
            RebuildState::Candidate(p) => r.0 == RebuildState::Staged(p) && r.1 is Observe,
            RebuildState::Staged(p) => match event {
                RebuildEvent::Observed(c) => match observation_spec(p.status_spec(), p.notes_spec(), c.status_spec(),
                    c.notes_spec(), root@) {
                    Some(v) => r.0 is Done && match r.1 {
                        RebuildAction::Abort(d, e) => arranged(d@, v) && aborted_with(e, publication_changed_text()),
                        _ => false,
                    },
                    None => r.0 == RebuildState::Confirmed(p) && r.1 is Observe,
                },
                _ => true,
            },
            RebuildState::Confirmed(p) => match event {
                RebuildEvent::Observed(c) => r.0 is Done && if confirms(p, c) {
                    r.1 is Publish
                } else {
                    match r.1 {
                        RebuildAction::Abort(d, e) => diag_views(d@) == changed_marker()
                            && aborted_with(e, certification_changed_text()),
                        _ => false,
                    }
                },
                RebuildEvent::Refused(m) => r.0 is Done && match r.1 {
                    RebuildAction::Abort(d, e) => diag_views(d@) == seq![(seq![46u8], m@)] && aborted_with(e, m@),
                    _ => false,
                },
                _ => true,
            },
            RebuildState::Done => true,
        },
{
    match state {
        RebuildState::Start => {
            let p = match event {
                RebuildEvent::Observed(p) => p,
                _ => {
                    return (RebuildState::Done, RebuildAction::Observe);
                },
            };
            match incomplete_errors(&p, root) {
                Some(d) => (RebuildState::Done, RebuildAction::RecordDegraded(d)),
                None => (RebuildState::Candidate(p), RebuildAction::Stage),
            }
        },
        RebuildState::Candidate(p) => (RebuildState::Staged(p), RebuildAction::Observe),
        RebuildState::Staged(p) => {
            let c = match event {
                RebuildEvent::Observed(c) => c,
                _ => {
                    return (RebuildState::Done, RebuildAction::Observe);
                },
            };
            match observation_verdict(&p, &c, root) {
                Some(d) => (RebuildState::Done, RebuildAction::Abort(d, StoreError::PublicationAborted(
                    "source changed during index publication; retry rebuild".to_owned(),
                ))),
                None => (RebuildState::Confirmed(p), RebuildAction::Observe),
            }
        },
        RebuildState::Confirmed(p) => {
            let c = match event {
                RebuildEvent::Observed(c) => c,
                RebuildEvent::Refused(m) => {
                    let mut path: Vec<u8> = Vec::new();
                    path.push(46u8);
                    assert(path@ =~= seq![46u8]);
                    let refusal = Diagnostic { path, message: m.clone() };
                    let mut d: Vec<Diagnostic> = Vec::new();
                    d.push(refusal);
                    assert(diag_views(d@) =~= seq![refusal@]);
                    return (RebuildState::Done, RebuildAction::Abort(d, StoreError::PublicationAborted(m)));
                },
                RebuildEvent::Staged => {
                    return (RebuildState::Done, RebuildAction::Observe);
                },
            };
            if certification_confirms(&p, &c) {
                (RebuildState::Done, RebuildAction::Publish)
            } else {
                (RebuildState::Done, RebuildAction::Abort(changed_diagnostics(), StoreError::PublicationAborted(
                    "source changed at index certification boundary; retry rebuild".to_owned(),
                )))
            }
        },
        RebuildState::Done => (RebuildState::Done, RebuildAction::Observe),
    }
}

// ----- freshness verification -----

/// Where a freshness verification stands.
pub enum FreshnessState {
    /// Nothing observed yet.
    Start,
    /// A complete first observation; a second one is due.
    First(MarkdownIndex),
    /// Two observations agreed; the published snapshot is due.
    Confirmed(MarkdownIndex),
    /// The published rows and generation were read; a certifying observation is due.
    Published(MarkdownIndex, Vec<StoredNote>, Option<u64>),
    /// The verification has decided.
    Done,
}

/// What the caller of a freshness step observed or read.
pub enum FreshnessEvent {
    Observed(MarkdownIndex),
    Published(Vec<StoredNote>, Option<u64>),
}

/// Which generation a recorded freshness is tied to.
#[derive(Clone, Copy, Debug, PartialEq, Eq, Structural)]
pub enum ExpectedGeneration {
    /// The generation the metadata holds when the freshness is recorded.
    Current,
    /// The generation of the snapshot that was read.
    Known(Option<u64>),
}

/// What the caller of a freshness step must do next.
pub enum FreshnessAction {
    /// Observe the sources.
    Observe,
    /// Read the published rows and their generation.
    ReadPublished,
    /// Record this freshness and these diagnostics for the generation, and report the metadata.
    Record(Freshness, Vec<Diagnostic>, ExpectedGeneration),
}

/// The events a freshness state accepts.
pub open spec fn freshness_event_fits(s: FreshnessState, e: FreshnessEvent) -> bool {
    match s {
        FreshnessState::Confirmed(_) => e is Published,
        FreshnessState::Done => false,
        _ => e is Observed,
    }
}

/// One step of a freshness verification: two observations must agree (an
/// incomplete or changed observation is recorded as degraded), then the published
/// snapshot is read and one more observation must certify the first; the
/// freshness of the published rows against the observed notes is then recorded
/// for the generation that was read. Nothing is ever published.
pub fn freshness_step(state: FreshnessState, event: FreshnessEvent, root: &[u8]) -> (r: (FreshnessState, FreshnessAction))
    requires
        freshness_event_fits(state, event),
    ensures
        match state {
            FreshnessState::Start => match event {
                FreshnessEvent::Observed(p) => match p.status_spec() {
                    IndexStatus::Degraded { errors, .. } => r.0 is Done && match r.1 {
                        FreshnessAction::Record(f, d, g) => f == Freshness::Degraded && g == ExpectedGeneration::Current
                            && arranged(d@, normalized_views(root@, diagnostic_views(errors@))),
                        _ => false,
                    },
                    _ => r.0 == FreshnessState::First(p) && r.1 is Observe,
                },
                _ => true,
            },
            FreshnessState::First(p) => match event {
                FreshnessEvent::Observed(c) => match observation_spec(p.status_spec(), p.notes_spec(), c.status_spec(),
                    c.notes_spec(), root@) {
                    Some(v) => r.0 is Done && match r.1 {
                        FreshnessAction::Record(f, d, g) => f == Freshness::Degraded && g == ExpectedGeneration::Current
                            && arranged(d@, v),
                        _ => false,
                    },
                    None => r.0 == FreshnessState::Confirmed(p) && r.1 is ReadPublished,
                },
                _ => true,
            },
            FreshnessState::Confirmed(p) => match event {
                FreshnessEvent::Published(rows, g) => r.0 == FreshnessState::Published(p, rows, g) && r.1 is Observe,
                _ => true,
            },
            FreshnessState::Published(p, rows, g) => match event {
                FreshnessEvent::Observed(c) => r.0 is Done && match r.1 {
                    FreshnessAction::Record(f, d, e) => e == ExpectedGeneration::Known(g) && if confirms(p, c) {
                        (f, diag_views(d@)) == published_spec(p.notes_spec(), stored_views(rows@), g)
                    } else {
                        f == Freshness::Degraded && diag_views(d@) == changed_marker()
                    },
                    _ => false,
                },
                _ => true,
            },
            FreshnessState::Done => true,
        },
{
    match state {
        FreshnessState::Start => {
            let p = match event {
                FreshnessEvent::Observed(p) => p,
                FreshnessEvent::Published(..) => {
                    return (FreshnessState::Done, FreshnessAction::Observe);
                },
            };
            match incomplete_errors(&p, root) {
                Some(d) => (FreshnessState::Done, FreshnessAction::Record(Freshness::Degraded, d, ExpectedGeneration::Current)),
                None => (FreshnessState::First(p), FreshnessAction::Observe),
            }
        },
        FreshnessState::First(p) => {
            let c = match event {
                FreshnessEvent::Observed(c) => c,
                FreshnessEvent::Published(..) => {
                    return (FreshnessState::Done, FreshnessAction::Observe);
                },
            };
            match observation_verdict(&p, &c, root) {
                Some(d) => (FreshnessState::Done, FreshnessAction::Record(Freshness::Degraded, d, ExpectedGeneration::Current)),
                None => (FreshnessState::Confirmed(p), FreshnessAction::ReadPublished),
            }
        },
        FreshnessState::Confirmed(p) => match event {
            FreshnessEvent::Published(rows, g) => (FreshnessState::Published(p, rows, g), FreshnessAction::Observe),
            FreshnessEvent::Observed(_) => (FreshnessState::Done, FreshnessAction::Observe),
        },
        FreshnessState::Published(p, rows, g) => {
            let c = match event {
                FreshnessEvent::Observed(c) => c,
                FreshnessEvent::Published(..) => {
                    return (FreshnessState::Done, FreshnessAction::Observe);
                },
            };
            if certification_confirms(&p, &c) {
                let (f, d) = published_verdict(&p, rows.as_slice(), g);
                (FreshnessState::Done, FreshnessAction::Record(f, d, ExpectedGeneration::Known(g)))
            } else {
                (FreshnessState::Done, FreshnessAction::Record(Freshness::Degraded, changed_diagnostics(),
                    ExpectedGeneration::Known(g)))
            }
        },
        FreshnessState::Done => (FreshnessState::Done, FreshnessAction::Observe),
    }
}

// ----- verified search -----

/// The answer of a verified search: the freshness to record for the generation
/// that was read, with its diagnostics, and the search result.
pub struct SearchAnswer {
    pub freshness: Freshness,
    pub diagnostics: Vec<Diagnostic>,
    pub expected_generation: Option<u64>,
    pub result: Result<QuerySnapshot, StoreError>,
}

fn copy_diagnostics(v: &Vec<Diagnostic>) -> (r: Vec<Diagnostic>)
    ensures
        diag_views(r@) == diag_views(v@),
{
    let mut out: Vec<Diagnostic> = Vec::new();
    let mut i: usize = 0;
    while i < v.len()
        invariant
            i <= v@.len(),
            diag_views(out@) == diag_views(v@).take(i as int),
        decreases v@.len() - i,
    {
        let d = Diagnostic { path: vstd::slice::slice_to_vec(v[i].path.as_slice()), message: v[i].message.clone() };
        let ghost prev = out@;
        out.push(d);
        assert(diag_views(out@) =~= diag_views(prev).push(d@));
        assert(diag_views(v@).take(i + 1) =~= diag_views(v@).take(i as int).push(diag_views(v@)[i as int]));
        i = i + 1;
    }
    assert(diag_views(v@).take(v@.len() as int) =~= diag_views(v@));
    out
}

/// The answer of a verified search from the observation taken before the rows
/// were read, the rows and metadata read in the transaction, the observation
/// taken after, and the time of that observation: the freshness is degraded when
/// the observations disagree or are incomplete, otherwise that of the rows against
/// the last observation; the search answers only a current generation, with the
/// rows matching the query.
pub fn search_answer(
    initial: &MarkdownIndex,
    metadata: IndexMetadata,
    rows: Vec<StoredNote>,
    last: &MarkdownIndex,
    observed_at_unix_ms: u64,
    root: &[u8],
    query: &str,
) -> (r: SearchAnswer)
    ensures
        r.expected_generation == metadata.generation,
        match observation_spec(initial.status_spec(), initial.notes_spec(), last.status_spec(), last.notes_spec(), root@) {
            Some(v) => r.freshness == Freshness::Degraded && arranged(r.diagnostics@, v),
            None => (r.freshness, diag_views(r.diagnostics@)) == published_spec(last.notes_spec(), stored_views(rows@),
                metadata.generation),
        },
        r.freshness != Freshness::Current ==> r.result == Err::<QuerySnapshot, StoreError>(
            StoreError::NotCurrent { freshness: r.freshness },
        ),
        r.freshness == Freshness::Current ==> (r.result matches Ok(snap)
            && snap.metadata.freshness == Freshness::Current
            && snap.metadata.generation == metadata.generation
            && snap.metadata.observed_at_unix_ms == Some(observed_at_unix_ms)
            && diag_views(snap.metadata.diagnostics@) == diag_views(r.diagnostics@)
            && stored_views(snap.notes@) == matching_stored(stored_views(rows@), lowercase_of(query@))),
{
    let (freshness, diagnostics) = crate::store::search_verdict(initial, last, root, rows.as_slice(), metadata.generation);
    let expected_generation = metadata.generation;
    let mut updated = metadata;
    updated.freshness = freshness;
    updated.observed_at_unix_ms = Some(observed_at_unix_ms);
    updated.diagnostics = copy_diagnostics(&diagnostics);
    let result = search_snapshot(updated, rows, query);
    SearchAnswer { freshness, diagnostics, expected_generation, result }
}

} // verus!
