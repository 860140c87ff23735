use mg_vault::index::{IndexDiagnostic, MarkdownIndex, SourceRead};
use mg_vault::observation::{
    freshness_step, rebuild_step, search_answer, ExpectedGeneration, FreshnessAction, FreshnessEvent,
    FreshnessState, RebuildAction, RebuildEvent, RebuildState,
};
use mg_vault::recovery::{recovery_step, RecoveryAction, RecoveryEvent, RecoveryState};
use mg_vault::store::{Freshness, IndexMetadata, StoreError, StoredNote, PARSER_VERSION, SCHEMA_VERSION};

fn read(path: &str, bytes: &[u8]) -> SourceRead {
    SourceRead { path: path.as_bytes().to_vec(), contents: Ok((bytes.to_vec(), bytes.to_vec())) }
}

fn observed(reads: Vec<SourceRead>) -> MarkdownIndex {
    let mut index = MarkdownIndex::new();
    index.rebuild(b"/v", Vec::new(), reads);
    index
}

fn denied() -> MarkdownIndex {
    let mut index = MarkdownIndex::new();
    index.rebuild(b"/v", vec![IndexDiagnostic { path: b"/v/x.md".to_vec(), message: "denied".to_owned() }], Vec::new());
    index
}

fn rows_of(index: &MarkdownIndex, generation: u64) -> Vec<StoredNote> {
    index
        .notes()
        .iter()
        .map(|note| StoredNote {
            path: note.path.clone(),
            title: note.title.clone(),
            text: note.text.clone(),
            fingerprint: note.fingerprint.as_str().to_owned(),
            outgoing_links: note.outgoing_links.clone(),
            generation,
        })
        .collect()
}

fn published(generation: Option<u64>) -> IndexMetadata {
    IndexMetadata {
        schema_version: SCHEMA_VERSION,
        parser_version: PARSER_VERSION.to_owned(),
        generation,
        freshness: Freshness::Current,
        note_count: 0,
        completed_at_unix_ms: None,
        observed_at_unix_ms: None,
        diagnostics: Vec::new(),
    }
}

#[test]
fn a_stable_rebuild_publishes_after_confirmation_and_certification() {
    let sources = || observed(vec![read("a.md", b"one")]);
    let (state, action) = rebuild_step(RebuildState::Start, RebuildEvent::Observed(sources()), b"/v");
    assert!(matches!(action, RebuildAction::Stage));
    let (state, action) = rebuild_step(state, RebuildEvent::Staged, b"/v");
    assert!(matches!(action, RebuildAction::Observe));
    let (state, action) = rebuild_step(state, RebuildEvent::Observed(sources()), b"/v");
    assert!(matches!(action, RebuildAction::Observe));
    let (state, action) = rebuild_step(state, RebuildEvent::Observed(sources()), b"/v");
    assert!(matches!(action, RebuildAction::Publish));
    assert!(matches!(state, RebuildState::Done));
}

#[test]
fn an_incomplete_rebuild_records_degraded_diagnostics() {
    let (state, action) = rebuild_step(RebuildState::Start, RebuildEvent::Observed(denied()), b"/v");
    assert!(matches!(state, RebuildState::Done));
    match action {
        RebuildAction::RecordDegraded(diagnostics) => {
            assert_eq!(diagnostics.len(), 1);
            assert_eq!(diagnostics[0].path, b"x.md");
            assert_eq!(diagnostics[0].message, "denied");
        }
        _ => panic!("expected degraded diagnostics"),
    }
}

#[test]
fn a_source_change_aborts_publication() {
    let (state, _) = rebuild_step(RebuildState::Start, RebuildEvent::Observed(observed(vec![read("a.md", b"one")])), b"/v");
    let (state, _) = rebuild_step(state, RebuildEvent::Staged, b"/v");
    let (_, action) = rebuild_step(state, RebuildEvent::Observed(observed(vec![read("a.md", b"two")])), b"/v");
    match action {
        RebuildAction::Abort(diagnostics, error) => {
            assert_eq!(diagnostics.len(), 1);
            assert_eq!(diagnostics[0].path, b".");
            assert_eq!(
                error,
                StoreError::PublicationAborted("source changed during index publication; retry rebuild".to_owned())
            );
        }
        _ => panic!("expected an aborted publication"),
    }
}

#[test]
fn a_change_at_the_certification_boundary_aborts_publication() {
    let first = || observed(vec![read("a.md", b"one")]);
    let (state, _) = rebuild_step(RebuildState::Start, RebuildEvent::Observed(first()), b"/v");
    let (state, _) = rebuild_step(state, RebuildEvent::Staged, b"/v");
    let (state, _) = rebuild_step(state, RebuildEvent::Observed(first()), b"/v");
    let (_, action) = rebuild_step(state, RebuildEvent::Observed(observed(vec![read("b.md", b"one")])), b"/v");
    match action {
        RebuildAction::Abort(diagnostics, error) => {
            assert_eq!(diagnostics.len(), 1);
            assert_eq!(
                error,
                StoreError::PublicationAborted(
                    "source changed at index certification boundary; retry rebuild".to_owned()
                )
            );
        }
        _ => panic!("expected an aborted publication"),
    }
}

#[test]
fn freshness_verification_compares_published_rows() {
    let sources = || observed(vec![read("a.md", b"one")]);
    let rows = rows_of(&sources(), 3);
    let (state, action) = freshness_step(FreshnessState::Start, FreshnessEvent::Observed(sources()), b"/v");
    assert!(matches!(action, FreshnessAction::Observe));
    let (state, action) = freshness_step(state, FreshnessEvent::Observed(sources()), b"/v");
    assert!(matches!(action, FreshnessAction::ReadPublished));
    let (state, action) = freshness_step(state, FreshnessEvent::Published(rows, Some(3)), b"/v");
    assert!(matches!(action, FreshnessAction::Observe));
    let (_, action) = freshness_step(state, FreshnessEvent::Observed(sources()), b"/v");
    match action {
        FreshnessAction::Record(freshness, diagnostics, expected) => {
            assert_eq!(freshness, Freshness::Current);
            assert!(diagnostics.is_empty());
            assert_eq!(expected, ExpectedGeneration::Known(Some(3)));
        }
        _ => panic!("expected a recorded freshness"),
    }
}

#[test]
fn freshness_of_changed_observations_is_degraded_for_the_current_generation() {
    let (state, _) =
        freshness_step(FreshnessState::Start, FreshnessEvent::Observed(observed(vec![read("a.md", b"one")])), b"/v");
    let (_, action) = freshness_step(state, FreshnessEvent::Observed(observed(vec![])), b"/v");
    match action {
        FreshnessAction::Record(freshness, diagnostics, expected) => {
            assert_eq!(freshness, Freshness::Degraded);
            assert_eq!(diagnostics.len(), 1);
            assert_eq!(expected, ExpectedGeneration::Current);
        }
        _ => panic!("expected a recorded freshness"),
    }
}

#[test]
fn a_verified_search_answers_only_a_current_generation() {
    let sources = observed(vec![read("a.md", b"Needle"), read("b.md", b"hay")]);
    let rows = rows_of(&sources, 2);
    let answer = search_answer(&sources, published(Some(2)), rows.clone(), &sources, 77, b"/v", "needle");
    assert_eq!(answer.freshness, Freshness::Current);
    assert_eq!(answer.expected_generation, Some(2));
    let snapshot = answer.result.unwrap();
    assert_eq!(snapshot.notes.len(), 1);
    assert_eq!(snapshot.notes[0].path, b"a.md");
    assert_eq!(snapshot.metadata.observed_at_unix_ms, Some(77));

    let changed = observed(vec![read("a.md", b"Needle!"), read("b.md", b"hay")]);
    let answer = search_answer(&sources, published(Some(2)), rows, &changed, 78, b"/v", "needle");
    assert_eq!(answer.freshness, Freshness::Degraded);
    assert_eq!(answer.result.unwrap_err(), StoreError::NotCurrent { freshness: Freshness::Degraded });
}

#[test]
fn a_refused_publication_aborts_with_its_message() {
    let sources = || observed(vec![read("a.md", b"one")]);
    let (state, _) = rebuild_step(RebuildState::Start, RebuildEvent::Observed(sources()), b"/v");
    let (state, _) = rebuild_step(state, RebuildEvent::Staged, b"/v");
    let (state, _) = rebuild_step(state, RebuildEvent::Observed(sources()), b"/v");
    let (_, action) = rebuild_step(state, RebuildEvent::Refused("guard refused".to_owned()), b"/v");
    match action {
        RebuildAction::Abort(diagnostics, error) => {
            assert_eq!(diagnostics.len(), 1);
            assert_eq!(diagnostics[0].path, b".");
            assert_eq!(diagnostics[0].message, "guard refused");
            assert_eq!(error, StoreError::PublicationAborted("guard refused".to_owned()));
        }
        _ => panic!("expected an aborted publication"),
    }
}

#[test]
fn a_recovery_replaces_only_a_current_intact_revalidated_candidate() {
    let (state, action) = recovery_step(RecoveryState::Start, RecoveryEvent::Rebuilt(Freshness::Current));
    assert!(matches!(action, RecoveryAction::CheckIntegrity));
    let (state, action) = recovery_step(state, RecoveryEvent::Integrity("ok".to_owned()));
    assert!(matches!(action, RecoveryAction::MakeDurable));
    let (state, action) = recovery_step(state, RecoveryEvent::Guarded(Ok(())));
    assert!(matches!(action, RecoveryAction::Revalidate));
    let (state, action) = recovery_step(state, RecoveryEvent::Revalidated(None));
    assert!(matches!(action, RecoveryAction::CheckIntegrity));
    let (state, action) = recovery_step(state, RecoveryEvent::Integrity("ok".to_owned()));
    assert!(matches!(action, RecoveryAction::Replace));
    let (_, action) = recovery_step(state, RecoveryEvent::Replaced(Freshness::Current, "ok".to_owned()));
    assert!(matches!(action, RecoveryAction::Finish));
}

fn failure(action: RecoveryAction) -> StoreError {
    match action {
        RecoveryAction::Fail(error) => error,
        _ => panic!("expected a failed recovery"),
    }
}

#[test]
fn a_recovery_fails_closed_at_each_check() {
    let (_, action) = recovery_step(RecoveryState::Start, RecoveryEvent::Rebuilt(Freshness::Degraded));
    assert_eq!(
        failure(action),
        StoreError::PublicationAborted("recovery candidate did not reach current freshness".to_owned())
    );
    let (_, action) = recovery_step(RecoveryState::Current, RecoveryEvent::Integrity("page 3 broken".to_owned()));
    assert_eq!(
        failure(action),
        StoreError::InvalidMetadata("recovery candidate failed integrity check: page 3 broken".to_owned())
    );
    let (_, action) = recovery_step(RecoveryState::Intact, RecoveryEvent::Guarded(Err("refused".to_owned())));
    assert_eq!(failure(action), StoreError::PublicationAborted("refused".to_owned()));
    let (_, action) = recovery_step(RecoveryState::Durable, RecoveryEvent::Revalidated(Some("drift".to_owned())));
    assert_eq!(
        failure(action),
        StoreError::PublicationAborted("recovery candidate lost freshness before replacement: drift".to_owned())
    );
    let (_, action) = recovery_step(RecoveryState::Revalidated, RecoveryEvent::Integrity("bad".to_owned()));
    assert_eq!(
        failure(action),
        StoreError::InvalidMetadata("recovery candidate failed final integrity check: bad".to_owned())
    );
    let (_, action) = recovery_step(RecoveryState::Verified, RecoveryEvent::Replaced(Freshness::Stale, "ok".to_owned()));
    assert_eq!(
        failure(action),
        StoreError::InvalidMetadata("replacement index failed post-recovery verification".to_owned())
    );
}
