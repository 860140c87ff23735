use mg_vault::index::{IndexDiagnostic, MarkdownIndex, SourceRead};
use mg_vault::store::{
    candidate_name, check_candidate_freshness, check_directory_owner, component_step, ComponentAction, ComponentOpened, check_integrity, check_legacy_cache, check_metadata,
    check_replacement, compare_source_projection, database_location, database_path, metadata_u64,
    next_publication_generation, normalize_diagnostics, observation_verdict, parse_stored_links, stored_links_text, published_verdict, schema_action, search_snapshot,
    sqlite_family_names, Diagnostic, Freshness, IndexMetadata, SchemaAction, StoreError, StoredNote,
    PARSER_VERSION, SCHEMA_VERSION,
};

fn source_read(path: &str, bytes: &[u8]) -> SourceRead {
    SourceRead { path: path.as_bytes().to_vec(), contents: Ok((bytes.to_vec(), bytes.to_vec())) }
}

fn projection(reads: Vec<SourceRead>) -> MarkdownIndex {
    let mut index = MarkdownIndex::new();
    index.rebuild(b"/v", Vec::new(), reads);
    index
}

fn stored(index: &MarkdownIndex, generation: u64) -> Vec<StoredNote> {
    index
        .notes()
        .iter()
        .map(|note| StoredNote {
            path: note.path.clone(),
            title: note.title.clone(),
            text: note.text.clone(),
            fingerprint: note.fingerprint.as_str().to_owned(),
            outgoing_links: note.outgoing_links.clone(),
            generation,
        })
        .collect()
}

fn metadata(freshness: Freshness) -> IndexMetadata {
    IndexMetadata {
        schema_version: SCHEMA_VERSION,
        parser_version: PARSER_VERSION.to_owned(),
        generation: Some(1),
        freshness,
        note_count: 0,
        completed_at_unix_ms: None,
        observed_at_unix_ms: None,
        diagnostics: Vec::new(),
    }
}

#[test]
fn freshness_labels_round_trip() {
    for freshness in [Freshness::Empty, Freshness::Current, Freshness::Stale, Freshness::Degraded] {
        assert_eq!(Freshness::parse(freshness.as_str()), Ok(freshness));
    }
    assert_eq!(
        Freshness::parse("fresh"),
        Err(StoreError::InvalidMetadata("unknown freshness value \"fresh\"".to_owned()))
    );
}

#[test]
fn metadata_checks_fail_closed() {
    assert_eq!(check_metadata(SCHEMA_VERSION, PARSER_VERSION, Some(1), "current"), Ok(()));
    assert_eq!(
        check_metadata(3, PARSER_VERSION, Some(1), "current"),
        Err(StoreError::UnsupportedSchema { found: 3, expected: SCHEMA_VERSION })
    );
    assert_eq!(
        check_metadata(SCHEMA_VERSION, "other-parser", Some(1), "current"),
        Err(StoreError::UnsupportedParser { found: "other-parser".to_owned(), expected: PARSER_VERSION.to_owned() })
    );
    assert_eq!(
        check_metadata(SCHEMA_VERSION, PARSER_VERSION, None, "current"),
        Err(StoreError::InvalidMetadata("current index metadata is missing its generation".to_owned()))
    );
    assert_eq!(check_metadata(SCHEMA_VERSION, PARSER_VERSION, None, "empty"), Ok(()));
}

#[test]
fn schema_versions_choose_initialization_reset_or_refusal() {
    assert_eq!(schema_action(0, false), Ok(SchemaAction::Initialize));
    assert_eq!(schema_action(0, true), Err(StoreError::IncompleteSchema));
    assert_eq!(schema_action(1, true), Ok(SchemaAction::ResetLegacy));
    assert_eq!(schema_action(SCHEMA_VERSION, true), Ok(SchemaAction::Ready));
    assert_eq!(schema_action(9, true), Err(StoreError::UnsupportedSchema { found: 9, expected: SCHEMA_VERSION }));
    assert_eq!(check_legacy_cache(Some("diagnostics,metadata,notes"), 1, PARSER_VERSION), Ok(()));
    assert!(check_legacy_cache(Some("notes"), 1, PARSER_VERSION).is_err());
    assert!(check_legacy_cache(Some("diagnostics,metadata,notes"), 2, PARSER_VERSION).is_err());
}

#[test]
fn generations_are_positive_and_bounded() {
    assert_eq!(next_publication_generation(None), Ok(1));
    assert_eq!(next_publication_generation(Some(41)), Ok(42));
    assert_eq!(next_publication_generation(Some(i64::MAX)), Err(StoreError::GenerationExhausted));
    assert!(next_publication_generation(Some(-1)).is_err());
    assert_eq!(metadata_u64(5), Ok(5));
    assert!(metadata_u64(-5).is_err());
}

#[test]
fn published_rows_are_current_stale_or_degraded() {
    let index = projection(vec![source_read("a.md", b"one"), source_read("b.md", b"two")]);
    let rows = stored(&index, 4);
    let (freshness, diagnostics) = published_verdict(&index, &rows, Some(4));
    assert_eq!(freshness, Freshness::Current);
    assert!(diagnostics.is_empty());
    assert_eq!(published_verdict(&index, &rows, None).0, Freshness::Empty);

    let changed = projection(vec![source_read("a.md", b"one!"), source_read("c.md", b"new")]);
    let (freshness, diagnostics) = published_verdict(&changed, &rows, Some(4));
    assert_eq!(freshness, Freshness::Stale);
    let messages: Vec<_> = diagnostics.iter().map(|d| (String::from_utf8_lossy(&d.path).into_owned(), d.message.clone())).collect();
    assert_eq!(
        messages,
        [
            ("a.md".to_owned(), "source changed after published generation".to_owned()),
            ("b.md".to_owned(), "source removed after published generation".to_owned()),
            ("c.md".to_owned(), "source added after published generation".to_owned()),
        ]
    );

    let mut tampered = stored(&index, 4);
    tampered[0].title = "forged".to_owned();
    tampered[1].generation = 3;
    let comparison = compare_source_projection(&index, &tampered, 4);
    assert!(comparison.source_diagnostics.is_empty());
    assert_eq!(comparison.integrity_diagnostics.len(), 2);
    assert_eq!(published_verdict(&index, &tampered, Some(4)).0, Freshness::Degraded);
}

#[test]
fn observations_must_agree() {
    let first = projection(vec![source_read("a.md", b"one")]);
    let same = projection(vec![source_read("a.md", b"one")]);
    assert_eq!(observation_verdict(&first, &same, b"/v"), None);
    let moved = projection(vec![source_read("a.md", b"two")]);
    let verdict = observation_verdict(&first, &moved, b"/v").unwrap();
    assert_eq!(verdict.len(), 1);
    assert_eq!(verdict[0].path, b".");
    let mut degraded = MarkdownIndex::new();
    degraded.rebuild(b"/v",
        vec![IndexDiagnostic { path: b"/v/sub/x.md".to_vec(), message: "denied".to_owned() }],
        Vec::new(),
    );
    let verdict = observation_verdict(&degraded, &same, b"/v").unwrap();
    assert_eq!(verdict, vec![Diagnostic { path: b"sub/x.md".to_vec(), message: "denied".to_owned() }]);
}

#[test]
fn searching_requires_a_current_snapshot() {
    let index = projection(vec![source_read("a.md", b"Needle here"), source_read("b.md", b"nothing")]);
    let rows = stored(&index, 1);
    let snapshot = search_snapshot(metadata(Freshness::Current), rows.clone(), "NEEDLE").unwrap();
    assert_eq!(snapshot.notes.len(), 1);
    assert_eq!(snapshot.notes[0].path, b"a.md");
    assert_eq!(
        search_snapshot(metadata(Freshness::Stale), rows, "x").unwrap_err(),
        StoreError::NotCurrent { freshness: Freshness::Stale }
    );
}

#[test]
fn database_locations_are_confined_and_named() {
    assert_eq!(
        database_location(b"relative/db.sqlite3"),
        Err(StoreError::UnsafeDatabasePath {
            path: b"relative/db.sqlite3".to_vec(),
            reason: "database path must be absolute".to_owned(),
        })
    );
    assert!(matches!(database_location(b"/"), Err(StoreError::UnsafeDatabasePath { .. })));
    assert_eq!(
        database_location(b"/home/./u/../c/db.sqlite3"),
        Ok((vec![b"home".to_vec(), b"u".to_vec(), b"c".to_vec()], b"db.sqlite3".to_vec()))
    );
    assert_eq!(
        sqlite_family_names(b"db"),
        vec![b"db".to_vec(), b"db-journal".to_vec(), b"db-wal".to_vec(), b"db-shm".to_vec()]
    );
    assert_eq!(candidate_name(b"db", 12, 345), b"db.candidate-12-345".to_vec());
    let path = database_path(b"/cache/indexes", b"");
    assert_eq!(
        path,
        b"/cache/indexes/sha256:e3b0c44298fc1c149afbf4c8996fb92427ae41e4649b934ca495991b7852b855.sqlite3".to_vec()
    );
}

#[test]
fn recovery_checks_require_current_and_intact_candidates() {
    assert_eq!(check_candidate_freshness(Freshness::Current), Ok(()));
    assert_eq!(
        check_candidate_freshness(Freshness::Stale),
        Err(StoreError::PublicationAborted("recovery candidate did not reach current freshness".to_owned()))
    );
    assert_eq!(check_integrity("ok", false), Ok(()));
    assert_eq!(
        check_integrity("bad page", true),
        Err(StoreError::InvalidMetadata("recovery candidate failed final integrity check: bad page".to_owned()))
    );
    assert!(check_replacement(Freshness::Current, "ok").is_ok());
    assert!(check_replacement(Freshness::Degraded, "ok").is_err());
    assert!(check_replacement(Freshness::Current, "corrupt").is_err());
}

#[test]
fn store_errors_print_their_cause() {
    assert_eq!(
        StoreError::NotCurrent { freshness: Freshness::Stale }.message(),
        "current index required; freshness is Stale"
    );
    assert_eq!(
        StoreError::FreshnessGenerationChanged { expected_generation: Some(3) }.message(),
        "freshness observation lost its published generation (expected Some(3))"
    );
    assert_eq!(
        StoreError::UnsupportedParser { found: "x".to_owned(), expected: "y".to_owned() }.message(),
        "unsupported index parser version \"x\"; expected \"y\""
    );
}

#[test]
fn negative_stored_integers_are_invalid_metadata() {
    assert_eq!(
        metadata_u64(-5),
        Err(StoreError::InvalidMetadata("out of range integral type conversion attempted".to_owned()))
    );
}

#[test]
fn outgoing_links_are_stored_as_a_json_array() {
    let links = vec!["Target".to_owned(), "say \"hi\"".to_owned()];
    let text = stored_links_text(&links);
    assert_eq!(text, "[\"Target\",\"say \\\"hi\\\"\"]");
    assert_eq!(parse_stored_links(&text), Ok(links));
    assert_eq!(stored_links_text(&Vec::new()), "[]");
    assert!(parse_stored_links("not json").is_err());
}

#[test]
fn diagnostics_of_one_path_keep_their_order() {
    let errors = vec![
        IndexDiagnostic { path: b"/v/b.md".to_vec(), message: "first".to_owned() },
        IndexDiagnostic { path: b"/v/a.md".to_vec(), message: "only".to_owned() },
        IndexDiagnostic { path: b"/v/b.md".to_vec(), message: "second".to_owned() },
    ];
    let arranged = normalize_diagnostics(b"/v", &errors);
    assert_eq!(
        arranged,
        vec![
            Diagnostic { path: b"a.md".to_vec(), message: "only".to_owned() },
            Diagnostic { path: b"b.md".to_vec(), message: "first".to_owned() },
            Diagnostic { path: b"b.md".to_vec(), message: "second".to_owned() },
        ]
    );
}

#[test]
fn database_parents_are_opened_created_or_refused() {
    assert!(matches!(component_step(b"/c/db", ComponentOpened::Opened), ComponentAction::Descend));
    assert!(matches!(component_step(b"/c/db", ComponentOpened::Missing), ComponentAction::CreateThenOpen));
    match component_step(b"/c/db", ComponentOpened::Refused("Too many levels of symbolic links".to_owned())) {
        ComponentAction::Fail(error) => assert_eq!(
            error,
            StoreError::UnsafeDatabasePath {
                path: b"/c/db".to_vec(),
                reason: "database parent is not confined: Too many levels of symbolic links".to_owned(),
            }
        ),
        _ => panic!("expected a refusal"),
    }
    assert_eq!(check_directory_owner(b"/c", 1000, 1000), Ok(()));
    assert_eq!(
        check_directory_owner(b"/c", 0, 1000),
        Err(StoreError::UnsafeDatabasePath {
            path: b"/c".to_vec(),
            reason: "database directory is not owned by the current user".to_owned(),
        })
    );
}

#[test]
fn one_sided_paths_are_reported_added_or_removed() {
    let published = projection(vec![source_read("gone.md", b"x"), source_read("kept.md", b"k")]);
    let rows = stored(&published, 2);
    let current = projection(vec![source_read("kept.md", b"k"), source_read("new.md", b"n")]);
    let comparison = compare_source_projection(&current, &rows, 2);
    let messages: Vec<_> = comparison
        .source_diagnostics
        .iter()
        .map(|d| (String::from_utf8_lossy(&d.path).into_owned(), d.message.clone()))
        .collect();
    assert_eq!(
        messages,
        [
            ("gone.md".to_owned(), "source removed after published generation".to_owned()),
            ("new.md".to_owned(), "source added after published generation".to_owned()),
        ]
    );
    assert!(comparison.integrity_diagnostics.is_empty());
}
