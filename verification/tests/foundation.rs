use mg_vault::error::Error;
use mg_vault::fingerprint::SourceFingerprint;
use mg_vault::registry::{validate_name, VaultRecord, VaultRegistry};
use mg_vault::vault::{
    check_directory_step, check_mutation_target, check_note_file, check_unchanged, edit_span, note_of_bytes, restore_target, temp_name, trash_id,
    validate_trash_id, Vault,
};
use mg_vault::xdg::XdgPaths;

#[test]
fn xdg_paths_honor_overrides() {
    let home: &[u8] = b"/home/user";
    let paths = XdgPaths::from_values(
        home,
        Some(b"/home/user/cfg".to_vec()),
        Some(b"/home/user/data".to_vec()),
        Some(b"/home/user/state".to_vec()),
        Some(b"/home/user/cache".to_vec()),
    );
    assert_eq!(paths.config_dir(), b"/home/user/cfg/mg-vault");
    assert_eq!(paths.data_dir(), b"/home/user/data/mg-vault");
    assert_eq!(paths.state_dir(), b"/home/user/state/mg-vault");
    assert_eq!(paths.cache_dir(), b"/home/user/cache/mg-vault");
}

#[test]
fn xdg_defaults_live_below_home() {
    let paths = XdgPaths::from_values(b"/home/u", None, None, None, None);
    assert_eq!(paths.config_dir(), b"/home/u/.config/mg-vault");
    assert_eq!(paths.data_dir(), b"/home/u/.local/share/mg-vault");
    assert_eq!(paths.state_dir(), b"/home/u/.local/state/mg-vault");
    assert_eq!(paths.cache_dir(), b"/home/u/.cache/mg-vault");
    assert_eq!(paths.runtime_dir(), b"/home/u/.local/state/mg-vault/runtime");
    assert_eq!(paths.service_socket(), b"/home/u/.local/state/mg-vault/runtime/indexd.sock");
    assert_eq!(paths.registry_file(), b"/home/u/.config/mg-vault/vaults.json");
}

#[test]
fn xdg_runtime_root_must_be_absolute() {
    let with_runtime = XdgPaths::from_env_values(
        Some(b"/home/u".to_vec()),
        None,
        None,
        None,
        None,
        Some(b"/run/user/1000".to_vec()),
    )
    .unwrap();
    assert_eq!(with_runtime.runtime_dir(), b"/run/user/1000/mg-vault");
    assert_eq!(
        XdgPaths::from_env_values(Some(b"/h".to_vec()), None, None, None, None, Some(b"run".to_vec())),
        Err(Error::UnsafePath("XDG_RUNTIME_DIR must be an absolute path".to_owned()))
    );
    assert_eq!(
        XdgPaths::from_env_values(None, None, None, None, None, None),
        Err(Error::UnsafePath("HOME is not set".to_owned()))
    );
}

#[test]
fn registry_round_trips_and_selects_canonical_vault() {
    let mut registry = VaultRegistry::new(b"/home/u/.config/registry.json".to_vec());
    registry.insert_record("work", b"/home/u/vault".to_vec()).unwrap();
    registry.select("work").unwrap();

    let loaded = VaultRegistry::from_entries(
        registry.path().to_vec(),
        registry.entries(),
        registry.selected_name().map(str::to_owned),
    );
    assert_eq!(loaded.selected_name(), Some("work"));
    assert_eq!(loaded.resolve(None).unwrap(), b"/home/u/vault");
}

#[test]
fn registry_rules_for_names_selection_and_collisions() {
    let mut registry = VaultRegistry::new(b"/r.json".to_vec());
    assert_eq!(registry.resolve(None), Err(Error::NoVaultSelected));
    assert_eq!(
        registry.insert_record("bad name", b"/v".to_vec()),
        Err(Error::InvalidVaultName("bad name".to_owned()))
    );
    let first = registry.insert_record("zeta", b"/z".to_vec()).unwrap();
    assert_eq!(first, VaultRecord { name: "zeta".to_owned(), path: b"/z".to_vec() });
    registry.insert_record("alpha", b"/a".to_vec()).unwrap();
    assert_eq!(registry.selected_name(), Some("zeta"));
    assert_eq!(registry.insert_record("alpha", b"/other".to_vec()), Err(Error::Collision(b"/r.json".to_vec())));
    let names: Vec<_> = registry.list().into_iter().map(|r| r.name).collect();
    assert_eq!(names, ["alpha", "zeta"]);
    assert_eq!(registry.select("missing"), Err(Error::UnknownVault("missing".to_owned())));
    assert_eq!(registry.resolve(Some("alpha")).unwrap(), b"/a");
    assert_eq!(registry.resolve(Some("nope")), Err(Error::UnknownVault("nope".to_owned())));
    assert_eq!(validate_name("ok-name_1"), Ok(()));
    assert_eq!(validate_name(""), Err(Error::InvalidVaultName(String::new())));
    assert_eq!(validate_name("é"), Err(Error::InvalidVaultName("é".to_owned())));
}

#[test]
fn stored_entries_keep_the_last_record_of_a_key() {
    let record = |name: &str, path: &[u8]| VaultRecord { name: name.to_owned(), path: path.to_vec() };
    let registry = VaultRegistry::from_entries(
        b"/r.json".to_vec(),
        vec![
            ("b".to_owned(), record("b", b"/1")),
            ("a".to_owned(), record("a", b"/2")),
            ("b".to_owned(), record("b", b"/3")),
        ],
        None,
    );
    assert_eq!(registry.resolve(Some("b")).unwrap(), b"/3");
    assert_eq!(registry.list().len(), 2);
    assert_eq!(registry.resolve(None), Err(Error::NoVaultSelected));
}

#[test]
fn rejects_traversal_absolute_and_protected_mutations() {
    let vault = Vault::new(b"/home/u/vault".to_vec());
    for path in ["../escape.md", "/tmp/escape.md", ".obsidian/config.md", ".mg-vault/config.md"] {
        assert!(matches!(
            vault.create_note(path.as_bytes(), b"x"),
            Err(Error::UnsafePath(_))
        ));
    }
}

#[test]
fn note_creation_plans_directories_destination_and_fingerprint() {
    let vault = Vault::new(b"/v".to_vec());
    let plan = vault.create_note(b"notes/deep/a.md", b"B").unwrap();
    assert_eq!(plan.relative, b"notes/deep/a.md");
    assert_eq!(plan.directories, vec![b"/v/notes".to_vec(), b"/v/notes/deep".to_vec()]);
    assert_eq!(plan.destination, b"/v/notes/deep/a.md");
    assert_eq!(plan.fingerprint, SourceFingerprint::of(b"B"));
    assert!(vault.create_note(b"a.txt", b"x").is_err());
    assert!(vault.create_note(b"", b"x").is_err());
}

#[test]
fn replacement_requires_the_fingerprint_of_the_current_bytes() {
    let fingerprint = SourceFingerprint::of(b"one");
    assert_eq!(check_unchanged(&fingerprint, b"one"), Ok(fingerprint.clone()));
    assert_eq!(
        check_unchanged(&fingerprint, b"external"),
        Err(Error::Conflict {
            expected: fingerprint.to_string(),
            actual: SourceFingerprint::of(b"external").to_string(),
        })
    );
    assert_eq!(check_mutation_target(b"a.md", false, true), Ok(()));
    assert_eq!(check_mutation_target(b"a.md", true, true), Err(Error::UnsafePath("a.md".to_owned())));
    assert_eq!(check_mutation_target(b"a.md", false, false), Err(Error::UnsafePath("a.md".to_owned())));
}

#[test]
fn trash_ids_are_valid_and_entries_restore_note_paths() {
    let id = trash_id(0x1234, 7);
    assert_eq!(id, "00000000000000000000000000001234-0000000000000007");
    assert_eq!(validate_trash_id(&id), Ok(()));
    assert_eq!(
        validate_trash_id("short"),
        Err(Error::InvalidTrashEntry("short".to_owned()))
    );
    let vault = Vault::new(b"/v".to_vec());
    let (payload, entry) = vault.trash_paths(&id);
    assert_eq!(payload, format!("/v/.mg-vault/trash/files/{id}").into_bytes());
    assert_eq!(entry, format!("/v/.mg-vault/trash/entries/{id}.json").into_bytes());
    assert_eq!(restore_target(&id, 1, b"a/b.md").unwrap(), b"a/b.md");
    assert_eq!(restore_target(&id, 2, b"a/b.md"), Err(Error::InvalidTrashEntry(id.clone())));
    assert!(matches!(restore_target(&id, 1, b".mg-vault/x.md"), Err(Error::UnsafePath(_))));
}

#[test]
fn fingerprints_round_trip_through_their_text() {
    let fingerprint = SourceFingerprint::of(b"abc");
    assert_eq!(
        fingerprint.as_str(),
        "sha256:ba7816bf8f01cfea414140de5dae2223b00361a396177a9cb410ff61f20015ad"
    );
    assert_eq!(SourceFingerprint::parse(fingerprint.as_str()), Ok(fingerprint.clone()));
    let upper = "sha256:BA7816BF8F01CFEA414140DE5DAE2223B00361A396177A9CB410FF61F20015AD";
    assert_eq!(SourceFingerprint::parse(upper), Ok(fingerprint));
    assert!(SourceFingerprint::parse("sha256:xyz").is_err());
    assert!(SourceFingerprint::parse("md5:ba7816bf8f01cfea414140de5dae2223b00361a396177a9cb410ff61f20015ad").is_err());
}

#[test]
fn error_messages_match_their_display_text() {
    assert_eq!(Error::UnknownVault("x".to_owned()).message(), "unknown vault: x");
    assert_eq!(Error::Collision(b"/a\xffb".to_vec()).message(), "path already exists: /a\u{fffd}b");
    assert_eq!(
        Error::Conflict { expected: "e".to_owned(), actual: "a".to_owned() }.message(),
        "source changed (expected e, found a)"
    );
    assert_eq!(Error::NoVaultSelected.message(), "no vault is selected");
}

#[test]
fn validated_note_destinations_stay_beneath_the_root() {
    let vault = Vault::new(b"/srv/vault".to_vec());
    for path in ["a.md", "x/y/z.md", "deep/./b.md"] {
        match vault.create_note(path.as_bytes(), b"x") {
            Ok(plan) => assert!(plan.destination.starts_with(b"/srv/vault/")),
            Err(error) => assert!(matches!(error, Error::UnsafePath(_))),
        }
    }
    assert!(vault.create_note(b"x/../../escape.md", b"x").is_err());
}

#[test]
fn no_selected_vault_is_reported_with_its_code() {
    let registry = VaultRegistry::new(b"/home/u/.config/mg-vault/vaults.json".to_vec());
    let error = registry.resolve(None).unwrap_err();
    assert_eq!(error, Error::NoVaultSelected);
    assert_eq!(mg_vault::present::error_code(&error), "no_vault_selected");
    assert_eq!(error.message(), "no vault is selected");
}

#[test]
fn span_edit_keeps_every_byte_outside_the_span() {
    let source = b"---\ntitle: Old\nunknown:  keep  spacing\n---\nBefore [[Target]] after\n";
    let before = SourceFingerprint::of(source);
    let start = source.windows(3).position(|window| window == b"Old").unwrap();
    let (bytes, after) = edit_span(b"a.md", source, start, start + 3, b"New title", &before).unwrap();
    let expected = b"---\ntitle: New title\nunknown:  keep  spacing\n---\nBefore [[Target]] after\n";
    assert_eq!(bytes, expected.to_vec());
    assert_eq!(after, SourceFingerprint::of(expected));
}

#[test]
fn span_edit_refuses_spans_inside_characters_or_outside_the_note() {
    let source = "before café after".as_bytes();
    let before = SourceFingerprint::of(source);
    let inside = "before caf".len() + 1;
    assert_eq!(
        edit_span(b"a.md", source, inside, inside + 1, b"x", &before),
        Err(Error::InvalidEditSpan { start: inside, end: inside + 1, length: source.len() })
    );
    let plain = b"unchanged";
    let fingerprint = SourceFingerprint::of(plain);
    assert_eq!(
        edit_span(b"a.md", plain, 8, 3, b"x", &fingerprint),
        Err(Error::InvalidEditSpan { start: 8, end: 3, length: 9 })
    );
    assert_eq!(
        edit_span(b"a.md", plain, 0, 10, b"x", &fingerprint),
        Err(Error::InvalidEditSpan { start: 0, end: 10, length: 9 })
    );
    assert_eq!(
        Error::InvalidEditSpan { start: 8, end: 3, length: 9 }.message(),
        "invalid edit span 8..3 for a note of 9 bytes"
    );
}

#[test]
fn span_edit_requires_utf8_before_and_after() {
    let broken = b"before\xffafter";
    assert_eq!(
        edit_span(b"a.md", broken, 0, 1, b"x", &SourceFingerprint::of(broken)),
        Err(Error::InvalidUtf8(b"a.md".to_vec()))
    );
    let plain = b"unchanged";
    assert_eq!(
        edit_span(b"a.md", plain, 0, 1, b"\xff", &SourceFingerprint::of(plain)),
        Err(Error::InvalidUtf8(b"a.md".to_vec()))
    );
}

#[test]
fn span_edit_refuses_a_stale_fingerprint() {
    let before = SourceFingerprint::of(b"original");
    let result = edit_span(b"a.md", b"external", 0, 8, b"ours", &before);
    assert_eq!(
        result,
        Err(Error::Conflict {
            expected: before.as_str().to_owned(),
            actual: SourceFingerprint::of(b"external").as_str().to_owned(),
        })
    );
}

#[test]
fn notes_are_read_only_from_utf8_regular_files() {
    let note = note_of_bytes(b"a.md", "caf\u{e9}".as_bytes().to_vec()).unwrap();
    assert_eq!(note.content, "caf\u{e9}");
    assert_eq!(note.fingerprint, SourceFingerprint::of("caf\u{e9}".as_bytes()));
    assert!(matches!(note_of_bytes(b"a.md", vec![0xff]), Err(Error::InvalidUtf8(path)) if path == b"a.md"));
    assert_eq!(check_note_file(b"dir", true), Ok(()));
    assert_eq!(check_note_file(b"dir", false), Err(Error::UnsafePath("dir is not a file".to_owned())));
}

#[test]
fn a_vault_opens_only_at_a_directory() {
    let vault = Vault::open(b"/srv/notes".to_vec(), true).unwrap();
    assert_eq!(vault.root(), b"/srv/notes");
    assert_eq!(
        Vault::open(b"/srv/file.md".to_vec(), false).unwrap_err(),
        Error::UnsafePath("/srv/file.md is not a directory".to_owned())
    );
    assert_eq!(check_directory_step(b"/srv/notes/sub", false, true), Ok(()));
    assert_eq!(
        check_directory_step(b"/srv/notes/link", true, true),
        Err(Error::UnsafePath("/srv/notes/link".to_owned()))
    );
}

#[test]
fn temporary_files_are_named_beside_their_destination() {
    assert_eq!(temp_name(Some(&b"a.md"[..]), 42, 7), Ok(b".a.md.mg-vault-42-7.tmp".to_vec()));
    for name in [Some(&b"\xff.md"[..]), None] {
        assert_eq!(
            temp_name(name, 1, 0),
            Err(Error::UnsafePath("destination filename is invalid UTF-8".to_owned()))
        );
    }
}
