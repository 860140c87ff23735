use mg_vault::index::{IndexDiagnostic, SourceRead};
use mg_vault::interop::{link_id, note_global_id, resolve_target, vault_namespace, TargetResolution};
use mg_vault::snapshot::{
    diagnostic_path, export_entry, export_snapshot, index_entry, normalized_path, order_diagnostics,
    snapshot_identity, WalkEntry,
};

fn read(path: &str, bytes: &[u8]) -> SourceRead {
    SourceRead {
        path: path.as_bytes().to_vec(),
        contents: Ok((bytes.to_vec(), bytes.to_vec())),
    }
}

const ROOT: &[u8] = b"/home/user/vault";

#[test]
fn ambiguous_basename_stays_unresolved_with_diagnostic() {
    let paths = vec!["one/topic.md".to_owned(), "two/topic.md".to_owned()];
    let resolution = resolve_target("topic", &paths);
    assert!(resolution.path().is_none());
    assert_eq!(
        resolution.diagnostic("topic"),
        "ambiguous Wikilink target \"topic\"; candidates: one/topic.md, two/topic.md"
    );
}

#[test]
fn export_is_deterministic_and_keeps_unresolved_links() {
    let reads = || {
        vec![
            read("nested/a.md", b"# A\n[[b]] [[missing#Heading]]"),
            read("b.md", b"B"),
        ]
    };
    let first = export_snapshot(ROOT, Vec::new(), reads());
    let second = export_snapshot(ROOT, Vec::new(), reads());
    assert_eq!(first, second);
    assert_eq!(
        first.records[0].global_id,
        note_global_id(&vault_namespace(ROOT), "b.md")
    );
    assert!(first.links.iter().any(|link| !link.resolved));
}

#[test]
fn repeated_wikilinks_have_distinct_stable_ids() {
    let snapshot = export_snapshot(
        ROOT,
        Vec::new(),
        vec![read("a.md", b"[[b]] [[b]] [[b]]"), read("b.md", b"B")],
    );
    assert_eq!(snapshot.links.len(), 3);
    let ids: Vec<_> = snapshot.links.iter().map(|link| link.link_id.clone()).collect();
    let namespace = vault_namespace(ROOT);
    let source = note_global_id(&namespace, "a.md");
    let target = note_global_id(&namespace, "b.md");
    assert_eq!(
        ids,
        vec![
            link_id(&namespace, &source, &target, 0),
            link_id(&namespace, &source, &target, 1),
            link_id(&namespace, &source, &target, 2),
        ]
    );
}

#[test]
fn vault_namespace_prevents_same_path_collisions_between_vaults() {
    let first_root: &[u8] = b"/tmp/first-vault";
    let second_root: &[u8] = b"/tmp/second-vault";
    let first = export_snapshot(first_root, Vec::new(), vec![read("same.md", b"first")]);
    let second = export_snapshot(second_root, Vec::new(), vec![read("same.md", b"second")]);
    assert_ne!(first.vault_namespace, second.vault_namespace);
    assert_ne!(first.records[0].global_id, second.records[0].global_id);
    assert!(!first.records[0].global_id.contains("/tmp/first-vault"));
}

#[test]
fn delimiter_containing_paths_cannot_collide_in_wikilink_ids() {
    let snapshot = export_snapshot(
        ROOT,
        Vec::new(),
        vec![
            read("a.md", b"[[b--wikilink--c]]"),
            read("a--wikilink--b.md", b"[[c]]"),
            read("b--wikilink--c.md", b"target one"),
            read("c.md", b"target two"),
        ],
    );
    assert_eq!(snapshot.links.len(), 2);
    let ids: std::collections::HashSet<_> = snapshot.links.iter().map(|link| link.link_id.clone()).collect();
    assert_eq!(ids.len(), 2);
    assert!(ids.iter().all(|id| id.starts_with("mg-vault:wikilink:sha256:")));
    assert!(ids.iter().all(|id| !id.contains("wikilink--")));
}

#[test]
fn unix_backslashes_remain_distinct_path_identity() {
    let snapshot = export_snapshot(
        ROOT,
        Vec::new(),
        vec![read("a\\b.md", b"backslash"), read("a/b.md", b"slash")],
    );
    assert_eq!(snapshot.records.len(), 2);
    let paths: Vec<_> = snapshot.records.iter().map(|record| record.path.as_str()).collect();
    assert!(paths.contains(&"a\\b.md"));
    assert!(paths.contains(&"a/b.md"));
    assert_ne!(snapshot.records[0].global_id, snapshot.records[1].global_id);
}

#[test]
fn unix_non_utf8_vault_roots_have_distinct_namespaces() {
    assert_ne!(vault_namespace(b"/tmp/vault-\x80"), vault_namespace(b"/tmp/vault-\x81"));
}

#[test]
fn non_utf8_paths_are_excluded_with_a_degraded_diagnostic() {
    assert_eq!(export_entry(b"bad-\xff.md", false, true), WalkEntry::NotExportable);
    let snapshot = export_snapshot(
        ROOT,
        vec![IndexDiagnostic {
            path: b"bad-\xff.md".to_vec(),
            message: "non-UTF-8 path is not exportable".to_owned(),
        }],
        Vec::new(),
    );
    assert!(snapshot.records.is_empty());
    assert!(snapshot.degraded);
    assert!(snapshot
        .diagnostics
        .iter()
        .any(|diagnostic| diagnostic.message == "non-UTF-8 path is not exportable"));
    assert_eq!(snapshot.diagnostics[0].path, "<non-UTF-8 path>");
    assert_eq!(snapshot.diagnostics[0].code, "index");
}

#[test]
fn namespace_and_global_ids_have_their_documented_shape() {
    let namespace = vault_namespace(b"");
    assert_eq!(
        namespace,
        "sha256:e3b0c44298fc1c149afbf4c8996fb92427ae41e4649b934ca495991b7852b855"
    );
    assert_eq!(
        note_global_id("sha256:ab", "dir/n.md"),
        "mg-vault:vault:sha256:ab:note:path:dir/n.md"
    );
}

#[test]
fn link_ids_depend_on_every_field() {
    let base = link_id("n", "s", "t", 0);
    assert!(base.starts_with("mg-vault:wikilink:sha256:"));
    assert_eq!(base.len(), "mg-vault:wikilink:sha256:".len() + 64);
    assert_ne!(base, link_id("n", "s", "t", 1));
    assert_ne!(base, link_id("n", "s", "u", 0));
    assert_ne!(base, link_id("n", "x", "t", 0));
    assert_ne!(base, link_id("m", "s", "t", 0));
    assert_ne!(link_id("ab", "c", "t", 0), link_id("a", "bc", "t", 0));
}

#[test]
fn targets_resolve_exactly_then_by_file_name() {
    let paths = vec!["a.md".to_owned(), "dir/b.md".to_owned(), "dir/a.md".to_owned()];
    assert_eq!(resolve_target(" a#Heading ", &paths).path(), Some(&"a.md".to_owned()));
    assert_eq!(resolve_target("dir/b.md", &paths).path(), Some(&"dir/b.md".to_owned()));
    assert_eq!(resolve_target("b", &paths).path(), Some(&"dir/b.md".to_owned()));
    let missing = resolve_target("zzz", &paths);
    assert!(matches!(missing, TargetResolution::Unresolved));
    assert_eq!(missing.diagnostic("zzz"), "unresolved Wikilink target \"zzz\"");
}

#[test]
fn snapshot_records_links_and_diagnostics_follow_their_orders() {
    let snapshot = export_snapshot(
        ROOT,
        vec![IndexDiagnostic { path: b"z-dir".to_vec(), message: "permission\ndenied".to_owned() }],
        vec![
            read("b.md", b"# Bee\n[[nowhere]] [[a]]"),
            read("a.md", b"---\ntitle: Ay\n---\n[[b]]"),
            SourceRead { path: b"c.md".to_vec(), contents: Ok((b"one".to_vec(), b"two".to_vec())) },
        ],
    );
    let paths: Vec<_> = snapshot.records.iter().map(|record| record.path.clone()).collect();
    assert_eq!(paths, ["a.md", "b.md"]);
    assert_eq!(snapshot.records[0].title, "Ay");
    assert_eq!(snapshot.records[1].title, "Bee");
    assert_eq!(snapshot.records[1].wikilinks, ["nowhere", "a"]);
    assert_eq!(snapshot.links.len(), 3);
    assert_eq!(snapshot.links[0].occurrence, 0);
    assert!(snapshot.links[0].resolved);
    assert_eq!(snapshot.links[1].occurrence, 0);
    assert!(!snapshot.links[1].resolved);
    assert_eq!(snapshot.links[2].occurrence, 1);
    assert!(snapshot.degraded);
    let entries: Vec<_> = snapshot
        .diagnostics
        .iter()
        .map(|d| (d.code.as_str(), d.path.as_str(), d.message.as_str()))
        .collect();
    assert_eq!(
        entries,
        [
            ("index", "/home/user/vault/c.md", "source changed during indexing; retry rebuild"),
            ("unresolved_wikilink", "b.md", "unresolved Wikilink target \"nowhere\""),
            ("index", "z-dir", "permission denied"),
        ]
    );
}

#[test]
fn diagnostics_are_ordered_by_path_then_message() {
    let ordered = order_diagnostics(&[
        IndexDiagnostic { path: b"b".to_vec(), message: "2".to_owned() },
        IndexDiagnostic { path: b"a".to_vec(), message: "ambiguous Wikilink target x".to_owned() },
        IndexDiagnostic { path: b"b".to_vec(), message: "1\r".to_owned() },
    ]);
    let entries: Vec<_> = ordered
        .iter()
        .map(|d| (d.code.as_str(), d.path.as_str(), d.message.as_str()))
        .collect();
    assert_eq!(
        entries,
        [("ambiguous_wikilink", "a", "ambiguous Wikilink target x"), ("index", "b", "1 "), ("index", "b", "2")]
    );
}

#[test]
fn walk_entries_skip_private_and_internal_directories() {
    for hidden in [".mg-vault", ".obsidian", "private", ".private", "secrets", ".secrets"] {
        assert_eq!(export_entry(hidden.as_bytes(), true, false), WalkEntry::Skip);
    }
    assert_eq!(export_entry(b"notes", true, false), WalkEntry::Descend);
    assert_eq!(export_entry(b"a.md", false, true), WalkEntry::Include);
    assert_eq!(export_entry(b".md", false, true), WalkEntry::Skip);
    assert_eq!(export_entry(b"a.txt", false, true), WalkEntry::Skip);
    assert_eq!(index_entry(b"private", true, false), WalkEntry::Descend);
    assert_eq!(index_entry(b".obsidian", true, false), WalkEntry::Skip);
    assert_eq!(index_entry(b".mg-vault", true, false), WalkEntry::Skip);
    assert_eq!(index_entry(b"x.md", false, true), WalkEntry::Include);
    assert_eq!(index_entry(b"x.md", false, false), WalkEntry::Skip);
}

#[test]
fn snapshot_identity_names_the_digest_of_the_envelope() {
    let ids = snapshot_identity(b"abc");
    let digest = "ba7816bf8f01cfea414140de5dae2223b00361a396177a9cb410ff61f20015ad";
    assert_eq!(ids.export_id, format!("mg-vault:snapshot:{digest}"));
    assert_eq!(ids.source_revision, format!("sha256:{digest}"));
    assert_eq!(ids.canonical_hash, format!("sha256:{digest}"));
}

#[test]
fn paths_normalize_only_when_utf8() {
    assert_eq!(normalized_path(b"a/b.md"), Some("a/b.md".to_owned()));
    assert_eq!(normalized_path(b"a\xff"), None);
    assert_eq!(diagnostic_path(b"a\xff"), "<non-UTF-8 path>");
    assert_eq!(diagnostic_path(b"dir"), "dir");
}

#[test]
fn export_does_not_depend_on_read_order() {
    let forward = export_snapshot(
        ROOT,
        Vec::new(),
        vec![read("a.md", b"[[b]] [[zz]]"), read("b.md", b"[[a]]"), read("c/d.md", b"x")],
    );
    let backward = export_snapshot(
        ROOT,
        Vec::new(),
        vec![read("c/d.md", b"x"), read("b.md", b"[[a]]"), read("a.md", b"[[b]] [[zz]]")],
    );
    assert_eq!(forward, backward);
}
