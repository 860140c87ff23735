use mg_vault::error::Error;
use mg_vault::index::{IndexDiagnostic, MarkdownIndex, SourceRead};
use mg_vault::present::{
    add_persistent_fallback, add_storage_failure, direct_report, error_code, escape_diagnostic,
    escape_path, escape_text, format_index_human, path_json, path_json_human, search_human, PathJson,
};
use mg_vault::store::Freshness;

#[test]
fn text_escapes_like_escape_default() {
    assert_eq!(escape_text("a\tb\n\"'\\é\u{7f}"), "a\\tb\\n\\\"\\'\\\\\\u{e9}\\u{7f}");
    assert_eq!(escape_text("plain text"), "plain text");
}

#[test]
fn diagnostics_escape_only_control_characters() {
    assert_eq!(escape_diagnostic("line\nbreak\u{1b}[31m é \"q\""), "line\\nbreak\\u{1b}[31m é \"q\"");
}

#[test]
fn paths_escape_per_byte_when_not_utf8() {
    assert_eq!(escape_path(b"a\\b\xff\x01z"), "a\\\\b\\xff\\x01z");
    assert_eq!(escape_path("dir/é.md".as_bytes()), "dir/\\u{e9}.md");
    assert_eq!(path_json(b"ok.md"), PathJson::Text("ok.md".to_owned()));
    assert_eq!(
        path_json(b"\xffa"),
        PathJson::UnixBytes { value: "ff61".to_owned(), display: "\\xffa".to_owned() }
    );
    assert_eq!(path_json_human(&PathJson::Text("a\tb".to_owned())), "a\\tb");
}

#[test]
fn error_codes_are_stable() {
    assert_eq!(error_code(&Error::UnsafePath("x".to_owned())), "unsafe_path");
    assert_eq!(error_code(&Error::NoVaultSelected), "no_vault_selected");
    assert_eq!(error_code(&Error::InvalidTrashEntry("x".to_owned())), "invalid_trash_entry");
}

#[test]
fn index_reports_read_as_one_summary_line_and_diagnostics() {
    let mut index = MarkdownIndex::new();
    index.rebuild(b"/v",
        vec![IndexDiagnostic { path: b"/v/dir".to_vec(), message: "denied\nnow".to_owned() }],
        vec![SourceRead { path: b"a.md".to_vec(), contents: Ok((b"x".to_vec(), b"x".to_vec())) }],
    );
    let report = direct_report(&index, b"/v");
    assert_eq!(report.status, "degraded");
    assert_eq!(report.note_count, 1);
    assert_eq!(
        format_index_human("status", &report),
        "index status: status=degraded generation=1 notes=1 source=authoritative_vault_files \
         freshness=rebuild_snapshot persistence=none\ndegraded: dir: denied\\nnow\n"
    );

    let empty = direct_report(&MarkdownIndex::new(), b"/v");
    assert_eq!(
        format_index_human("status", &empty),
        "index status: status=empty generation=- notes=0 source=authoritative_vault_files \
         freshness=rebuild_snapshot persistence=none\n"
    );
}

#[test]
fn fallbacks_mark_the_report_degraded() {
    let mut index = MarkdownIndex::new();
    index.rebuild(b"/v", Vec::new(), Vec::new());
    let mut report = direct_report(&index, b"/v");
    add_persistent_fallback(&mut report, Some(Freshness::Stale));
    assert_eq!(report.status, "degraded");
    assert!(report.degraded);
    assert_eq!(report.persistent_freshness.as_deref(), Some("stale"));
    assert_eq!(report.diagnostics[0].message, "persistent index is not current");

    let mut other = direct_report(&index, b"/v");
    add_persistent_fallback(&mut other, None);
    assert_eq!(other.storage_error.as_deref(), Some("persistent_index_unavailable"));
    assert_eq!(other.fallback_reason.as_deref(), Some("persistent_index_unavailable"));

    let mut storage = direct_report(&index, b"/v");
    add_storage_failure(&mut storage);
    assert_eq!(
        storage.diagnostics[0].path,
        PathJson::Text(".mg-vault/index.sqlite3".to_owned())
    );
    assert!(storage.fallback_reason.is_none());
}

#[test]
fn search_output_lists_matches_then_the_report() {
    let mut index = MarkdownIndex::new();
    index.rebuild(b"/v", Vec::new(), Vec::new());
    let report = direct_report(&index, b"/v");
    let none = search_human("q\"", &[], &report);
    assert!(none.starts_with("no matches for \"q\\\"\"\nindex search: status=current"));
    let some = search_human("q", &[(b"a\tb.md".to_vec(), "Title".to_owned())], &report);
    assert!(some.starts_with("a\\tb.md\tTitle\nindex search:"));
    assert!(some.ends_with("persistence=none\n"));
}
