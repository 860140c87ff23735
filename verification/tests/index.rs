use mg_vault::index::{title_for, wikilinks, IndexDiagnostic, IndexStatus, MarkdownIndex, SourceRead};

fn observed(path: &str, bytes: &[u8]) -> SourceRead {
    SourceRead {
        path: path.as_bytes().to_vec(),
        contents: Ok((bytes.to_vec(), bytes.to_vec())),
    }
}

#[test]
fn rebuild_extracts_notes_titles_text_and_wikilinks() {
    let mut index = MarkdownIndex::new();
    assert_eq!(index.status(), &IndexStatus::Empty);
    index.rebuild(b"/v",
        Vec::new(),
        vec![
            observed(
                "zeta.md",
                b"---\ntitle: Zed\nunknown: [preserve]\n---\nBody [[Alpha|alias]] and [[Beta#Heading]].\n",
            ),
            observed("nested/alpha.md", b"# Alpha\nplain text\n"),
        ],
    );

    assert_eq!(index.status(), &IndexStatus::Current { generation: 1 });
    assert_eq!(index.notes().len(), 2);
    assert_eq!(String::from_utf8_lossy(&index.notes()[1].path), "zeta.md");
    assert_eq!(index.notes()[1].title, "Zed");
    assert!(index.notes()[1].text.contains("unknown: [preserve]"));
    assert_eq!(index.notes()[1].outgoing_links, ["Alpha", "Beta#Heading"]);
}

#[test]
fn rebuild_is_authoritative_for_changed_and_deleted_sources() {
    let mut index = MarkdownIndex::new();
    index.rebuild(b"/v", Vec::new(), vec![observed("old.md", b"old needle"), observed("changed.md", b"before")]);

    index.rebuild(b"/v", Vec::new(), vec![observed("changed.md", b"new needle")]);

    assert_eq!(index.status(), &IndexStatus::Current { generation: 2 });
    assert!(index.notes().iter().all(|note| note.path != b"old.md"));
    assert!(index.search("before").is_empty());
    assert_eq!(index.search("new needle")[0].path, b"changed.md");
}

#[test]
fn search_order_is_deterministic_and_case_insensitive() {
    let mut index = MarkdownIndex::new();
    index.rebuild(b"/v", Vec::new(), vec![observed("b.md", b"needle"), observed("a.md", b"NEEDLE")]);

    let paths: Vec<_> = index
        .search("Needle")
        .into_iter()
        .map(|note| String::from_utf8_lossy(&note.path).into_owned())
        .collect();
    assert_eq!(paths, ["a.md", "b.md"]);
}

#[test]
fn malformed_markdown_is_indexed_without_rewriting_source() {
    let source = b"---\ntitle: [broken\n---\n# Still searchable\nunknown [[Target]] syntax\n";
    let mut index = MarkdownIndex::new();
    index.rebuild(b"/v", Vec::new(), vec![observed("odd.md", source)]);

    assert!(matches!(index.status(), IndexStatus::Current { .. }));
    assert_eq!(index.notes()[0].text.as_bytes(), source);
    assert_eq!(index.search("still searchable")[0].path, b"odd.md");
}

#[test]
fn empty_vault_is_current_after_rebuild() {
    let mut index = MarkdownIndex::new();
    index.rebuild(b"/v", Vec::new(), Vec::new());
    assert_eq!(index.status(), &IndexStatus::Current { generation: 1 });
    assert!(index.notes().is_empty());
    assert!(index.search("anything").is_empty());
}

#[test]
fn unreadable_utf8_source_is_reported_as_degraded_without_stale_results() {
    let mut index = MarkdownIndex::new();
    index.rebuild(b"/v", Vec::new(), vec![observed("good.md", b"good"), observed("bad.md", b"valid\xffbytes")]);

    assert!(
        matches!(index.status(), IndexStatus::Degraded { generation: 1, errors } if errors.len() == 1)
    );
    assert_eq!(index.notes().len(), 1);
    assert!(index.search("valid").is_empty());
}

#[test]
fn walk_errors_and_changing_sources_degrade_the_projection() {
    let mut index = MarkdownIndex::new();
    index.rebuild(b"/v",
        vec![IndexDiagnostic { path: b"locked".to_vec(), message: "permission denied".to_owned() }],
        vec![SourceRead { path: b"moving.md".to_vec(), contents: Ok((b"a".to_vec(), b"b".to_vec())) }],
    );
    match index.status() {
        IndexStatus::Degraded { generation, errors } => {
            assert_eq!(*generation, 1);
            assert_eq!(errors.len(), 2);
            assert_eq!(errors[0].path, b"locked");
            assert_eq!(errors[1].path, b"/v/moving.md");
            assert_eq!(errors[1].message, "source changed during indexing; retry rebuild");
        }
        other => panic!("unexpected status {other:?}"),
    }
    assert!(index.notes().is_empty());
}

#[test]
fn generations_count_rebuilds() {
    let mut index = MarkdownIndex::new();
    index.rebuild(b"/v", Vec::new(), Vec::new());
    index.rebuild(b"/v", Vec::new(), vec![observed("x.md", b"\xff")]);
    index.rebuild(b"/v", Vec::new(), Vec::new());
    assert_eq!(index.status(), &IndexStatus::Current { generation: 3 });
}

#[test]
fn notes_are_ordered_by_path_components() {
    let mut index = MarkdownIndex::new();
    index.rebuild(b"/v", Vec::new(), vec![observed("a-b.md", b"1"), observed("a/b.md", b"2"), observed("a.md", b"3")]);
    let paths: Vec<_> = index.notes().iter().map(|n| String::from_utf8_lossy(&n.path).into_owned()).collect();
    assert_eq!(paths, ["a/b.md", "a-b.md", "a.md"]);
}

#[test]
fn wikilinks_take_the_text_before_a_pipe_and_skip_empty_targets() {
    assert_eq!(wikilinks("[[ a |b]] [[]] [[ | x]] [[c#d]] [[open"), ["a", "c#d"]);
    assert!(wikilinks("no links").is_empty());
}

#[test]
fn titles_come_from_frontmatter_then_heading_then_file_stem() {
    assert_eq!(title_for("---\ntitle: \"Quoted\"\n---\n# Heading\n", b"n.md"), "Quoted");
    assert_eq!(title_for("intro\n#  Heading  \n", b"n.md"), "Heading");
    assert_eq!(title_for("#\n# \nno heading", b"dir/some.name.md"), "some.name");
    assert_eq!(title_for("---\ntitle: \"\"\n---\n", b"dir/x.md"), "");
    assert_eq!(title_for("---\ntitle:\n---\n", b"dir/x.md"), "x");
}
