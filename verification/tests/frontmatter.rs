use mg_vault::frontmatter::{scan_frontmatter, FrontmatterError, LineEndings};

#[test]
fn locates_lf_yaml_and_body_without_changing_offsets() {
    let source = "---\ntitle: Old\nunknown:  keep\n---\n# Body\n";
    let envelope = scan_frontmatter(source).unwrap().unwrap();

    assert_eq!(&source[envelope.yaml_range()], "title: Old\nunknown:  keep\n");
    assert_eq!(&source[envelope.body_range()], "# Body\n");
    assert_eq!(envelope.line_endings(), LineEndings::Lf);
}

#[test]
fn locates_crlf_yaml_and_body_without_normalization() {
    let source = "---\r\ntitle: Old\r\n---\r\nBody\r\n";
    let envelope = scan_frontmatter(source).unwrap().unwrap();

    assert_eq!(&source[envelope.yaml_range()], "title: Old\r\n");
    assert_eq!(&source[envelope.body_range()], "Body\r\n");
    assert_eq!(envelope.line_endings(), LineEndings::CrLf);
}

#[test]
fn reports_mixed_line_endings_without_normalization() {
    let source = "---\r\ntitle: Old\n---\r\nBody";
    let envelope = scan_frontmatter(source).unwrap().unwrap();

    assert_eq!(&source[envelope.yaml_range()], "title: Old\n");
    assert_eq!(&source[envelope.body_range()], "Body");
    assert_eq!(envelope.line_endings(), LineEndings::Mixed);
}

#[test]
fn ignores_non_delimiter_lines_and_leading_whitespace() {
    assert_eq!(scan_frontmatter(" ---\ntitle: Old\n---\n").unwrap(), None);
    assert_eq!(scan_frontmatter("---not yaml\nbody\n").unwrap(), None);
}

#[test]
fn delimiter_like_yaml_lines_do_not_close_the_envelope() {
    let source = "---\nvalue: ---x\n---\nbody";
    let envelope = scan_frontmatter(source).unwrap().unwrap();

    assert_eq!(&source[envelope.yaml_range()], "value: ---x\n");
    assert_eq!(&source[envelope.body_range()], "body");
}

#[test]
fn accepts_a_closing_delimiter_at_end_of_file() {
    let source = "---\ntitle: Old\n---";
    let envelope = scan_frontmatter(source).unwrap().unwrap();

    assert_eq!(&source[envelope.yaml_range()], "title: Old\n");
    assert_eq!(&source[envelope.body_range()], "");
}

#[test]
fn rejects_bom_and_unclosed_envelopes() {
    assert_eq!(
        scan_frontmatter("\u{feff}---\ntitle: Old\n---\n"),
        Err(FrontmatterError::UnsupportedBom)
    );
    assert_eq!(
        scan_frontmatter("---\ntitle: Old\nbody"),
        Err(FrontmatterError::Unclosed)
    );
    assert_eq!(scan_frontmatter("---"), Err(FrontmatterError::Unclosed));
}

#[test]
fn envelope_spans_cover_the_source_in_order() {
    let source = "---\na: 1\n---\r\nrest";
    let envelope = scan_frontmatter(source).unwrap().unwrap();
    assert_eq!(envelope.yaml_start, 4);
    assert_eq!(envelope.yaml_end, 9);
    assert_eq!(envelope.body_start, 14);
    assert_eq!(envelope.body_end, source.len());
    assert_eq!(envelope.line_endings(), LineEndings::Mixed);
}

#[test]
fn crlf_delimiter_closes_an_envelope_opened_with_crlf() {
    let source = "---\r\n---\r\n";
    let envelope = scan_frontmatter(source).unwrap().unwrap();
    assert_eq!(&source[envelope.yaml_range()], "");
    assert_eq!(&source[envelope.body_range()], "");
    assert_eq!(envelope.line_endings(), LineEndings::CrLf);
}

#[test]
fn text_without_an_opening_delimiter_has_no_frontmatter() {
    assert_eq!(scan_frontmatter("").unwrap(), None);
    assert_eq!(scan_frontmatter("# Title\n---\n").unwrap(), None);
    assert_eq!(scan_frontmatter("--\n").unwrap(), None);
}

#[test]
fn frontmatter_error_messages_name_the_problem() {
    assert_eq!(FrontmatterError::UnsupportedBom.message(), "UTF-8 BOM before frontmatter is not supported");
    assert_eq!(FrontmatterError::Unclosed.message(), "frontmatter opening delimiter has no closing delimiter");
}
