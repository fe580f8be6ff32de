use markdown_style::rules::block_spacing::BlockSpacing;
use markdown_style::{Document, Violation};

fn fix(source: &str) -> String {
    BlockSpacing.fix(&Document::new(source)).unwrap()
}

fn detect(source: &str) -> Vec<Violation> {
    BlockSpacing.detect(&Document::new(source))
}

#[test]
fn collapses_extra_blank_lines_between_paragraphs() {
    assert_eq!(fix("a\n\n\n\nb\n"), "a\n\nb\n");
}

#[test]
fn uses_two_blank_lines_before_a_heading_after_text() {
    assert_eq!(fix("text\n\n## H\n"), "text\n\n\n## H\n");
    let violations = detect("text\n\n## H\n");
    assert_eq!(violations.len(), 1);
    assert_eq!(
        violations[0].message,
        "use two blank lines before this heading"
    );
}

#[test]
fn uses_one_blank_line_before_a_heading_after_a_heading() {
    assert_eq!(fix("# A\n\n\n## B\n"), "# A\n\n## B\n");
}

#[test]
fn uses_one_blank_line_after_a_heading() {
    assert_eq!(fix("# A\ntext\n"), "# A\n\ntext\n");
}

#[test]
fn removes_blank_lines_at_the_top_of_the_file() {
    assert_eq!(fix("\n\n# A\n"), "# A\n");
    let violations = detect("\n\n# A\n");
    assert_eq!(violations.len(), 1);
    assert_eq!(
        violations[0].message,
        "remove the blank lines before the first line"
    );
}

#[test]
fn preserves_blank_lines_inside_a_code_block() {
    let source = "```\n\n\ncode\n```\n\n\ntext\n";
    assert_eq!(fix(source), "```\n\n\ncode\n```\n\ntext\n");
}

#[test]
fn preserves_a_link_reference_definition_between_blocks() {
    // The link definition has no block node, so its gap is not all-blank and
    // must be copied verbatim rather than dropped.
    let source = "text\n\n[id]: https://example.com\n\n## H\n";
    assert!(fix(source).contains("[id]: https://example.com"));
}

#[test]
fn leaves_a_correctly_spaced_document_untouched() {
    let clean = "# A\n\ntext\n\n\n## B\n\nmore\n";
    assert_eq!(fix(clean), clean);
    assert!(detect(clean).is_empty());
}

#[test]
fn block_spacing_preserves_crlf_line_endings() {
    assert_eq!(fix("a\r\n\r\n\r\n\r\nb\r\n"), "a\r\n\r\nb\r\n");
}

#[test]
fn keeps_every_line_with_text_in_order() {
    let source = "\n\n# A\ntext\n\n\n\nmore\n[x]: http://y\n\n## B\n";
    let with_text = |s: &str| {
        s.lines()
            .filter(|line| !line.trim().is_empty())
            .map(str::to_string)
            .collect::<Vec<String>>()
    };
    let fixed = fix(source);
    assert_ne!(fixed, source);
    assert_eq!(with_text(&fixed), with_text(source));
}
