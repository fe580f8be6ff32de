use markdown_style::rules::heading_style::HeadingStyle;
use markdown_style::{Document, Span, Violation};

fn fix(source: &str) -> String {
    HeadingStyle.fix(&Document::new(source)).unwrap()
}

fn detect(source: &str) -> Vec<Violation> {
    HeadingStyle.detect(&Document::new(source))
}

#[test]
fn rewrites_an_equals_underline_as_a_level_one_heading() {
    assert_eq!(fix("Title\n=====\n\nText.\n"), "# Title\n\nText.\n");
}

#[test]
fn rewrites_a_hyphen_underline_as_a_level_two_heading() {
    assert_eq!(fix("Section\n-------\n\nText.\n"), "## Section\n\nText.\n");
}

#[test]
fn joins_a_heading_over_several_lines() {
    assert_eq!(fix("Long\n  title\n===\n"), "# Long title\n");
}

#[test]
fn reports_the_heading_at_its_first_line() {
    let violations = detect("Intro.\n\nTitle\n=====\n");
    assert_eq!(violations.len(), 1);
    assert_eq!(violations[0].rule_id, "heading-style");
    assert_eq!(
        violations[0].span,
        Span {
            line: 3,
            column: 1,
            length: 1
        }
    );
}

#[test]
fn heading_style_keeps_crlf_line_endings() {
    assert_eq!(fix("Title\r\n=====\r\nText.\r\n"), "# Title\r\nText.\r\n");
}

#[test]
fn leaves_atx_headings_alone() {
    let source = "# Title\n\n## Section\n";
    assert!(detect(source).is_empty());
    assert_eq!(fix(source), source);
}

#[test]
fn leaves_a_thematic_break_alone() {
    let source = "Text.\n\n---\n\nMore.\n";
    assert!(detect(source).is_empty());
    assert_eq!(fix(source), source);
}

#[test]
fn heading_style_handles_an_empty_document() {
    assert!(detect("").is_empty());
    assert_eq!(fix(""), "");
}
