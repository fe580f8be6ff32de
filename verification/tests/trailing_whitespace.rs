use markdown_style::rules::trailing_whitespace::TrailingWhitespace;
use markdown_style::{Document, Span, Violation};

fn fix(source: &str) -> String {
    TrailingWhitespace.fix(&Document::new(source)).unwrap()
}

fn detect(source: &str) -> Vec<Violation> {
    TrailingWhitespace.detect(&Document::new(source))
}

#[test]
fn strips_trailing_spaces_and_tabs() {
    assert_eq!(fix("foo   \n\nbar\t \n"), "foo\n\nbar\n");
}

#[test]
fn reports_the_whole_run_at_its_first_column() {
    let violations = detect("# Title\n\ntext   \n");
    assert_eq!(violations.len(), 1);
    assert_eq!(violations[0].rule_id, "trailing-whitespace");
    assert_eq!(violations[0].message, "trailing whitespace");
    assert_eq!(
        violations[0].span,
        Span {
            line: 3,
            column: 5,
            length: 3
        }
    );
}

#[test]
fn keeps_a_hard_break_of_exactly_two_spaces() {
    let source = "first  \nsecond\n";
    assert!(detect(source).is_empty());
    assert_eq!(fix(source), source);
}

#[test]
fn normalises_a_longer_hard_break_to_two_spaces() {
    assert_eq!(fix("first     \nsecond\n"), "first  \nsecond\n");
    let violations = detect("first     \nsecond\n");
    assert_eq!(violations.len(), 1);
    assert_eq!(
        violations[0].span,
        Span {
            line: 1,
            column: 6,
            length: 5
        }
    );
}

#[test]
fn strips_two_spaces_before_a_blank_line_or_the_end() {
    assert_eq!(fix("text  \n\nmore  \n"), "text\n\nmore\n");
    assert_eq!(detect("text  \n\nmore  \n").len(), 2);
}

#[test]
fn a_tab_in_the_run_still_leaves_two_spaces_for_a_hard_break() {
    assert_eq!(fix("first\t  \nsecond\n"), "first  \nsecond\n");
}

#[test]
fn strips_a_whitespace_only_line() {
    assert_eq!(fix("a\n   \nb\n"), "a\n\nb\n");
}

#[test]
fn strips_inside_code_blocks_too() {
    assert_eq!(fix("```\ncode \t\n```\n"), "```\ncode\n```\n");
}

#[test]
fn trailing_whitespace_keeps_crlf_line_endings() {
    assert_eq!(fix("a \r\nb\t\r\n"), "a\r\nb\r\n");
}

#[test]
fn leaves_a_clean_document_untouched() {
    let source = "# Title\n\nHello world.\n";
    assert!(detect(source).is_empty());
    assert_eq!(fix(source), source);
}

#[test]
fn trailing_whitespace_handles_an_empty_document() {
    assert!(detect("").is_empty());
    assert_eq!(fix(""), "");
}
