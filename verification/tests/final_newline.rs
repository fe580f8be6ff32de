use markdown_style::rules::final_newline::FinalNewline;
use markdown_style::{Document, Span, Violation};

fn fix(source: &str) -> String {
    FinalNewline.fix(&Document::new(source)).unwrap()
}

fn detect(source: &str) -> Vec<Violation> {
    FinalNewline.detect(&Document::new(source))
}

#[test]
fn adds_a_missing_final_newline() {
    assert_eq!(fix("foo"), "foo\n");
    let violations = detect("foo");
    assert_eq!(violations.len(), 1);
    assert_eq!(violations[0].message, "file does not end with a newline");
    assert_eq!(
        violations[0].span,
        Span {
            line: 1,
            column: 4,
            length: 0
        }
    );
}

#[test]
fn collapses_multiple_trailing_blank_lines_to_one() {
    assert_eq!(fix("foo\n\n\n"), "foo\n\n");
    let violations = detect("foo\n\n\n");
    assert_eq!(violations.len(), 1);
    assert_eq!(violations[0].message, "file ends with extra blank lines");
}

#[test]
fn allows_a_single_trailing_blank_line() {
    assert_eq!(fix("foo\n\n"), "foo\n\n");
    assert!(detect("foo\n\n").is_empty());
}

#[test]
fn cleans_a_trailing_whitespace_only_line_but_keeps_one_blank() {
    assert_eq!(fix("foo\n   \n"), "foo\n\n");
}

#[test]
fn leaves_a_single_trailing_newline() {
    assert_eq!(fix("foo\n"), "foo\n");
    assert!(detect("foo\n").is_empty());
}

#[test]
fn ignores_trailing_whitespace_on_the_final_content_line() {
    assert_eq!(fix("foo   \n"), "foo   \n");
    assert!(detect("foo   \n").is_empty());
}

#[test]
fn leaves_an_empty_file_empty() {
    assert_eq!(fix(""), "");
    assert!(detect("").is_empty());
}

#[test]
fn preserves_crlf_when_adding_a_newline() {
    assert_eq!(fix("foo\r\nbar"), "foo\r\nbar\r\n");
}

#[test]
fn collapses_trailing_crlf_blank_lines_to_one() {
    assert_eq!(fix("foo\r\n\r\n\r\n"), "foo\r\n\r\n");
}

#[test]
fn a_fixed_file_is_fixed_for_good() {
    let once = fix("a\r\nb\r\n\r\n\r\n");
    assert_eq!(once, "a\r\nb\r\n\r\n");
    assert_eq!(fix(&once), once);
    assert!(detect(&once).is_empty());
}

#[test]
fn dropping_blank_lines_can_shift_the_majority_ending() {
    let once = fix("a\r\nb\r\n\n\n\n");
    assert_eq!(once, "a\r\nb\r\n\n");
    assert_eq!(fix(&once), "a\r\nb\r\n\r\n");
}

#[test]
fn a_newline_added_after_a_carriage_return_replaces_it() {
    assert_eq!(fix("x\na\r"), "x\na\n");
    assert_eq!(fix(&fix("x\na\r")), "x\na\n");
}
