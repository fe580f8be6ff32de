use markdown_style::rules::line_endings::LineEndings;
use markdown_style::{Document, Span, Violation};

fn fix(source: &str) -> String {
    LineEndings.fix(&Document::new(source)).unwrap()
}

fn detect(source: &str) -> Vec<Violation> {
    LineEndings.detect(&Document::new(source))
}

#[test]
fn leaves_a_wholly_lf_file_untouched() {
    let clean = "alpha\nbravo\ncharlie\n";
    assert_eq!(fix(clean), clean);
    assert!(detect(clean).is_empty());
}

#[test]
fn leaves_a_wholly_crlf_file_untouched() {
    let clean = "alpha\r\nbravo\r\ncharlie\r\n";
    assert_eq!(fix(clean), clean);
    assert!(detect(clean).is_empty());
}

#[test]
fn rewrites_a_lone_crlf_in_a_mostly_lf_file() {
    assert_eq!(fix("alpha\nbravo\r\ncharlie\n"), "alpha\nbravo\ncharlie\n");
}

#[test]
fn rewrites_a_lone_lf_in_a_mostly_crlf_file() {
    assert_eq!(
        fix("alpha\r\nbravo\ncharlie\r\n"),
        "alpha\r\nbravo\r\ncharlie\r\n"
    );
}

#[test]
fn reports_the_minority_line_with_a_span() {
    let violations = detect("alpha\nbravo\r\ncharlie\n");
    assert_eq!(violations.len(), 1);
    assert_eq!(violations[0].rule_id, "line-endings");
    assert_eq!(
        violations[0].span,
        Span {
            line: 2,
            column: 6,
            length: 1
        }
    );
}

#[test]
fn names_both_styles_in_the_message() {
    let violations = detect("alpha\nbravo\r\ncharlie\n");
    assert_eq!(
        violations[0].message,
        "CRLF line ending in a file that mostly uses LF"
    );

    let violations = detect("alpha\r\nbravo\ncharlie\r\n");
    assert_eq!(
        violations[0].message,
        "LF line ending in a file that mostly uses CRLF"
    );
}

#[test]
fn reports_every_minority_line() {
    let violations = detect("alpha\r\nbravo\ncharlie\ndelta\n");
    assert_eq!(violations.len(), 1);
    assert_eq!(violations[0].span.line, 1);
}

#[test]
fn settles_a_tie_towards_lf() {
    assert_eq!(fix("alpha\r\nbravo\n"), "alpha\nbravo\n");
}

#[test]
fn leaves_a_final_line_without_a_terminator_alone() {
    assert_eq!(fix("alpha\nbravo"), "alpha\nbravo");
    assert_eq!(fix("alpha\r\nbravo"), "alpha\r\nbravo");
}

#[test]
fn handles_a_document_with_no_line_endings_at_all() {
    assert_eq!(fix("alpha"), "alpha");
    assert!(detect("alpha").is_empty());
}

#[test]
fn line_endings_handles_an_empty_document() {
    assert_eq!(fix(""), "");
    assert!(detect("").is_empty());
}

#[test]
fn counts_blank_lines_towards_the_majority() {
    // The blank lines are CRLF, so the single LF line is the minority even
    // though the lines with text are evenly split.
    assert_eq!(
        fix("alpha\n\r\n\r\nbravo\r\n"),
        "alpha\r\n\r\n\r\nbravo\r\n"
    );
}

#[test]
fn a_fixed_file_has_consistent_endings() {
    let fixed = fix("a\r\nb\r\nc\nd\r\n");
    assert_eq!(fixed, "a\r\nb\r\nc\r\nd\r\n");
    assert!(detect(&fixed).is_empty());
    assert_eq!(fix(&fixed), fixed);
}

#[test]
fn a_crlf_line_whose_text_ends_in_a_carriage_return_is_fixed_in_one_pass() {
    let once = fix("a\r\r\nb\nc\n");
    assert_eq!(once, "a\nb\nc\n");
    assert!(detect(&once).is_empty());
    assert_eq!(fix(&once), once);
}
