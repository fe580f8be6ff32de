use markdown_style::rules::hard_tabs::HardTabs;
use markdown_style::{Document, Span, Violation};

fn fix(source: &str) -> String {
    HardTabs.fix(&Document::new(source)).unwrap()
}

fn detect(source: &str) -> Vec<Violation> {
    HardTabs.detect(&Document::new(source))
}

#[test]
fn expands_tabs_to_four_column_stops() {
    assert_eq!(fix("a\tb\n"), "a   b\n");
    assert_eq!(fix("abcd\te\n"), "abcd    e\n");
    assert_eq!(fix("x\t\ty\n"), "x       y\n");
}

#[test]
fn reports_a_line_at_its_first_tab() {
    let violations = detect("text\nab\tc\td\n");
    assert_eq!(violations.len(), 1);
    assert_eq!(violations[0].rule_id, "hard-tabs");
    assert_eq!(violations[0].message, "hard tab");
    assert_eq!(
        violations[0].span,
        Span {
            line: 2,
            column: 3,
            length: 1
        }
    );
}

#[test]
fn leaves_tabs_inside_a_fenced_code_block() {
    let source = "```\n\tcode\n```\n\nText\there.\n";
    assert_eq!(fix(source), "```\n\tcode\n```\n\nText    here.\n");
    assert_eq!(detect(source).len(), 1);
}

#[test]
fn leaves_a_document_without_tabs_untouched() {
    let source = "# Title\n\n- item\n";
    assert!(detect(source).is_empty());
    assert_eq!(fix(source), source);
}

#[test]
fn hard_tabs_keeps_crlf_line_endings() {
    assert_eq!(fix("a\tb\r\n"), "a   b\r\n");
}
