use markdown_style::rules::list_marker::ListMarker;
use markdown_style::{Document, Span, Violation};

fn fix(source: &str) -> String {
    ListMarker.fix(&Document::new(source)).unwrap()
}

fn detect(source: &str) -> Vec<Violation> {
    ListMarker.detect(&Document::new(source))
}

#[test]
fn replaces_asterisk_and_plus_markers() {
    assert_eq!(fix("* a\n* b\n"), "- a\n- b\n");
    assert_eq!(fix("+ a\n"), "- a\n");
}

#[test]
fn reports_each_marker_where_it_stands() {
    let violations = detect("text\n\n* a\n  + b\n");
    assert_eq!(violations.len(), 2);
    assert_eq!(violations[0].rule_id, "list-marker");
    assert_eq!(
        violations[1].span,
        Span {
            line: 4,
            column: 3,
            length: 1
        }
    );
}

#[test]
fn rewrites_nested_and_quoted_items() {
    assert_eq!(fix("- a\n  * b\n"), "- a\n  - b\n");
    assert_eq!(fix("> * quoted\n"), "> - quoted\n");
}

#[test]
fn leaves_ordered_items_emphasis_and_rules_alone() {
    for source in ["1. a\n2. b\n", "*em* text\n", "* * *\n", "- a\n- b\n"] {
        assert!(detect(source).is_empty(), "for {source:?}");
        assert_eq!(fix(source), source);
    }
}

#[test]
fn list_marker_keeps_crlf_line_endings() {
    assert_eq!(fix("* a\r\n* b\r\n"), "- a\r\n- b\r\n");
}
