use markdown_style::rules::nested_indent::NestedIndent;
use markdown_style::{Document, Span, Violation};

fn fix(source: &str) -> String {
    NestedIndent.fix(&Document::new(source)).unwrap()
}

fn detect(source: &str) -> Vec<Violation> {
    NestedIndent.detect(&Document::new(source))
}

#[test]
fn pulls_an_over_indented_item_under_its_parent() {
    assert_eq!(fix("- a\n    - b\n"), "- a\n  - b\n");
}

#[test]
fn aligns_under_an_ordered_parent() {
    assert_eq!(fix("1. a\n    - b\n"), "1. a\n   - b\n");
}

#[test]
fn moves_the_item_with_its_lines() {
    assert_eq!(fix("- a\n    - b\n      c\n"), "- a\n  - b\n    c\n");
}

#[test]
fn reports_the_item_at_its_marker() {
    let violations = detect("- a\n    - b\n");
    assert_eq!(violations.len(), 1);
    assert_eq!(violations[0].rule_id, "nested-indent");
    assert_eq!(
        violations[0].span,
        Span {
            line: 2,
            column: 5,
            length: 1
        }
    );
}

#[test]
fn leaves_aligned_lists_untouched() {
    for source in ["- a\n  - b\n    - c\n", "1. a\n   - b\n", "- a\n- b\n"] {
        assert!(detect(source).is_empty(), "for {source:?}");
        assert_eq!(fix(source), source);
    }
}
