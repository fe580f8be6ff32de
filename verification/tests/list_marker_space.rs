use markdown_style::rules::list_marker_space::ListMarkerSpace;
use markdown_style::{Document, Span, Violation};

fn fix(source: &str) -> String {
    ListMarkerSpace.fix(&Document::new(source)).unwrap()
}

fn detect(source: &str) -> Vec<Violation> {
    ListMarkerSpace.detect(&Document::new(source))
}

#[test]
fn collapses_a_wide_gap_after_a_bullet() {
    assert_eq!(fix("-   one\n-  two\n"), "- one\n- two\n");
}

#[test]
fn collapses_a_wide_gap_after_a_number() {
    assert_eq!(fix("1.  one\n2.   two\n"), "1. one\n2. two\n");
}

#[test]
fn reports_the_extra_spaces() {
    let violations = detect("text\n\n-   one\n");
    assert_eq!(violations.len(), 1);
    assert_eq!(violations[0].rule_id, "list-marker-space");
    assert_eq!(
        violations[0].span,
        Span {
            line: 3,
            column: 3,
            length: 2
        }
    );
}

#[test]
fn leaves_code_inside_an_item_alone() {
    let source = "-      code\n";
    assert!(detect(source).is_empty());
    assert_eq!(fix(source), source);
}

#[test]
fn leaves_single_spaced_items_untouched() {
    let source = "- one\n  - two\n1. three\n";
    assert!(detect(source).is_empty());
    assert_eq!(fix(source), source);
}
