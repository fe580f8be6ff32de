use markdown_style::rules::ordered_list::OrderedList;
use markdown_style::{Document, Span, Violation};

fn fix(source: &str) -> String {
    OrderedList.fix(&Document::new(source)).unwrap()
}

fn detect(source: &str) -> Vec<Violation> {
    OrderedList.detect(&Document::new(source))
}

#[test]
fn renumbers_a_list_out_of_sequence() {
    assert_eq!(fix("1. a\n3. b\n2. c\n"), "1. a\n2. b\n3. c\n");
}

#[test]
fn keeps_the_start_number_and_delimiter() {
    assert_eq!(fix("2) a\n5) b\n9) c\n"), "2) a\n3) b\n4) c\n");
}

#[test]
fn widens_a_number_that_needs_more_digits() {
    assert_eq!(fix("8. a\n9. b\n12. c\n"), "8. a\n9. b\n10. c\n");
}

#[test]
fn reports_each_item_it_renumbers() {
    let violations = detect("1. a\n3. b\n3. c\n");
    assert_eq!(violations.len(), 1);
    assert_eq!(violations[0].rule_id, "ordered-list");
    assert_eq!(
        violations[0].span,
        Span {
            line: 2,
            column: 1,
            length: 1
        }
    );
}

#[test]
fn leaves_counting_and_repeating_lists_alone() {
    for source in ["1. a\n2. b\n3. c\n", "1. a\n1. b\n1. c\n", "4. a\n5. b\n", "- a\n- b\n"] {
        assert!(detect(source).is_empty(), "for {source:?}");
        assert_eq!(fix(source), source);
    }
}

#[test]
fn numbers_each_nested_list_on_its_own() {
    assert_eq!(
        fix("1. a\n   1. x\n   5. y\n2. b\n"),
        "1. a\n   1. x\n   2. y\n2. b\n"
    );
}
