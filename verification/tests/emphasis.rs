use markdown_style::rules::emphasis::Emphasis;
use markdown_style::{Document, Span, Violation};

fn fix(source: &str) -> String {
    Emphasis.fix(&Document::new(source)).unwrap()
}

fn detect(source: &str) -> Vec<Violation> {
    Emphasis.detect(&Document::new(source))
}

#[test]
fn marks_emphasis_with_underscores() {
    assert_eq!(fix("Some *emphasis* here.\n"), "Some _emphasis_ here.\n");
}

#[test]
fn marks_strong_with_asterisks() {
    assert_eq!(fix("Some __strong__ here.\n"), "Some **strong** here.\n");
}

#[test]
fn reports_the_opening_delimiter() {
    let violations = detect("Some *emphasis* here.\n");
    assert_eq!(violations.len(), 1);
    assert_eq!(violations[0].rule_id, "emphasis");
    assert_eq!(violations[0].message, "use _ for emphasis");
    assert_eq!(
        violations[0].span,
        Span {
            line: 1,
            column: 6,
            length: 1
        }
    );
}

#[test]
fn leaves_emphasis_inside_a_word_alone() {
    let source = "un*frigging*believable\n";
    assert!(detect(source).is_empty());
    assert_eq!(fix(source), source);
}

#[test]
fn leaves_the_preferred_markers_untouched() {
    let source = "Some _emphasis_ and **strong** text.\n";
    assert!(detect(source).is_empty());
    assert_eq!(fix(source), source);
}
