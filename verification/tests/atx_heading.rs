use markdown_style::rules::atx_heading::AtxHeading;
use markdown_style::{Document, Span, Violation};

fn fix(source: &str) -> String {
    AtxHeading.fix(&Document::new(source)).unwrap()
}

fn detect(source: &str) -> Vec<Violation> {
    AtxHeading.detect(&Document::new(source))
}

#[test]
fn collapses_spaces_after_the_marker() {
    assert_eq!(fix("#   Title\n"), "# Title\n");
}

#[test]
fn drops_a_closing_sequence() {
    assert_eq!(fix("## Section ##\n"), "## Section\n");
    assert_eq!(fix("# Title #####   \n"), "# Title\n");
}

#[test]
fn keeps_a_hash_that_is_part_of_the_text() {
    let source = "# C#\n";
    assert!(detect(source).is_empty());
    assert_eq!(fix(source), source);
}

#[test]
fn reports_the_heading_at_its_marker() {
    let violations = detect("text\n\n> ##  Quoted\n");
    assert_eq!(violations.len(), 1);
    assert_eq!(violations[0].rule_id, "atx-heading");
    assert_eq!(
        violations[0].span,
        Span {
            line: 3,
            column: 3,
            length: 1
        }
    );
    assert_eq!(fix("text\n\n> ##  Quoted\n"), "text\n\n> ## Quoted\n");
}

#[test]
fn an_empty_heading_is_its_marker() {
    assert_eq!(fix("# #\n"), "#\n");
}

#[test]
fn leaves_canonical_headings_untouched() {
    let source = "# Title\n\n## Section\n";
    assert!(detect(source).is_empty());
    assert_eq!(fix(source), source);
}
