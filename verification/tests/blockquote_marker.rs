use markdown_style::rules::blockquote_marker::BlockquoteMarker;
use markdown_style::{Document, Span, Violation};

fn fix(source: &str) -> String {
    BlockquoteMarker.fix(&Document::new(source)).unwrap()
}

fn detect(source: &str) -> Vec<Violation> {
    BlockquoteMarker.detect(&Document::new(source))
}

#[test]
fn puts_a_space_after_a_marker() {
    assert_eq!(fix(">Quote\n>more\n"), "> Quote\n> more\n");
}

#[test]
fn spaces_every_nested_marker() {
    assert_eq!(fix(">>Nested\n"), "> > Nested\n");
}

#[test]
fn reports_each_line_it_changes() {
    let violations = detect("Text.\n\n>Quote\n> fine\n");
    assert_eq!(violations.len(), 1);
    assert_eq!(violations[0].rule_id, "blockquote-marker");
    assert_eq!(
        violations[0].span,
        Span {
            line: 3,
            column: 1,
            length: 1
        }
    );
}

#[test]
fn leaves_deeper_indentation_as_content() {
    let source = ">  Two spaces\n";
    assert!(detect(source).is_empty());
    assert_eq!(fix(source), source);
}

#[test]
fn leaves_a_marker_inside_quoted_code_alone() {
    let source = "> ```\n> >code\n> ```\n";
    assert!(detect(source).is_empty());
    assert_eq!(fix(source), source);
}

#[test]
fn leaves_a_lazy_continuation_alone() {
    let source = "> a\nb\n";
    assert!(detect(source).is_empty());
    assert_eq!(fix(source), source);
}
