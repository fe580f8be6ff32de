use markdown_style::rules::continuation_indent::ContinuationIndent;
use markdown_style::{Document, Span, Violation};

fn detect(source: &str) -> Vec<Violation> {
    ContinuationIndent.detect(&Document::new(source))
}

#[test]
fn flags_a_lazy_line_in_a_list_item() {
    let violations = detect("- item text\ncontinues lazily\n");
    assert_eq!(violations.len(), 1);
    assert_eq!(violations[0].rule_id, "continuation-indent");
    assert_eq!(
        violations[0].span,
        Span {
            line: 2,
            column: 1,
            length: 1
        }
    );
}

#[test]
fn flags_a_lazy_line_in_a_blockquote() {
    let violations = detect("> quoted text\nlazy line\n");
    let lines: Vec<usize> = violations.iter().map(|v| v.span.line).collect();
    assert_eq!(lines, vec![2]);
}

#[test]
fn accepts_lines_that_reach_the_text() {
    for source in ["- item text\n  continues\n", "> quote\n> more\n", "Plain\ntext\n", "1. one\n   two\n"] {
        assert!(detect(source).is_empty(), "for {source:?}");
    }
}

#[test]
fn never_rewrites() {
    assert!(ContinuationIndent.fix(&Document::new("- a\nb\n")).is_none());
}
