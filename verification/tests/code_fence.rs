use markdown_style::rules::code_fence::CodeFence;
use markdown_style::{Document, Span, Violation};

fn fix(source: &str) -> String {
    CodeFence.fix(&Document::new(source)).unwrap()
}

fn detect(source: &str) -> Vec<Violation> {
    CodeFence.detect(&Document::new(source))
}

#[test]
fn converts_a_tilde_fence_to_backticks() {
    assert_eq!(fix("~~~rust\nlet x = 1;\n~~~\n"), "```rust\nlet x = 1;\n```\n");
    assert_eq!(fix("~~~~\ncode\n~~~~~\n"), "````\ncode\n`````\n");
}

#[test]
fn reports_a_tilde_fence_at_its_opening() {
    let violations = detect("Text.\n\n~~~\ncode\n~~~\n");
    assert_eq!(violations.len(), 1);
    assert_eq!(violations[0].rule_id, "code-fence");
    assert_eq!(violations[0].message, "use a backtick fence");
    assert_eq!(
        violations[0].span,
        Span {
            line: 3,
            column: 1,
            length: 1
        }
    );
}

#[test]
fn leaves_a_tilde_fence_holding_a_backtick_fence() {
    let source = "~~~\n```\ninner\n```\n~~~\n";
    assert!(detect(source).is_empty());
    assert_eq!(fix(source), source);
}

#[test]
fn flags_an_indented_code_block_without_rewriting_it() {
    let source = "Text.\n\n    code\n";
    let violations = detect(source);
    assert_eq!(violations.len(), 1);
    assert_eq!(violations[0].message, "use a fenced code block, not indentation");
    assert_eq!(fix(source), source);
}

#[test]
fn leaves_backtick_fences_untouched() {
    let source = "```\ncode\n```\n";
    assert!(detect(source).is_empty());
    assert_eq!(fix(source), source);
}
