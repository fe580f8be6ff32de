use markdown_style::rules::heading_increment::HeadingIncrement;
use markdown_style::rules::single_h1::SingleH1;
use markdown_style::{default_rules, lint, Document, Span, Rule};

#[test]
fn flags_a_skipped_heading_level() {
    let doc = Document::new("# A\n\n### C\n");
    let violations = HeadingIncrement.detect(&doc);
    assert_eq!(violations.len(), 1);
    assert_eq!(violations[0].rule_id, "heading-increment");
    assert_eq!(
        violations[0].span,
        Span {
            line: 3,
            column: 1,
            length: 1
        }
    );
}

#[test]
fn allows_one_level_at_a_time_and_any_step_back() {
    let doc = Document::new("# A\n\n## B\n\n### C\n\n## D\n\n# E\n");
    assert!(HeadingIncrement.detect(&doc).is_empty());
}

#[test]
fn reads_the_level_of_a_setext_heading() {
    let doc = Document::new("Title\n=====\n\n### C\n");
    assert_eq!(HeadingIncrement.detect(&doc).len(), 1);
}

#[test]
fn flags_every_top_level_heading_after_the_first() {
    let doc = Document::new("# A\n\ntext\n\n# B\n\n## C\n\n# D\n");
    let violations = SingleH1.detect(&doc);
    let lines: Vec<usize> = violations.iter().map(|v| v.span.line).collect();
    assert_eq!(lines, vec![5, 9]);
    assert!(violations.iter().all(|v| v.rule_id == "single-h1"));
}

#[test]
fn a_document_with_one_title_is_clean() {
    let doc = Document::new("# A\n\n## B\n");
    assert!(SingleH1.detect(&doc).is_empty());
}

#[test]
fn flag_only_rules_never_rewrite() {
    let doc = Document::new("# A\n\n### C\n\n# D\n");
    assert!(HeadingIncrement.fix(&doc).is_none());
    assert!(SingleH1.fix(&doc).is_none());
    let rules = default_rules();
    let flags: Vec<&Rule> = rules
        .iter()
        .filter(|rule| rule.id() == "heading-increment" || rule.id() == "single-h1")
        .collect();
    assert_eq!(flags.len(), 2);
    let ids: Vec<&str> = lint(&doc, &rules).iter().map(|v| v.rule_id).collect();
    assert_eq!(ids, vec!["heading-increment", "single-h1"]);
    assert_eq!(markdown_style::format("# A\n\n### C\n\n# D\n", &rules), "# A\n\n### C\n\n# D\n");
}
