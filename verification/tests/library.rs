use markdown_style::{default_rules, lint, Document};

#[test]
fn lint_runs_the_default_rules() {
    let doc = Document::new("foo   \n");
    let violations = lint(&doc, &default_rules());
    assert_eq!(violations.len(), 1);
    assert_eq!(violations[0].rule_id, "trailing-whitespace");
}

#[test]
fn format_applies_several_fixers_together() {
    let source = "Title\n=====\n\nHello   world  \n";
    assert_eq!(
        markdown_style::format(source, &default_rules()),
        "# Title\n\nHello   world\n"
    );
}

#[test]
fn format_strips_a_byte_order_mark_before_anything_rewrites_the_line() {
    // Rewriting the setext heading must not carry the mark past the `# `.
    let source = "\u{feff}Title\n=====\n\nAlpha one.\n";
    assert_eq!(
        markdown_style::format(source, &default_rules()),
        "# Title\n\nAlpha one.\n"
    );
}

#[test]
fn format_leaves_a_clean_document_untouched() {
    let clean = "# Title\n\nHello world\n";
    assert_eq!(markdown_style::format(clean, &default_rules()), clean);
}

#[test]
fn format_is_idempotent() {
    let source = "Title\n=====\n\nHello   world  \n\n\n";
    let once = markdown_style::format(source, &default_rules());
    let twice = markdown_style::format(&once, &default_rules());
    assert_eq!(once, twice);
}

#[test]
fn default_rules_run_in_order() {
    let ids: Vec<&str> = default_rules().iter().map(|rule| rule.id()).collect();
    assert_eq!(
        ids,
        vec![
            "byte-order-mark",
            "line-endings",
            "trailing-whitespace",
            "hard-tabs",
            "final-newline",
            "heading-increment",
            "heading-style",
            "atx-heading",
            "code-fence",
            "list-marker",
            "list-marker-space",
            "ordered-list",
            "blockquote-marker",
            "nested-indent",
            "emphasis",
            "sentence-per-line",
            "block-spacing",
            "single-h1",
            "continuation-indent"
        ]
    );
}

#[test]
fn lint_collects_violations_rule_after_rule() {
    let doc = Document::new("\u{feff}One. Two.\r\nThree\n");
    let violations = lint(&doc, &default_rules());
    let ids: Vec<&str> = violations.iter().map(|v| v.rule_id).collect();
    assert_eq!(
        ids,
        vec!["byte-order-mark", "line-endings", "sentence-per-line"]
    );
}

#[test]
fn lint_of_a_clean_document_is_empty() {
    let doc = Document::new("# Title\n\nOne sentence.\nAnother one.\n");
    assert!(lint(&doc, &default_rules()).is_empty());
}

#[test]
fn format_runs_each_fixer_on_the_previous_output() {
    let source = "\u{feff}\r\n\r\n# A\r\ntext. More text.\n\r\n\r\n";
    assert_eq!(
        markdown_style::format(source, &default_rules()),
        "# A\r\n\r\ntext.\r\nMore text.\r\n\r\n"
    );
}

#[test]
fn format_of_formatted_text_changes_nothing() {
    let source = "Intro line one. Intro line two.\n\n\n\n## Section\nBody text here. More body.\n";
    let once = markdown_style::format(source, &default_rules());
    assert_eq!(
        once,
        "Intro line one.\nIntro line two.\n\n\n## Section\n\nBody text here.\nMore body.\n"
    );
    assert_eq!(markdown_style::format(&once, &default_rules()), once);
}

#[test]
fn a_lint_clean_crlf_document_formats_to_itself() {
    let source = "# A\r\n\r\nOne.\r\nTwo.\r\n";
    assert!(lint(&Document::new(source), &default_rules()).is_empty());
    assert_eq!(markdown_style::format(source, &default_rules()), source);
}

#[test]
fn whitespace_in_a_blank_gap_is_reported_and_stripped() {
    let source = "a\n  \nb\n";
    let violations = lint(&Document::new(source), &default_rules());
    assert_eq!(violations.len(), 1);
    assert_eq!(violations[0].rule_id, "trailing-whitespace");
    assert_eq!(markdown_style::format(source, &default_rules()), "a\n\nb\n");
}

#[test]
fn a_second_byte_order_mark_survives_one_format() {
    let once = markdown_style::format("\u{feff}\u{feff}Text.\n", &default_rules());
    assert_eq!(once, "\u{feff}Text.\n");
    assert_eq!(markdown_style::format(&once, &default_rules()), "Text.\n");
}

#[test]
fn formatting_line_endings_and_final_newlines_twice_is_formatting_once() {
    for source in ["a\r\r\nb\nc\n", "a\r\nb\r\n\n\n\n", "x\na\r", "\u{feff}Text.\r\n\n\n"] {
        let once = markdown_style::format(source, &default_rules());
        assert_eq!(markdown_style::format(&once, &default_rules()), once, "for {source:?}");
    }
}
