use markdown_style::rules::sentence_per_line::SentencePerLine;
use markdown_style::{Document, Violation};

fn fix(source: &str) -> String {
    SentencePerLine.fix(&Document::new(source)).unwrap()
}

fn detect(source: &str) -> Vec<Violation> {
    SentencePerLine.detect(&Document::new(source))
}

#[test]
fn leaves_a_single_sentence_paragraph_alone() {
    let source = "Hello world.\n";
    assert_eq!(fix(source), source);
    assert!(detect(source).is_empty());
}

#[test]
fn splits_a_multi_sentence_line() {
    assert_eq!(fix("One. Two.\n"), "One.\nTwo.\n");
    assert_eq!(detect("One. Two.\n").len(), 1);
}

#[test]
fn points_at_the_second_sentence_not_the_first() {
    let violations = detect("First sentence. Second sentence.\n");
    assert_eq!(violations.len(), 1);
    assert_eq!(violations[0].span.line, 1);
    // "Second" begins at column 17, after "First sentence. ".
    assert_eq!(violations[0].span.column, 17);
}

#[test]
fn points_at_the_continuation_line_that_must_move_up() {
    // Only the last two lines belong together, so the flag must land on the
    // line that gets pulled up, not on the paragraph's second line.
    let violations =
        detect("Alpha stands alone.\nBeta stands alone.\nGamma keeps\ngoing to the end.\n");
    assert_eq!(violations.len(), 1);
    assert_eq!(violations[0].span.line, 4);
    assert_eq!(violations[0].span.column, 1);
}

#[test]
fn points_past_a_blockquote_marker_when_joining() {
    let violations = detect("> Alpha stands alone.\n> Gamma keeps\n> going to the end.\n");
    assert_eq!(violations.len(), 1);
    assert_eq!(violations[0].span.line, 3);
    // Column 3 is the text, past the "> " marker.
    assert_eq!(violations[0].span.column, 3);
}

#[test]
fn joins_soft_wrapped_lines_of_one_sentence() {
    assert_eq!(fix("One two\nthree four.\n"), "One two three four.\n");
}

#[test]
fn keeps_a_hard_break_as_a_barrier() {
    // The hard break after the first line is preserved; the second segment
    // still splits into one sentence per line.
    assert_eq!(fix("first  \nfoo. Bar\n"), "first  \nfoo.\nBar\n");
}

#[test]
fn protects_an_inline_code_span() {
    assert_eq!(
        fix("Call `a. b` now. Then stop.\n"),
        "Call `a. b` now.\nThen stop.\n"
    );
}

#[test]
fn protects_a_link() {
    assert_eq!(
        fix("See [a. b](http://x). Next.\n"),
        "See [a. b](http://x).\nNext.\n"
    );
}

#[test]
fn does_not_break_before_a_block_marker() {
    let source = "See below. - not a list.\n";
    assert_eq!(fix(source), source);
    assert!(detect(source).is_empty());
}

#[test]
fn leaves_code_blocks_untouched() {
    let source = "```\nx. y. z\n```\n";
    assert_eq!(fix(source), source);
    assert!(detect(source).is_empty());
}

#[test]
fn sentence_per_line_preserves_crlf_line_endings() {
    assert_eq!(fix("One. Two.\r\n"), "One.\r\nTwo.\r\n");
}

#[test]
fn splits_a_blockquote_paragraph() {
    assert_eq!(fix("> One. Two.\n"), "> One.\n> Two.\n");
    assert_eq!(detect("> One. Two.\n").len(), 1);
}

#[test]
fn joins_a_soft_wrapped_blockquote() {
    assert_eq!(fix("> One two\n> three four.\n"), "> One two three four.\n");
}

#[test]
fn splits_a_nested_blockquote() {
    assert_eq!(fix("> > One. Two.\n"), "> > One.\n> > Two.\n");
}

#[test]
fn canonicalises_a_lazy_continuation_when_splitting() {
    assert_eq!(
        fix("> One two\nthree. Four.\n"),
        "> One two three.\n> Four.\n"
    );
}

#[test]
fn leaves_a_well_formed_blockquote_sentence_alone() {
    let source = "> Hello world.\n";
    assert_eq!(fix(source), source);
    assert!(detect(source).is_empty());
}

#[test]
fn does_not_flag_blockquote_marker_spacing_alone() {
    let source = ">  Hello world.\n";
    assert_eq!(fix(source), source);
    assert!(detect(source).is_empty());
}

#[test]
fn does_not_touch_trailing_whitespace_when_structure_is_correct() {
    let source = "Hello world.   \n";
    assert_eq!(fix(source), source);
    assert!(detect(source).is_empty());
}

#[test]
fn splits_a_bulleted_list_item() {
    assert_eq!(fix("- One. Two.\n"), "- One.\n  Two.\n");
    assert_eq!(detect("- One. Two.\n").len(), 1);
}

#[test]
fn splits_an_ordered_list_item_aligning_continuations() {
    assert_eq!(fix("1. One. Two.\n"), "1. One.\n   Two.\n");
}

#[test]
fn joins_a_soft_wrapped_list_item() {
    assert_eq!(
        fix("- One two\n  three. Four.\n"),
        "- One two three.\n  Four.\n"
    );
}

#[test]
fn leaves_a_well_formed_list_item_alone() {
    let source = "- Hello world.\n";
    assert_eq!(fix(source), source);
    assert!(detect(source).is_empty());
}

#[test]
fn keeps_a_sentence_that_starts_with_inline_code_on_its_own_line() {
    // The second sentence starts with a masked code span; it must not be
    // merged into the first.
    let source = "First line here.\n`code` starts the second.\n";
    assert_eq!(fix(source), source);
    assert!(detect(source).is_empty());
}

#[test]
fn keeps_an_author_break_before_a_lowercase_sentence() {
    // Each line already ends a sentence, so an author's break before a
    // sentence that starts with a lowercase word must be preserved rather
    // than merged into the line above.
    let source =
        "This tool depends on that one.\nnpm sees it is already present.\nThe rest follows.\n";
    assert_eq!(fix(source), source);
    assert!(detect(source).is_empty());
}

#[test]
fn still_joins_a_soft_wrap_before_a_lowercase_word() {
    // The first line does not end a sentence, so it is a soft wrap and the
    // lines join as before.
    assert_eq!(
        fix("this clause keeps\ngoing to the end.\n"),
        "this clause keeps going to the end.\n"
    );
}

#[test]
fn keeps_a_sentence_that_ends_in_no_on_its_own_line() {
    // "no." is only an abbreviation before a number, so a line ending in the
    // word itself must not be joined with the line below.
    let source = "The world said no.\nYou cannot argue with a refusal.\n";
    assert_eq!(fix(source), source);
    assert!(detect(source).is_empty());
}

#[test]
fn keeps_a_parenthesised_abbreviation_before_a_code_span_together() {
    // "(e.g. `foo`)" must not split before the code span: the abbreviation
    // guard has to see through the leading paren.
    let source = "Routes (e.g. `foo`) are matched, so both `a` and `b` work.\n";
    assert_eq!(fix(source), source);
    assert!(detect(source).is_empty());
}

#[test]
fn keeps_a_bold_lead_in_on_its_own_line() {
    // The period sits inside the emphasis, so the lead-in is its own sentence
    // and must not be joined with the line below.
    let source = "- **Bold lead.**\n  First point here.\n  Second point here.\n";
    assert_eq!(fix(source), source);
    assert!(detect(source).is_empty());
}

#[test]
fn does_not_start_a_line_with_an_ordered_number() {
    let fixed = fix("Read the list. 1. Then go on.\n");
    assert!(fixed.starts_with("Read the list. 1."), "got:\n{fixed}");
    assert!(fixed.lines().skip(1).all(|line| !line.starts_with("1.")), "got:\n{fixed}");
}

#[test]
fn rewriting_a_paragraph_keeps_every_visible_character() {
    let source = "Alpha one. Bravo `x. y` two.\nCharlie three.   Delta [l. ink](u) four.\n";
    let fixed = fix(source);
    assert_ne!(fixed, source);
    let shown = |s: &str| s.chars().filter(|c| !c.is_whitespace()).collect::<String>();
    assert_eq!(shown(&fixed), shown(source));
    assert!(fixed.contains("`x. y`"));
    assert!(fixed.contains("[l. ink](u)"));
}

#[test]
fn fixing_quotes_and_list_items_keeps_their_prose() {
    let source = "> One quoted. Two quoted.\n> Three.\n\n- Alpha `a. b` one. Bravo two.\n  Charlie.\n";
    let fixed = fix(source);
    assert_ne!(fixed, source);
    let prose = |s: &str| {
        s.chars()
            .filter(|c| !c.is_whitespace() && *c != '>')
            .collect::<String>()
    };
    assert_eq!(prose(&fixed), prose(source));
}

#[test]
fn keeps_a_code_block_after_a_rewritten_paragraph() {
    let source = "One. Two.\n\n```\nx. Y.\n```\n";
    let fixed = fix(source);
    assert_eq!(fixed, "One.\nTwo.\n\n```\nx. Y.\n```\n");
}
