use markdown_style::sentence::{ends_with_sentence_terminator, split_sentences};

#[test]
fn a_single_sentence_stays_whole() {
    assert_eq!(split_sentences("One sentence."), vec!["One sentence."]);
}

#[test]
fn splits_on_sentence_boundaries() {
    assert_eq!(
        split_sentences("One. Two. Three."),
        vec!["One.", "Two.", "Three."]
    );
}

#[test]
fn splits_on_all_terminators() {
    assert_eq!(
        split_sentences("One! Two? Three."),
        vec!["One!", "Two?", "Three."]
    );
}

#[test]
fn does_not_split_on_a_lowercase_abbreviation() {
    assert_eq!(
        split_sentences("See e.g. this one."),
        vec!["See e.g. this one."]
    );
}

#[test]
fn does_not_split_an_abbreviation_before_a_capital() {
    assert_eq!(
        split_sentences("Ask Dr. Smith now."),
        vec!["Ask Dr. Smith now."]
    );
}

#[test]
fn does_not_split_a_parenthesised_abbreviation() {
    // The leading "(" must not stop "e.g." from being recognised as an
    // abbreviation when a capitalised example follows.
    assert_eq!(
        split_sentences("Some frameworks (e.g. Foo) work here."),
        vec!["Some frameworks (e.g. Foo) work here."]
    );
}

#[test]
fn splits_after_a_sentence_that_ends_in_no() {
    assert_eq!(
        split_sentences("The world said no. Then it moved on."),
        vec!["The world said no.", "Then it moved on."]
    );
}

#[test]
fn does_not_split_a_number_reference() {
    assert_eq!(
        split_sentences("See No. 5 for details."),
        vec!["See No. 5 for details."]
    );
}

#[test]
fn does_not_split_initials() {
    assert_eq!(
        split_sentences("J. R. R. Tolkien wrote it."),
        vec!["J. R. R. Tolkien wrote it."]
    );
}

#[test]
fn does_not_split_a_decimal_number() {
    assert_eq!(
        split_sentences("Pi is 3.14 today."),
        vec!["Pi is 3.14 today."]
    );
}

#[test]
fn keeps_a_closing_quote_with_the_sentence() {
    assert_eq!(
        split_sentences("He said \"Go.\" Then left."),
        vec!["He said \"Go.\"", "Then left."]
    );
}

#[test]
fn collapses_extra_spaces_between_sentences() {
    assert_eq!(split_sentences("One.   Two."), vec!["One.", "Two."]);
}

#[test]
fn ends_a_sentence_when_the_period_is_inside_emphasis() {
    assert_eq!(
        split_sentences("**Bold lead.** Next sentence here."),
        vec!["**Bold lead.**", "Next sentence here."]
    );
    assert_eq!(
        split_sentences("_Italic lead._ Then more."),
        vec!["_Italic lead._", "Then more."]
    );
}

#[test]
fn a_masked_placeholder_can_begin_a_sentence() {
    // Callers mask inline spans with private-use placeholders; a boundary
    // before one must still be found.
    assert_eq!(
        split_sentences("First. \u{E000}0\u{E001} second."),
        vec!["First.", "\u{E000}0\u{E001} second."]
    );
}

#[test]
fn does_not_split_before_a_lowercase_word() {
    assert_eq!(
        split_sentences("Version 1.0 works. and more"),
        vec!["Version 1.0 works. and more"]
    );
}

#[test]
fn recognises_a_line_that_ends_a_sentence() {
    assert!(ends_with_sentence_terminator("A short sentence."));
    assert!(ends_with_sentence_terminator("Is it, though?"));
    assert!(ends_with_sentence_terminator("He said \"go.\""));
    assert!(ends_with_sentence_terminator("**Bold lead.**"));
}

#[test]
fn does_not_treat_a_soft_wrap_as_a_sentence_end() {
    assert!(!ends_with_sentence_terminator("this clause keeps going"));
}

#[test]
fn treats_a_line_ending_in_no_as_a_sentence_end() {
    assert!(ends_with_sentence_terminator("The world said no."));
}

#[test]
fn does_not_treat_a_trailing_abbreviation_as_a_sentence_end() {
    assert!(!ends_with_sentence_terminator("foo, bar, etc."));
    assert!(!ends_with_sentence_terminator("Ask Dr."));
}
