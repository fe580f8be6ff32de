use markdown_style::rules::byte_order_mark::ByteOrderMark;
use markdown_style::{Document, Span, Violation};

fn fix(source: &str) -> String {
    ByteOrderMark.fix(&Document::new(source)).unwrap()
}

fn detect(source: &str) -> Vec<Violation> {
    ByteOrderMark.detect(&Document::new(source))
}

#[test]
fn strips_a_leading_byte_order_mark() {
    assert_eq!(fix("\u{feff}# Title\n"), "# Title\n");
}

#[test]
fn reports_a_leading_byte_order_mark_with_a_span() {
    let violations = detect("\u{feff}# Title\n");
    assert_eq!(violations.len(), 1);
    assert_eq!(violations[0].rule_id, "byte-order-mark");
    assert_eq!(violations[0].message, "file starts with a byte order mark");
    assert_eq!(
        violations[0].span,
        Span {
            line: 1,
            column: 1,
            length: 1
        }
    );
}

#[test]
fn reports_it_only_once_however_long_the_file_is() {
    let violations = detect("\u{feff}# Title\n\nAlpha one.\nBravo two.\n");
    assert_eq!(violations.len(), 1);
}

#[test]
fn leaves_a_file_without_one_untouched() {
    let clean = "# Title\n\nAlpha one.\n";
    assert_eq!(fix(clean), clean);
    assert!(detect(clean).is_empty());
}

#[test]
fn leaves_the_same_character_alone_inside_the_text() {
    // Only a leading mark is a byte order mark; elsewhere it is a zero
    // width no-break space, which is content.
    let source = "# Title\n\nAlpha\u{feff}one.\n";
    assert_eq!(fix(source), source);
    assert!(detect(source).is_empty());
}

#[test]
fn strips_only_the_first_of_two_leading_marks() {
    // The second is no longer at the start of the file, so it is text.
    assert_eq!(fix("\u{feff}\u{feff}# Title\n"), "\u{feff}# Title\n");
}

#[test]
fn handles_a_file_that_is_only_a_byte_order_mark() {
    assert_eq!(fix("\u{feff}"), "");
}

#[test]
fn byte_order_mark_handles_an_empty_document() {
    assert_eq!(fix(""), "");
    assert!(detect("").is_empty());
}

#[test]
fn fixing_twice_is_fixing_once() {
    let once = fix("\u{feff}text\n");
    assert_eq!(fix(&once), once);
}

#[test]
fn a_second_mark_leads_once_the_first_is_gone() {
    let once = fix("\u{feff}\u{feff}text\n");
    assert_eq!(once, "\u{feff}text\n");
    assert_eq!(fix(&once), "text\n");
}
