use markdown_style::rules::masking::{mask, restore};

#[test]
fn restoring_a_masked_text_gives_it_back() {
    let text: Vec<char> = "See `a. b` and [the docs](https://x.y/z.html) or <https://a.b>. Done."
        .chars()
        .collect();
    let (masked, protected) = mask(&text);
    assert_eq!(protected.len(), 3);
    assert_eq!(masked.iter().filter(|c| **c == '.').count(), 2);
    assert_eq!(restore(&masked, &protected), text);
}

#[test]
fn masking_swaps_each_span_for_a_numbered_placeholder() {
    let text: Vec<char> = "x `y` z".chars().collect();
    let (masked, protected) = mask(&text);
    let expected: Vec<char> = "x \u{E000}0\u{E001} z".chars().collect();
    assert_eq!(masked, expected);
    assert_eq!(protected, vec!["`y`".chars().collect::<Vec<char>>()]);
}
