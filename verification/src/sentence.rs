//! Heuristic sentence splitting for the sentence-per-line rule.
//!
//! Works on a single logical line of plain text (no newlines). A boundary is a
//! run of `.`/`!`/`?` (with any closing quotes) followed by whitespace and the
//! start of a new sentence. A curated abbreviation list and single-letter
//! initials suppress false boundaries, and an abbreviation that doubles as an
//! ordinary word only counts when a number follows it. It is deliberately
//! conservative: when in doubt it does not split.
use vstd::prelude::*;
use crate::ast::same_text;
use crate::chars::{
    advance, all_space, alphabetic, alphanumeric, chars_of, is_alphabetic, is_alphanumeric,
    is_space, is_uppercase, lemma_advance, lemma_retreat, lemma_trim_empty, lemma_trim_starts_plainly,
    lemma_trim_subrange, lowercase,
    non_space_pred, retreat, skip_space_back, skip_spaces, space_pred, starts_plainly, string_of,
    sub_vec, to_lowercase, trim, trim_end, trim_range, upper_case, word_start,
};

verus! {

/// Common abbreviations that end in a period but do not end a sentence. Stored
/// lowercase, with the trailing period.
pub const ABBREVIATIONS: [&'static str; 26] = [
    "e.g.", "i.e.", "etc.", "vs.", "cf.", "al.", "esp.", "approx.", "dr.", "mr.", "mrs.", "ms.",
    "prof.", "sr.", "jr.", "st.", "vol.", "fig.", "pp.", "inc.", "ltd.", "co.", "u.s.", "u.k.",
    "a.m.", "p.m.",
];

/// Abbreviations that only abbreviate when a number follows, as in "No. 5".
/// They are ordinary words otherwise, and an ordinary word can end a sentence.
pub const NUMBER_ABBREVIATIONS: [&'static str; 1] = ["no."];

pub open spec fn is_term(c: char) -> bool {
    c == '.' || c == '!' || c == '?'
}

/// Closing punctuation that may follow a terminator. Includes `*` and `_` so
/// terminal punctuation inside emphasis, like the period in `**Done.**`, still
/// ends a sentence.
pub open spec fn is_close(c: char) -> bool {
    c == '"' || c == '\'' || c == ')' || c == ']' || c == '*' || c == '_' || c == '\u{201D}'
        || c == '\u{2019}'
}

/// Whether a sentence may begin with `c`. The sentence-per-line rule masks
/// inline code and links with private-use placeholder characters, so a
/// sentence may begin with one.
pub open spec fn begins_sentence(c: char) -> bool {
    ||| upper_case(c)
    ||| ('0' <= c && c <= '9')
    ||| c == '"' || c == '\'' || c == '(' || c == '[' || c == '\u{201C}' || c == '\u{2018}'
    ||| ('\u{E000}' <= c && c <= '\u{F8FF}')
}

pub open spec fn term_pred() -> spec_fn(char) -> bool {
    |c: char| is_term(c)
}

pub open spec fn close_pred() -> spec_fn(char) -> bool {
    |c: char| is_close(c)
}

pub open spec fn non_alnum_pred() -> spec_fn(char) -> bool {
    |c: char| !alphanumeric(c)
}

pub open spec fn abbreviation_list() -> Seq<Seq<char>> {
    ABBREVIATIONS@.map_values(|a: &'static str| a@)
}

pub open spec fn number_abbreviation_list() -> Seq<Seq<char>> {
    NUMBER_ABBREVIATIONS@.map_values(|a: &'static str| a@)
}

/// Whether `token` ends in a period that does not end a sentence. `following`
/// is the first character of what comes next, which decides the number
/// abbreviations. Leading punctuation (an opening paren or quote) is ignored;
/// the rest, lowercased, is looked up in the lists; failing that, a single
/// letter before the terminators is an initial, like "J." in a name.
pub open spec fn spec_is_abbreviation(token: Seq<char>, following: Option<char>) -> bool {
    let t = token.skip(advance(token, 0, non_alnum_pred()));
    let lower = lowercase(t);
    if abbreviation_list().contains(lower) {
        true
    } else if number_abbreviation_list().contains(lower) {
        following matches Some(c) && '0' <= c && c <= '9'
    } else {
        let core = t.take(retreat(t, t.len() as int, term_pred()));
        core.len() == 1 && alphabetic(core[0])
    }
}

/// A boundary after the terminator run `s[term_start..run_end]` and closing
/// punctuation up to `after`: whitespace, then the start of a new sentence,
/// and the word being ended is not an abbreviation or initial.
pub open spec fn spec_is_boundary(s: Seq<char>, term_start: int, run_end: int, after: int) -> bool {
    if after >= s.len() || !is_space(s[after]) {
        false
    } else {
        let next = advance(s, after, space_pred());
        if next >= s.len() || !begins_sentence(s[next]) {
            false
        } else {
            let start = retreat(s, term_start, non_space_pred());
            !spec_is_abbreviation(s.subrange(start, run_end), Some(s[next]))
        }
    }
}

/// A piece of text as a sentence: trimmed, and dropped when nothing is left.
pub open spec fn piece(text: Seq<char>) -> Seq<Seq<char>> {
    if trim(text).len() > 0 {
        seq![trim(text)]
    } else {
        Seq::empty()
    }
}

/// The sentences of `s` from position `index` on, the current sentence having
/// begun at `start`.
pub open spec fn sentences_from(s: Seq<char>, start: int, index: int) -> Seq<Seq<char>>
    decreases s.len() - index,
{
    if index < 0 || index >= s.len() {
        if 0 <= start < s.len() {
            piece(s.subrange(start, s.len() as int))
        } else {
            Seq::empty()
        }
    } else if !is_term(s[index]) {
        sentences_from(s, start, index + 1)
    } else {
        proof {
            lemma_advance(s, index + 1, term_pred());
        }
        let run_end = advance(s, index + 1, term_pred());
        proof {
            lemma_advance(s, run_end, close_pred());
        }
        let after = advance(s, run_end, close_pred());
        if spec_is_boundary(s, index, run_end, after) {
            proof {
                lemma_advance(s, after, space_pred());
            }
            let next = advance(s, after, space_pred());
            piece(s.subrange(start, after)) + sentences_from(s, next, next)
        } else {
            sentences_from(s, start, run_end)
        }
    }
}

/// The sentences of `text`, each trimmed; the trimmed text itself when no
/// sentence has anything in it.
pub open spec fn spec_split_sentences(text: Seq<char>) -> Seq<Seq<char>> {
    let found = sentences_from(text, 0, 0);
    if found.len() == 0 {
        seq![trim(text)]
    } else {
        found
    }
}

/// Every sentence found from `index` on begins with a non-space.
pub proof fn lemma_sentences_from_plain(s: Seq<char>, start: int, index: int)
    ensures
        forall|k: int|
            0 <= k < sentences_from(s, start, index).len() ==> starts_plainly(
                #[trigger] sentences_from(s, start, index)[k],
            ),
    decreases s.len() - index,
{
    if index < 0 || index >= s.len() {
        if 0 <= start < s.len() {
            lemma_trim_starts_plainly(s.subrange(start, s.len() as int));
            assert(sentences_from(s, start, index) == piece(s.subrange(start, s.len() as int)));
        }
    } else if !is_term(s[index]) {
        lemma_sentences_from_plain(s, start, index + 1);
        assert(sentences_from(s, start, index) == sentences_from(s, start, index + 1));
    } else {
        lemma_advance(s, index + 1, term_pred());
        let run_end = advance(s, index + 1, term_pred());
        lemma_advance(s, run_end, close_pred());
        let after = advance(s, run_end, close_pred());
        if spec_is_boundary(s, index, run_end, after) {
            lemma_advance(s, after, space_pred());
            let next = advance(s, after, space_pred());
            lemma_trim_starts_plainly(s.subrange(start, after));
            lemma_sentences_from_plain(s, next, next);
            let head = piece(s.subrange(start, after));
            let rest = sentences_from(s, next, next);
            assert forall|k: int| 0 <= k < (head + rest).len() implies starts_plainly(
                #[trigger] (head + rest)[k],
            ) by {
                if k >= head.len() {
                    assert((head + rest)[k] == rest[k - head.len()]);
                }
            }
            assert(sentences_from(s, start, index) == head + rest);
        } else {
            lemma_sentences_from_plain(s, start, run_end);
            assert(sentences_from(s, start, index) == sentences_from(s, start, run_end));
        }
    }
}

/// Every sentence split from a text is empty or begins with a non-space.
pub proof fn lemma_split_sentences_plain(text: Seq<char>)
    ensures
        forall|k: int|
            0 <= k < spec_split_sentences(text).len() ==> (#[trigger] spec_split_sentences(
                text,
            )[k]).len() == 0 || starts_plainly(spec_split_sentences(text)[k]),
{
    lemma_sentences_from_plain(text, 0, 0);
    lemma_trim_starts_plainly(text);
}

/// A character a sentence can be cut next to: a terminator, a closing mark, or
/// whitespace.
pub open spec fn breaking_char(c: char) -> bool {
    is_term(c) || is_close(c) || is_space(c)
}

/// Whether position `q` of `s` is an end of `s` or stands next to a breaking
/// character.
pub open spec fn sentence_edge(s: Seq<char>, q: int) -> bool {
    ||| q == 0
    ||| q == s.len()
    ||| (0 < q <= s.len() && breaking_char(s[q - 1]))
    ||| (0 <= q < s.len() && breaking_char(s[q]))
}

/// Whether `p` is the stretch of `s` between two sentence edges.
pub open spec fn edged_piece(s: Seq<char>, p: Seq<char>) -> bool {
    exists|a: int, b: int|
        0 <= a <= b <= s.len() && sentence_edge(s, a) && sentence_edge(s, b) && p
            == #[trigger] s.subrange(a, b)
}

proof fn lemma_piece_edged(s: Seq<char>, a: int, b: int)
    requires
        0 <= a <= b <= s.len(),
        sentence_edge(s, a),
        sentence_edge(s, b),
    ensures
        forall|k: int|
            0 <= k < piece(s.subrange(a, b)).len() ==> edged_piece(
                s,
                #[trigger] piece(s.subrange(a, b))[k],
            ),
{
    let r = lemma_trim_subrange(s, a, b);
    assert(sentence_edge(s, r.0));
    assert(sentence_edge(s, r.1));
    assert(edged_piece(s, s.subrange(r.0, r.1)));
}

/// Every sentence found from `index` on is a stretch of `s` between sentence
/// edges.
proof fn lemma_sentences_from_edged(s: Seq<char>, start: int, index: int)
    requires
        0 <= start <= index,
        start <= s.len(),
        sentence_edge(s, start),
    ensures
        forall|k: int|
            0 <= k < sentences_from(s, start, index).len() ==> edged_piece(
                s,
                #[trigger] sentences_from(s, start, index)[k],
            ),
    decreases s.len() - index,
{
    if index >= s.len() {
        if start < s.len() {
            lemma_piece_edged(s, start, s.len() as int);
            assert(sentences_from(s, start, index) == piece(s.subrange(start, s.len() as int)));
        }
    } else if !is_term(s[index]) {
        lemma_sentences_from_edged(s, start, index + 1);
        assert(sentences_from(s, start, index) == sentences_from(s, start, index + 1));
    } else {
        lemma_advance(s, index + 1, term_pred());
        let run_end = advance(s, index + 1, term_pred());
        lemma_advance(s, run_end, close_pred());
        let after = advance(s, run_end, close_pred());
        assert(breaking_char(s[after - 1])) by {
            if after > run_end {
                assert(close_pred()(s[after - 1]));
            } else if run_end > index + 1 {
                assert(term_pred()(s[run_end - 1]));
            }
        }
        if spec_is_boundary(s, index, run_end, after) {
            lemma_advance(s, after, space_pred());
            let next = advance(s, after, space_pred());
            if next > after {
                assert(space_pred()(s[next - 1]));
            }
            lemma_piece_edged(s, start, after);
            lemma_sentences_from_edged(s, next, next);
            let head = piece(s.subrange(start, after));
            let rest = sentences_from(s, next, next);
            assert forall|k: int| 0 <= k < (head + rest).len() implies edged_piece(
                s,
                #[trigger] (head + rest)[k],
            ) by {
                if k >= head.len() {
                    assert((head + rest)[k] == rest[k - head.len()]);
                } else {
                    assert((head + rest)[k] == head[k]);
                }
            }
            assert(sentences_from(s, start, index) == head + rest);
        } else {
            lemma_sentences_from_edged(s, start, run_end);
            assert(sentences_from(s, start, index) == sentences_from(s, start, run_end));
        }
    }
}

/// Every sentence split from a text is a stretch of it between sentence edges.
pub proof fn lemma_split_sentences_edged(text: Seq<char>)
    ensures
        forall|k: int|
            0 <= k < spec_split_sentences(text).len() ==> edged_piece(
                text,
                #[trigger] spec_split_sentences(text)[k],
            ),
{
    lemma_sentences_from_edged(text, 0, 0);
    if sentences_from(text, 0, 0).len() == 0 {
        let r = lemma_trim_subrange(text, 0, text.len() as int);
        assert(text.subrange(0, text.len() as int) =~= text);
        assert(sentence_edge(text, r.0));
        assert(sentence_edge(text, r.1));
        assert(edged_piece(text, text.subrange(r.0, r.1)));
        assert(spec_split_sentences(text)[0] == trim(text));
    }
}

/// Whether `text` ends with a terminator a boundary check would honor: a real
/// terminator, past any closing punctuation, whose word is not an abbreviation
/// or initial.
pub open spec fn spec_ends_with_sentence_terminator(text: Seq<char>) -> bool {
    let c = trim_end(text);
    let end = retreat(c, c.len() as int, close_pred());
    if end <= 0 || !is_term(c[end - 1]) {
        false
    } else {
        let start = retreat(c, end, non_space_pred());
        !spec_is_abbreviation(c.subrange(start, end), None)
    }
}

/// The views of a vector of strings.
pub open spec fn strings_view(v: Seq<String>) -> Seq<Seq<char>> {
    v.map_values(|s: String| s@)
}

fn is_terminator(c: char) -> (b: bool)
    ensures
        b == is_term(c),
{
    c == '.' || c == '!' || c == '?'
}

fn is_closing(c: char) -> (b: bool)
    ensures
        b == is_close(c),
{
    c == '"' || c == '\'' || c == ')' || c == ']' || c == '*' || c == '_' || c == '\u{201D}' || c
        == '\u{2019}'
}

fn starts_sentence(c: char) -> (b: bool)
    ensures
        b == begins_sentence(c),
{
    is_uppercase(c) || ('0' <= c && c <= '9') || c == '"' || c == '\'' || c == '(' || c == '['
        || c == '\u{201C}' || c == '\u{2018}' || ('\u{E000}' <= c && c <= '\u{F8FF}')
}

fn in_list(word: &str, list: &[&'static str]) -> (b: bool)
    ensures
        b == list@.map_values(|a: &'static str| a@).contains(word@),
{
    let ghost views = list@.map_values(|a: &'static str| a@);
    let mut i: usize = 0;
    while i < list.len()
        invariant
            i <= list@.len(),
            views == list@.map_values(|a: &'static str| a@),
            forall|k: int| 0 <= k < i ==> views[k] != word@,
        decreases list@.len() - i,
    {
        if same_text(word, list[i]) {
            assert(views[i as int] == word@);
            return true;
        }
        i += 1;
    }
    false
}

/// Whether `token` ends in a period that does not end a sentence.
fn is_abbreviation(token: &Vec<char>, following: Option<char>) -> (b: bool)
    ensures
        b == spec_is_abbreviation(token@, following),
{
    let mut from: usize = 0;
    while from < token.len() && !is_alphanumeric(token[from])
        invariant
            from <= token@.len(),
            advance(token@, from as int, non_alnum_pred()) == advance(token@, 0, non_alnum_pred()),
        decreases token@.len() - from,
    {
        from += 1;
    }
    let t = sub_vec(token, from, token.len());
    assert(t@ =~= token@.skip(from as int));
    let lower = to_lowercase(string_of(&t, 0, t.len()).as_str());
    assert(t@.subrange(0, t@.len() as int) =~= t@);
    if in_list(lower.as_str(), &ABBREVIATIONS) {
        return true;
    }
    if in_list(lower.as_str(), &NUMBER_ABBREVIATIONS) {
        return match following {
            Some(c) => '0' <= c && c <= '9',
            None => false,
        };
    }
    let mut end = t.len();
    while end > 0 && is_terminator(t[end - 1])
        invariant
            end <= t@.len(),
            retreat(t@, end as int, term_pred()) == retreat(t@, t@.len() as int, term_pred()),
        decreases end,
    {
        end -= 1;
    }
    end == 1 && is_alphabetic(t[0])
}

/// Whether `text` ends with a terminator a boundary check would honor. Lets a
/// caller preserve an author's line break between sentences even when the next
/// sentence begins with a lowercase word.
pub fn ends_with_sentence_terminator(text: &str) -> (b: bool)
    ensures
        b == spec_ends_with_sentence_terminator(text@),
{
    let all = chars_of(text);
    let len = skip_space_back(&all, 0, all.len());
    assert(all@.subrange(0, all@.len() as int) =~= all@);
    let chars = sub_vec(&all, 0, len);
    let mut end = chars.len();
    while end > 0 && is_closing(chars[end - 1])
        invariant
            end <= chars@.len(),
            retreat(chars@, end as int, close_pred()) == retreat(
                chars@,
                chars@.len() as int,
                close_pred(),
            ),
        decreases end,
    {
        end -= 1;
    }
    if end == 0 || !is_terminator(chars[end - 1]) {
        return false;
    }
    let start = word_start(&chars, end);
    let token = sub_vec(&chars, start, end);
    !is_abbreviation(&token, None)
}

fn is_boundary(chars: &Vec<char>, term_start: usize, run_end: usize, after: usize) -> (b: bool)
    requires
        term_start <= run_end <= after <= chars@.len(),
    ensures
        b == spec_is_boundary(chars@, term_start as int, run_end as int, after as int),
{
    if after >= chars.len() || !crate::chars::is_whitespace(chars[after]) {
        return false;
    }
    let next = skip_spaces(chars, after);
    if next >= chars.len() || !starts_sentence(chars[next]) {
        return false;
    }
    let start = word_start(chars, term_start);
    let token = sub_vec(chars, start, run_end);
    !is_abbreviation(&token, Some(chars[next]))
}

/// Pushes `trim(chars[from..to])` unless it is empty.
fn push_sentence(sentences: &mut Vec<String>, chars: &Vec<char>, from: usize, to: usize)
    requires
        from <= to <= chars@.len(),
    ensures
        strings_view(final(sentences)@) == strings_view(old(sentences)@) + piece(
            chars@.subrange(from as int, to as int),
        ),
{
    let (a, b) = trim_range(chars, from, to);
    if a < b {
        let s = string_of(chars, a, b);
        sentences.push(s);
        assert(strings_view(sentences@) =~= strings_view(old(sentences)@) + piece(
            chars@.subrange(from as int, to as int),
        ));
    } else {
        assert(strings_view(sentences@) =~= strings_view(old(sentences)@) + piece(
            chars@.subrange(from as int, to as int),
        ));
    }
}

/// Split `text` into sentences, each trimmed of surrounding whitespace.
pub fn split_sentences(text: &str) -> (sentences: Vec<String>)
    ensures
        strings_view(sentences@) == spec_split_sentences(text@),
{
    let chars = chars_of(text);
    let n = chars.len();
    let ghost s = text@;
    let mut sentences: Vec<String> = Vec::new();
    let mut start: usize = 0;
    let mut index: usize = 0;
    assert(strings_view(sentences@) =~= Seq::<Seq<char>>::empty());
    while index < n
        invariant
            chars@ == s,
            n == s.len(),
            start <= index <= n,
            sentences_from(s, 0, 0) == strings_view(sentences@) + sentences_from(
                s,
                start as int,
                index as int,
            ),
        decreases n - index,
    {
        if !is_terminator(chars[index]) {
            index += 1;
            continue;
        }
        let mut run_end = index + 1;
        while run_end < n && is_terminator(chars[run_end])
            invariant
                index < run_end <= n,
                chars@ == s,
                n == s.len(),
                advance(s, run_end as int, term_pred()) == advance(
                    s,
                    index + 1,
                    term_pred(),
                ),
            decreases n - run_end,
        {
            run_end += 1;
        }
        let mut after = run_end;
        while after < n && is_closing(chars[after])
            invariant
                run_end <= after <= n,
                chars@ == s,
                n == s.len(),
                advance(s, after as int, close_pred()) == advance(s, run_end as int, close_pred()),
            decreases n - after,
        {
            after += 1;
        }
        if is_boundary(&chars, index, run_end, after) {
            let ghost before = strings_view(sentences@);
            push_sentence(&mut sentences, &chars, start, after);
            let next = skip_spaces(&chars, after);
            assert(before + (piece(s.subrange(start as int, after as int)) + sentences_from(
                s,
                next as int,
                next as int,
            )) =~= strings_view(sentences@) + sentences_from(s, next as int, next as int));
            start = next;
            index = next;
        } else {
            index = run_end;
        }
    }
    if start < n {
        push_sentence(&mut sentences, &chars, start, n);
    } else {
        assert(strings_view(sentences@) + sentences_from(s, start as int, index as int) =~= strings_view(sentences@));
    }
    if sentences.len() == 0 {
        let (a, b) = trim_range(&chars, 0, n);
        assert(chars@.subrange(0, n as int) =~= s);
        sentences.push(string_of(&chars, a, b));
        assert(strings_view(sentences@) =~= spec_split_sentences(s));
    }
    sentences
}


/// Retreating over a prefix of `y` that equals `a` gives what it gives on `a`.
proof fn lemma_retreat_agree(a: Seq<char>, y: Seq<char>, i: int, p: spec_fn(char) -> bool)
    requires
        0 <= i <= a.len() <= y.len(),
        forall|k: int| 0 <= k < a.len() ==> y[k] == a[k],
    ensures
        retreat(y, i, p) == retreat(a, i, p),
    decreases i,
{
    if i > 0 {
        assert(y[i - 1] == a[i - 1]);
        lemma_retreat_agree(a, y, i - 1, p);
    }
}

/// Closing punctuation after a terminator belongs to the sentence it closes:
/// a quote, an apostrophe, a closing parenthesis or bracket, emphasis markers
/// and curly closing quotes. Appending one of them to a text with no trailing
/// whitespace leaves unchanged whether the text ends a sentence.
pub proof fn law_closing_marks_stay_with_the_sentence(s: Seq<char>, c: char)
    requires
        trim_end(s) == s,
        c == '"' || c == '\'' || c == ')' || c == ']' || c == '*' || c == '_' || c == '\u{201D}'
            || c == '\u{2019}',
    ensures
        spec_ends_with_sentence_terminator(s.push(c)) == spec_ends_with_sentence_terminator(s),
{
    let t = s.push(c);
    assert(!is_space(c));
    assert(trim_end(t) == t);
    assert(is_close(c));
    assert(retreat(t, t.len() as int, close_pred()) == retreat(t, s.len() as int, close_pred()));
    assert forall|k: int| 0 <= k < s.len() implies t[k] == s[k] by {}
    lemma_retreat_agree(s, t, s.len() as int, close_pred());
    let end = retreat(s, s.len() as int, close_pred());
    lemma_retreat(s, s.len() as int, close_pred());
    if end > 0 {
        assert(t[end - 1] == s[end - 1]);
        lemma_retreat_agree(s, t, end, non_space_pred());
        lemma_retreat(s, end, non_space_pred());
        let start = retreat(s, end, non_space_pred());
        assert(t.subrange(start, end) =~= s.subrange(start, end));
    }
}


/// Walking over text with no terminator adds no sentence.
proof fn lemma_walk_plain(s: Seq<char>, start: int, i: int, l: int)
    requires
        0 <= i <= l < s.len(),
        forall|k: int| i <= k < l ==> !is_term(#[trigger] s[k]),
    ensures
        sentences_from(s, start, i) == sentences_from(s, start, l),
    decreases l - i,
{
    if i < l {
        assert(!is_term(s[i]));
        lemma_walk_plain(s, start, i + 1, l);
    }
}

/// A sentence ends after the closing mark that follows its terminator: in a
/// text made of words without terminators, a terminator, a closing mark (a
/// quote, apostrophe, parenthesis, bracket, emphasis marker or curly quote), a
/// space and a new sentence, the first sentence is the words with the
/// terminator and the closing mark, provided the last word is no
/// abbreviation.
pub proof fn law_sentence_ends_after_its_closing_mark(a: Seq<char>, t: char, c: char, b: Seq<char>)
    requires
        forall|k: int| 0 <= k < a.len() ==> !is_term(#[trigger] a[k]),
        t == '.' || t == '!' || t == '?',
        c == '"' || c == '\'' || c == ')' || c == ']' || c == '*' || c == '_' || c == '\u{201D}'
            || c == '\u{2019}',
        b.len() > 0,
        !is_space(b[0]),
        begins_sentence(b[0]),
        !spec_is_abbreviation(
            a.subrange(retreat(a, a.len() as int, non_space_pred()), a.len() as int).push(t),
            Some(b[0]),
        ),
    ensures
        spec_split_sentences(a + seq![t, c, ' '] + b).len() >= 1,
        spec_split_sentences(a + seq![t, c, ' '] + b)[0] == trim(a + seq![t, c]),
{
    let s = a + seq![t, c, ' '] + b;
    let l = a.len() as int;
    assert(s[l] == t && s[l + 1] == c && s[l + 2] == ' ' && s[l + 3] == b[0]);
    assert forall|k: int| 0 <= k < l implies !is_term(#[trigger] s[k]) by {
        assert(s[k] == a[k]);
    }
    lemma_walk_plain(s, 0, 0, l);
    assert(is_term(s[l]));
    lemma_advance(s, l + 1, term_pred());
    assert(advance(s, l + 1, term_pred()) == l + 1);
    assert(is_close(c));
    assert(advance(s, l + 1, close_pred()) == advance(s, l + 2, close_pred()));
    assert(advance(s, l + 2, close_pred()) == l + 2);
    assert(is_space(s[l + 2]));
    assert(advance(s, l + 2, space_pred()) == advance(s, l + 3, space_pred()));
    assert(advance(s, l + 3, space_pred()) == l + 3);
    assert forall|k: int| 0 <= k < a.len() implies s[k] == a[k] by {}
    lemma_retreat_agree(a, s, l, non_space_pred());
    let start = retreat(a, l, non_space_pred());
    lemma_retreat(a, l, non_space_pred());
    assert(s.subrange(start, l + 1) =~= a.subrange(start, l).push(t));
    assert(spec_is_boundary(s, l, l + 1, l + 2));
    let head = s.subrange(0, l + 2);
    assert(head =~= a + seq![t, c]);
    lemma_trim_empty(head);
    assert(!is_space(head[l + 1]));
    assert(trim(head).len() > 0);
    assert(sentences_from(s, 0, l) == piece(head) + sentences_from(s, l + 3, l + 3));
}

} // verus!
