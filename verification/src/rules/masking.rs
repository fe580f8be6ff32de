//! Protecting inline code, links, images and autolinks from the sentence
//! splitter: each is swapped for a numbered private-use placeholder that holds
//! no sentence punctuation, and swapped back once the text is split.
use vstd::prelude::*;
use crate::chars::{
    advance, decimal, decimal_of, is_space, is_whitespace, lemma_advance, lemma_decimal_digits,
    lemma_decimal_injective, replace, replace_all, starts_plainly,
};
use crate::text::{index_of, lemma_index_of};

verus! {

/// Opens a placeholder.
pub const PH_OPEN: char = '\u{E000}';

/// Closes a placeholder.
pub const PH_CLOSE: char = '\u{E001}';

/// The placeholder standing for the `k`-th protected span.
pub open spec fn placeholder(k: nat) -> Seq<char> {
    seq![PH_OPEN] + decimal(k) + seq![PH_CLOSE]
}

pub fn placeholder_of(k: usize) -> (v: Vec<char>)
    ensures
        v@ == placeholder(k as nat),
{
    let mut v: Vec<char> = Vec::new();
    v.push(PH_OPEN);
    let digits = decimal_of(k);
    let mut i: usize = 0;
    while i < digits.len()
        invariant
            i <= digits@.len(),
            v@ == seq![PH_OPEN] + digits@.take(i as int),
        decreases digits@.len() - i,
    {
        v.push(digits[i]);
        i += 1;
        assert(v@ =~= seq![PH_OPEN] + digits@.take(i as int));
    }
    v.push(PH_CLOSE);
    assert(v@ =~= placeholder(k as nat));
    v
}

/// Matches `c`, as a predicate.
pub open spec fn is_char(c: char) -> spec_fn(char) -> bool {
    |x: char| x == c
}

/// The length of the run of `c` starting at `from`.
pub open spec fn run_len(s: Seq<char>, from: int, c: char) -> int {
    advance(s, from, is_char(c)) - from
}

fn run_length(chars: &Vec<char>, from: usize, c: char) -> (n: usize)
    requires
        from <= chars@.len(),
    ensures
        n == run_len(chars@, from as int, c),
        from + n <= chars@.len(),
{
    let mut i = from;
    while i < chars.len() && chars[i] == c
        invariant
            from <= i <= chars@.len(),
            advance(chars@, i as int, is_char(c)) == advance(chars@, from as int, is_char(c)),
        decreases chars@.len() - i,
    {
        i += 1;
    }
    i - from
}

/// The start of the first run of exactly `run` backticks at or after `i`.
pub open spec fn closing_ticks(s: Seq<char>, i: int, run: int) -> Option<int>
    decreases s.len() - i,
{
    if i < 0 || i >= s.len() {
        None
    } else if s[i] == '`' {
        proof {
            lemma_advance(s, i, is_char('`'));
        }
        let length = run_len(s, i, '`');
        if length == run {
            Some(i)
        } else {
            closing_ticks(s, i + length, run)
        }
    } else {
        closing_ticks(s, i + 1, run)
    }
}

pub proof fn lemma_closing_ticks(s: Seq<char>, i: int, run: int)
    ensures
        closing_ticks(s, i, run) matches Some(k) ==> 0 <= i <= k && k + run <= s.len()
            && run_len(s, k, '`') == run,
    decreases s.len() - i,
{
    if 0 <= i < s.len() {
        lemma_advance(s, i, is_char('`'));
        if s[i] == '`' {
            let length = run_len(s, i, '`');
            if length != run {
                lemma_closing_ticks(s, i + length, run);
            }
        } else {
            lemma_closing_ticks(s, i + 1, run);
        }
    }
}

fn closing_backticks(chars: &Vec<char>, from: usize, run: usize) -> (r: Option<usize>)
    requires
        from <= chars@.len(),
    ensures
        r == (match closing_ticks(chars@, from as int, run as int) {
            Some(k) => Some(k as usize),
            None => None::<usize>,
        }),
{
    let mut i = from;
    while i < chars.len()
        invariant
            from <= i <= chars@.len(),
            closing_ticks(chars@, i as int, run as int) == closing_ticks(
                chars@,
                from as int,
                run as int,
            ),
        decreases chars@.len() - i,
    {
        if chars[i] == '`' {
            let length = run_length(chars, i, '`');
            proof {
                lemma_advance(chars@, i as int, is_char('`'));
            }
            if length == run {
                return Some(i);
            }
            i += length;
        } else {
            i += 1;
        }
    }
    None
}

/// The index of the bracket that closes the one at `open`, counting nesting.
pub open spec fn matching_from(s: Seq<char>, i: int, depth: int, oc: char, cc: char) -> Option<int>
    decreases s.len() - i,
{
    if i < 0 || i >= s.len() {
        None
    } else if s[i] == oc {
        matching_from(s, i + 1, depth + 1, oc, cc)
    } else if s[i] == cc {
        if depth - 1 == 0 {
            Some(i)
        } else {
            matching_from(s, i + 1, depth - 1, oc, cc)
        }
    } else {
        matching_from(s, i + 1, depth, oc, cc)
    }
}

pub open spec fn spec_matching(s: Seq<char>, open: int, oc: char, cc: char) -> Option<int> {
    matching_from(s, open, 0, oc, cc)
}

pub proof fn lemma_matching_from(s: Seq<char>, i: int, depth: int, oc: char, cc: char)
    ensures
        matching_from(s, i, depth, oc, cc) matches Some(k) ==> 0 <= i <= k < s.len(),
    decreases s.len() - i,
{
    if 0 <= i < s.len() {
        if s[i] == oc {
            lemma_matching_from(s, i + 1, depth + 1, oc, cc);
        } else if s[i] == cc {
            lemma_matching_from(s, i + 1, depth - 1, oc, cc);
        } else {
            lemma_matching_from(s, i + 1, depth, oc, cc);
        }
    }
}

fn matching(chars: &Vec<char>, open: usize, open_char: char, close_char: char) -> (r: Option<usize>)
    requires
        open < chars@.len(),
        chars@[open as int] == open_char,
        open_char != close_char,
    ensures
        r == (match spec_matching(chars@, open as int, open_char, close_char) {
            Some(k) => Some(k as usize),
            None => None::<usize>,
        }),
{
    proof {
        lemma_matching_from(chars@, open as int, 0, open_char, close_char);
    }
    let _n = chars.len();
    let mut depth: usize = 1;
    let mut i = open + 1;
    while i < chars.len()
        invariant
            open < i <= chars@.len(),
            1 <= depth <= i - open,
            matching_from(chars@, i as int, depth as int, open_char, close_char)
                == spec_matching(chars@, open as int, open_char, close_char),
        decreases chars@.len() - i,
    {
        let c = chars[i];
        if c == open_char {
            depth += 1;
        } else if c == close_char {
            if depth == 1 {
                return Some(i);
            }
            depth -= 1;
        }
        i += 1;
    }
    None
}

/// Where a link or image starting with the bracket at `bracket` ends: past its
/// `]`, and past a following `(...)` or `[...]` when that closes.
pub open spec fn spec_link_end(s: Seq<char>, bracket: int) -> Option<int> {
    match spec_matching(s, bracket, '[', ']') {
        None => None,
        Some(close) => {
            let end = close + 1;
            if end < s.len() && s[end] == '(' {
                match spec_matching(s, end, '(', ')') {
                    Some(paren) => Some(paren + 1),
                    None => Some(end),
                }
            } else if end < s.len() && s[end] == '[' {
                match spec_matching(s, end, '[', ']') {
                    Some(reference) => Some(reference + 1),
                    None => Some(end),
                }
            } else {
                Some(end)
            }
        },
    }
}

pub proof fn lemma_link_end(s: Seq<char>, bracket: int)
    requires
        0 <= bracket < s.len(),
        s[bracket] == '[',
    ensures
        spec_link_end(s, bracket) matches Some(e) ==> bracket < e <= s.len(),
{
    lemma_matching_from(s, bracket, 0, '[', ']');
    lemma_matching_from(s, bracket + 1, 1, '[', ']');
    if let Some(close) = spec_matching(s, bracket, '[', ']') {
        assert(close != bracket);
        let end = close + 1;
        if end < s.len() {
            lemma_matching_from(s, end, 0, '(', ')');
            lemma_matching_from(s, end, 0, '[', ']');
        }
    }
}

fn link_end(chars: &Vec<char>, bracket: usize) -> (r: Option<usize>)
    requires
        bracket < chars@.len(),
        chars@[bracket as int] == '[',
    ensures
        r == (match spec_link_end(chars@, bracket as int) {
            Some(k) => Some(k as usize),
            None => None::<usize>,
        }),
{
    proof {
        lemma_link_end(chars@, bracket as int);
        lemma_matching_from(chars@, bracket as int, 0, '[', ']');
    }
    let _n = chars.len();
    let close = match matching(chars, bracket, '[', ']') {
        Some(close) => close,
        None => {
            return None;
        },
    };
    let mut end = close + 1;
    if end < chars.len() && chars[end] == '(' {
        if let Some(paren) = matching(chars, end, '(', ')') {
            proof {
                lemma_matching_from(chars@, end as int, 0, '(', ')');
            }
            end = paren + 1;
        }
    } else if end < chars.len() && chars[end] == '[' {
        if let Some(reference) = matching(chars, end, '[', ']') {
            proof {
                lemma_matching_from(chars@, end as int, 0, '[', ']');
            }
            end = reference + 1;
        }
    }
    Some(end)
}

/// Whether `s[from..to]` holds no whitespace.
pub open spec fn no_space(s: Seq<char>, from: int, to: int) -> bool {
    forall|k: int| from <= k < to ==> !is_space(#[trigger] s[k])
}

/// The end of the span to protect that starts at `i`, if one does: an inline
/// code span closed by a backtick run of the same length, an autolink `<...>`
/// without whitespace, or a link or image.
pub open spec fn protected_end(s: Seq<char>, i: int) -> Option<int> {
    if !(0 <= i < s.len()) {
        None
    } else if s[i] == '`' {
        let run = run_len(s, i, '`');
        match closing_ticks(s, i + run, run) {
            Some(close) => Some(close + run),
            None => None,
        }
    } else if s[i] == '<' {
        match index_of(s, '>', (i + 1) as nat) {
            Some(gt) => if no_space(s, i + 1, gt as int) {
                Some(gt + 1int)
            } else {
                None
            },
            None => None,
        }
    } else if s[i] == '[' {
        spec_link_end(s, i)
    } else if s[i] == '!' && i + 1 < s.len() && s[i + 1] == '[' {
        spec_link_end(s, i + 1)
    } else {
        None
    }
}

pub proof fn lemma_protected_end(s: Seq<char>, i: int)
    requires
        0 <= i < s.len(),
    ensures
        protected_end(s, i) matches Some(e) ==> i < e <= s.len(),
{
    if s[i] == '`' {
        lemma_advance(s, i, is_char('`'));
        let run = run_len(s, i, '`');
        lemma_closing_ticks(s, i + run, run);
    } else if s[i] == '<' {
        lemma_index_of(s, '>', (i + 1) as nat);
    } else if s[i] == '[' {
        lemma_link_end(s, i);
    } else if s[i] == '!' && i + 1 < s.len() && s[i + 1] == '[' {
        lemma_link_end(s, i + 1);
    }
}

/// The masked text from position `i` on, and the spans it protects, numbering
/// placeholders from `k`.
pub open spec fn mask_from(s: Seq<char>, i: int, k: nat) -> (Seq<char>, Seq<Seq<char>>)
    decreases s.len() - i,
{
    if i < 0 || i >= s.len() {
        (Seq::empty(), Seq::empty())
    } else {
        proof {
            lemma_protected_end(s, i);
        }
        match protected_end(s, i) {
            Some(e) => {
                let rest = mask_from(s, e, k + 1);
                (placeholder(k) + rest.0, seq![s.subrange(i, e)] + rest.1)
            },
            None => {
                let rest = mask_from(s, i + 1, k);
                (seq![s[i]] + rest.0, rest.1)
            },
        }
    }
}

/// `text` with inline code, links, images and autolinks replaced by numbered
/// placeholders, and the spans they replaced, in order.
pub open spec fn spec_mask(text: Seq<char>) -> (Seq<char>, Seq<Seq<char>>) {
    mask_from(text, 0, 0)
}

/// Every protected span begins with the character that opened it, never a space.
pub proof fn lemma_mask_from_plain(s: Seq<char>, i: int, k: nat)
    ensures
        forall|j: int|
            0 <= j < mask_from(s, i, k).1.len() ==> starts_plainly(
                #[trigger] mask_from(s, i, k).1[j],
            ),
    decreases s.len() - i,
{
    if 0 <= i < s.len() {
        lemma_protected_end(s, i);
        match protected_end(s, i) {
            Some(e) => {
                lemma_mask_from_plain(s, e, k + 1);
                let span = s.subrange(i, e);
                let rest = mask_from(s, e, k + 1).1;
                assert(span[0] == s[i]);
                assert(s[i] == '`' || s[i] == '<' || s[i] == '[' || s[i] == '!');
                assert(mask_from(s, i, k).1 == seq![span] + rest);
                assert forall|j: int| 0 <= j < (seq![span] + rest).len() implies starts_plainly(
                    #[trigger] (seq![span] + rest)[j],
                ) by {
                    if j > 0 {
                        assert((seq![span] + rest)[j] == rest[j - 1]);
                    }
                }
            },
            None => {
                lemma_mask_from_plain(s, i + 1, k);
                assert(mask_from(s, i, k).1 == mask_from(s, i + 1, k).1);
            },
        }
    }
}

/// Restoring protected spans that begin with a non-space keeps a sentence
/// empty, or beginning with a non-space.
pub proof fn lemma_restore_plain(sentence: Seq<char>, protected: Seq<Seq<char>>, n: int)
    requires
        n <= protected.len(),
        sentence.len() == 0 || starts_plainly(sentence),
        forall|j: int| 0 <= j < protected.len() ==> starts_plainly(#[trigger] protected[j]),
    ensures
        restore_upto(sentence, protected, n).len() == 0 || starts_plainly(
            restore_upto(sentence, protected, n),
        ),
    decreases n,
{
    if n > 0 {
        lemma_restore_plain(sentence, protected, n - 1);
        let before = restore_upto(sentence, protected, n - 1);
        let pat = placeholder((n - 1) as nat);
        let rep = protected[n - 1];
        assert(pat.len() > 0);
        if before.len() >= pat.len() {
            if before.take(pat.len() as int) == pat {
                assert((rep + replace_all(before.skip(pat.len() as int), pat, rep))[0] == rep[0]);
            } else {
                assert((seq![before[0]] + replace_all(before.drop_first(), pat, rep))[0]
                    == before[0]);
            }
        }
    }
}

/// The views of a vector of character vectors.
pub open spec fn vecs_view(v: Seq<Vec<char>>) -> Seq<Seq<char>> {
    v.map_values(|x: Vec<char>| x@)
}

/// Appends the placeholder for the next protected span, `chars[from..to]`,
/// and records the span.
fn protect(out: &mut Vec<char>, protected: &mut Vec<Vec<char>>, chars: &Vec<char>, from: usize, to: usize)
    requires
        from <= to <= chars@.len(),
    ensures
        final(out)@ == old(out)@ + placeholder(old(protected)@.len() as nat),
        final(protected)@.len() == old(protected)@.len() + 1,
        vecs_view(final(protected)@) == vecs_view(old(protected)@).push(
            chars@.subrange(from as int, to as int),
        ),
{
    let ph = placeholder_of(protected.len());
    crate::chars::append(out, &ph);
    let span = crate::chars::sub_vec(chars, from, to);
    let ghost before = vecs_view(protected@);
    protected.push(span);
    assert(vecs_view(protected@) =~= before.push(chars@.subrange(from as int, to as int)));
}

/// Replace inline code, links, images, and autolinks with placeholders that
/// contain no sentence punctuation, so the splitter cannot break inside them.
pub fn mask(text: &Vec<char>) -> (r: (Vec<char>, Vec<Vec<char>>))
    ensures
        r.0@ == spec_mask(text@).0,
        vecs_view(r.1@) == spec_mask(text@).1,
{
    let chars = text;
    let ghost s = chars@;
    let mut out: Vec<char> = Vec::new();
    let mut protected: Vec<Vec<char>> = Vec::new();
    let mut i: usize = 0;
    assert(vecs_view(protected@) =~= Seq::<Seq<char>>::empty());
    while i < chars.len()
        invariant
            i <= s.len(),
            chars@ == s,
            out@ + mask_from(s, i as int, protected@.len() as nat).0 == spec_mask(s).0,
            vecs_view(protected@) + mask_from(s, i as int, protected@.len() as nat).1 == spec_mask(
                s,
            ).1,
        decreases s.len() - i,
    {
        let c = chars[i];
        proof {
            lemma_protected_end(s, i as int);
        }
        let end = protected_span_end(chars, i);
        match end {
            Some(e) => {
                let ghost k = protected@.len() as nat;
                let ghost before_out = out@;
                let ghost before_prot = vecs_view(protected@);
                protect(&mut out, &mut protected, chars, i, e);
                assert(protected_end(s, i as int) == Some(e as int));
                assert(protected@.len() == k + 1);
                assert(mask_from(s, i as int, k).0 == placeholder(k) + mask_from(s, e as int, k + 1).0);
                assert(out@ + mask_from(s, e as int, protected@.len() as nat).0 =~= before_out
                    + mask_from(s, i as int, k).0);
                assert(vecs_view(protected@) + mask_from(s, e as int, protected@.len() as nat).1
                    =~= before_prot + mask_from(s, i as int, k).1);
                i = e;
            },
            None => {
                let ghost k = protected@.len() as nat;
                assert(out@.push(c) + mask_from(s, i + 1, k).0 =~= out@ + mask_from(
                    s,
                    i as int,
                    k,
                ).0);
                out.push(c);
                i += 1;
            },
        }
    }
    assert(out@ =~= out@ + mask_from(s, i as int, protected@.len() as nat).0);
    assert(vecs_view(protected@) =~= vecs_view(protected@) + mask_from(
        s,
        i as int,
        protected@.len() as nat,
    ).1);
    (out, protected)
}

/// The first `>` at or after `from`, if any.
fn find_char(chars: &Vec<char>, c: char, from: usize) -> (r: Option<usize>)
    requires
        from <= chars@.len(),
    ensures
        r == (match index_of(chars@, c, from as nat) {
            Some(k) => Some(k as usize),
            None => None::<usize>,
        }),
{
    proof {
        lemma_index_of(chars@, c, from as nat);
    }
    let mut i = from;
    while i < chars.len()
        invariant
            from <= i <= chars@.len(),
            index_of(chars@, c, i as nat) == index_of(chars@, c, from as nat),
        decreases chars@.len() - i,
    {
        if chars[i] == c {
            return Some(i);
        }
        i += 1;
    }
    None
}

fn protected_span_end(chars: &Vec<char>, i: usize) -> (r: Option<usize>)
    requires
        i < chars@.len(),
    ensures
        r == (match protected_end(chars@, i as int) {
            Some(k) => Some(k as usize),
            None => None::<usize>,
        }),
{
    proof {
        lemma_protected_end(chars@, i as int);
    }
    let _n = chars.len();
    let c = chars[i];
    if c == '`' {
        let run = run_length(chars, i, '`');
        match closing_backticks(chars, i + run, run) {
            Some(close) => {
                proof {
                    lemma_closing_ticks(chars@, (i + run) as int, run as int);
                }
                Some(close + run)
            },
            None => None,
        }
    } else if c == '<' {
        match find_char(chars, '>', i + 1) {
            Some(gt) => {
                proof {
                    lemma_index_of(chars@, '>', (i + 1) as nat);
                    assert(index_of(chars@, '>', (i + 1) as nat) == Some(gt as nat));
                }
                let mut k = i + 1;
                while k < gt
                    invariant
                        i + 1 <= k <= gt < chars@.len(),
                        no_space(chars@, i + 1, k as int),
                        chars@[i as int] == '<',
                        index_of(chars@, '>', (i + 1) as nat) == Some(gt as nat),
                    decreases gt - k,
                {
                    if is_whitespace(chars[k]) {
                        assert(!no_space(chars@, i + 1, gt as int));
                        return None;
                    }
                    k += 1;
                }
                Some(gt + 1)
            },
            None => None,
        }
    } else if c == '[' {
        link_end(chars, i)
    } else if c == '!' && i + 1 < chars.len() && chars[i + 1] == '[' {
        link_end(chars, i + 1)
    } else {
        None
    }
}

/// `sentence` with the placeholders for `protected[0]`, `protected[1]`, ...
/// replaced, in that order, by the spans they stand for.
pub open spec fn restore_upto(sentence: Seq<char>, protected: Seq<Seq<char>>, n: int) -> Seq<char>
    decreases n,
{
    if n <= 0 {
        sentence
    } else {
        replace_all(restore_upto(sentence, protected, n - 1), placeholder((n - 1) as nat), protected[n - 1])
    }
}

pub open spec fn spec_restore(sentence: Seq<char>, protected: Seq<Seq<char>>) -> Seq<char> {
    restore_upto(sentence, protected, protected.len() as int)
}

/// Put the protected spans back in place of their placeholders.
pub fn restore(sentence: &Vec<char>, protected: &Vec<Vec<char>>) -> (r: Vec<char>)
    ensures
        r@ == spec_restore(sentence@, vecs_view(protected@)),
{
    let ghost ps = vecs_view(protected@);
    let mut restored = sentence.clone();
    let mut index: usize = 0;
    while index < protected.len()
        invariant
            index <= protected@.len(),
            ps == vecs_view(protected@),
            restored@ == restore_upto(sentence@, ps, index as int),
        decreases protected@.len() - index,
    {
        let placeholder = placeholder_of(index);
        restored = replace(&restored, &placeholder, &protected[index]);
        index += 1;
    }
    restored
}

/// Whether `s` holds no placeholder opener.
pub open spec fn unmarked(s: Seq<char>) -> bool {
    !s.contains(PH_OPEN)
}

/// A placeholder opens with `PH_OPEN`, closes with `PH_CLOSE`, and holds only
/// digits between.
proof fn lemma_placeholder_shape(k: nat)
    ensures
        placeholder(k).len() >= 3,
        placeholder(k)[0] == PH_OPEN,
        placeholder(k)[placeholder(k).len() - 1] == PH_CLOSE,
        forall|i: int|
            1 <= i < placeholder(k).len() - 1 ==> '0' <= #[trigger] placeholder(k)[i] <= '9',
        unmarked(placeholder(k).drop_first()),
{
    lemma_decimal_digits(k);
    let p = placeholder(k);
    assert forall|i: int| 1 <= i < p.len() - 1 implies '0' <= #[trigger] p[i] <= '9' by {
        assert(p[i] == decimal(k)[i - 1]);
    }
    assert forall|i: int| 0 <= i < p.drop_first().len() implies p.drop_first()[i] != PH_OPEN by {
        assert(p.drop_first()[i] == p[i + 1]);
    }
}

/// A text that starts with one placeholder does not start with another.
proof fn lemma_placeholder_mismatch(j: nat, k: nat, t: Seq<char>)
    requires
        j != k,
        (placeholder(j) + t).len() >= placeholder(k).len(),
    ensures
        (placeholder(j) + t).take(placeholder(k).len() as int) != placeholder(k),
{
    lemma_placeholder_shape(j);
    lemma_placeholder_shape(k);
    let pj = placeholder(j);
    let pk = placeholder(k);
    let s = (pj + t).take(pk.len() as int);
    if pk.len() == pj.len() {
        if s == pk {
            assert(s =~= pj);
            assert(decimal(j) =~= pj.subrange(1, pj.len() - 1));
            assert(decimal(k) =~= pk.subrange(1, pk.len() - 1));
            lemma_decimal_injective(j, k);
        }
    } else if pk.len() < pj.len() {
        assert(s[pk.len() - 1] == pj[pk.len() - 1]);
        assert('0' <= pj[pk.len() - 1] <= '9');
    } else {
        assert(s[pj.len() - 1] == PH_CLOSE);
        assert('0' <= pk[pj.len() - 1] <= '9');
    }
}

/// Replacing a pattern that opens with `PH_OPEN` passes over unmarked text.
proof fn lemma_replace_unmarked_prefix(u: Seq<char>, t: Seq<char>, pat: Seq<char>, rep: Seq<char>)
    requires
        pat.len() > 0,
        pat[0] == PH_OPEN,
        unmarked(u),
    ensures
        replace_all(u + t, pat, rep) == u + replace_all(t, pat, rep),
    decreases u.len(),
{
    if u.len() > 0 {
        let s = u + t;
        if s.len() >= pat.len() {
            assert(s.take(pat.len() as int)[0] == u[0]);
            assert(u[0] != PH_OPEN);
            assert(s.drop_first() =~= u.drop_first() + t);
            assert(!u.drop_first().contains(PH_OPEN)) by {
                if u.drop_first().contains(PH_OPEN) {
                    let i = choose|i: int| 0 <= i < u.drop_first().len() && u.drop_first()[i]
                        == PH_OPEN;
                    assert(u[i + 1] == PH_OPEN);
                }
            }
            lemma_replace_unmarked_prefix(u.drop_first(), t, pat, rep);
            assert(replace_all(s, pat, rep) =~= u + replace_all(t, pat, rep));
        } else {
            assert(t.len() < pat.len());
            assert(replace_all(s, pat, rep) =~= u + replace_all(t, pat, rep));
        }
    } else {
        assert(u + t =~= t);
    }
}

/// Replacing placeholder `k` in a text that starts with placeholder `j`.
proof fn lemma_replace_placeholder_prefix(j: nat, t: Seq<char>, k: nat, rep: Seq<char>)
    ensures
        replace_all(placeholder(j) + t, placeholder(k), rep) == (if j == k {
            rep
        } else {
            placeholder(j)
        }) + replace_all(t, placeholder(k), rep),
{
    lemma_placeholder_shape(j);
    lemma_placeholder_shape(k);
    let pj = placeholder(j);
    let pk = placeholder(k);
    let s = pj + t;
    if j == k {
        assert(s.take(pk.len() as int) =~= pk);
        assert(s.skip(pk.len() as int) =~= t);
    } else if s.len() >= pk.len() {
        lemma_placeholder_mismatch(j, k, t);
        assert(s.drop_first() =~= pj.drop_first() + t);
        lemma_replace_unmarked_prefix(pj.drop_first(), t, pk, rep);
        assert(pj =~= seq![pj[0]] + pj.drop_first());
        assert(replace_all(s, pk, rep) =~= pj + replace_all(t, pk, rep));
    } else {
        assert(t.len() < pk.len());
        assert(replace_all(s, pk, rep) =~= pj + replace_all(t, pk, rep));
    }
}

/// Restoring passes over unmarked text.
pub proof fn lemma_restore_unmarked_prefix(u: Seq<char>, t: Seq<char>, protected: Seq<Seq<char>>, n: int)
    requires
        unmarked(u),
    ensures
        restore_upto(u + t, protected, n) == u + restore_upto(t, protected, n),
    decreases n,
{
    if n > 0 {
        lemma_restore_unmarked_prefix(u, t, protected, n - 1);
        lemma_placeholder_shape((n - 1) as nat);
        lemma_replace_unmarked_prefix(
            u,
            restore_upto(t, protected, n - 1),
            placeholder((n - 1) as nat),
            protected[n - 1],
        );
    }
}

/// Restoring a text that starts with placeholder `j` puts its span first, once
/// the span's turn has come.
proof fn lemma_restore_placeholder_prefix(
    j: nat,
    t: Seq<char>,
    protected: Seq<Seq<char>>,
    n: int,
)
    requires
        n <= protected.len(),
        forall|i: int| 0 <= i < protected.len() ==> unmarked(#[trigger] protected[i]),
    ensures
        restore_upto(placeholder(j) + t, protected, n) == (if j < n {
            protected[j as int]
        } else {
            placeholder(j)
        }) + restore_upto(t, protected, n),
    decreases n,
{
    if n > 0 {
        lemma_restore_placeholder_prefix(j, t, protected, n - 1);
        let rest = restore_upto(t, protected, n - 1);
        let pat = placeholder((n - 1) as nat);
        lemma_placeholder_shape((n - 1) as nat);
        if j < n - 1 {
            lemma_replace_unmarked_prefix(protected[j as int], rest, pat, protected[n - 1]);
        } else {
            lemma_replace_placeholder_prefix(j, rest, (n - 1) as nat, protected[n - 1]);
        }
    }
}

/// The protected spans from position `i` on are pieces of the text.
proof fn lemma_mask_from_unmarked(s: Seq<char>, i: int, k: nat)
    requires
        unmarked(s),
    ensures
        forall|j: int|
            0 <= j < mask_from(s, i, k).1.len() ==> unmarked(#[trigger] mask_from(s, i, k).1[j]),
    decreases s.len() - i,
{
    if 0 <= i < s.len() {
        lemma_protected_end(s, i);
        match protected_end(s, i) {
            Some(e) => {
                lemma_mask_from_unmarked(s, e, k + 1);
                let span = s.subrange(i, e);
                let rest = mask_from(s, e, k + 1).1;
                assert(mask_from(s, i, k).1 == seq![span] + rest);
                assert(unmarked(span)) by {
                    if span.contains(PH_OPEN) {
                        let x = choose|x: int| 0 <= x < span.len() && span[x] == PH_OPEN;
                        assert(s[i + x] == PH_OPEN);
                    }
                }
                assert forall|j: int| 0 <= j < (seq![span] + rest).len() implies unmarked(
                    #[trigger] (seq![span] + rest)[j],
                ) by {
                    if j > 0 {
                        assert((seq![span] + rest)[j] == rest[j - 1]);
                    }
                }
            },
            None => {
                lemma_mask_from_unmarked(s, i + 1, k);
                assert(mask_from(s, i, k).1 == mask_from(s, i + 1, k).1);
            },
        }
    }
}

/// Restoring the masked text from position `i` on gives that part of the text back.
proof fn lemma_mask_restore_from(s: Seq<char>, i: int, k: nat, protected: Seq<Seq<char>>, n: int)
    requires
        unmarked(s),
        0 <= i <= s.len(),
        k + mask_from(s, i, k).1.len() <= n <= protected.len(),
        forall|j: int| 0 <= j < protected.len() ==> unmarked(#[trigger] protected[j]),
        forall|j: int|
            0 <= j < mask_from(s, i, k).1.len() ==> protected[k + j] == #[trigger] mask_from(
                s,
                i,
                k,
            ).1[j],
    ensures
        restore_upto(mask_from(s, i, k).0, protected, n) == s.skip(i),
    decreases s.len() - i,
{
    if i == s.len() {
        assert(mask_from(s, i, k).0.len() == 0);
        lemma_restore_empty(protected, n);
        assert(s.skip(i) =~= Seq::<char>::empty());
    } else {
        lemma_protected_end(s, i);
        match protected_end(s, i) {
            Some(e) => {
                let rest = mask_from(s, e, k + 1);
                assert(mask_from(s, i, k).1 == seq![s.subrange(i, e)] + rest.1);
                assert(mask_from(s, i, k).0 == placeholder(k) + rest.0);
                assert forall|j: int| 0 <= j < rest.1.len() implies protected[(k + 1) + j]
                    == #[trigger] rest.1[j] by {
                    assert(rest.1[j] == mask_from(s, i, k).1[j + 1]);
                }
                lemma_mask_restore_from(s, e, k + 1, protected, n);
                lemma_restore_placeholder_prefix(k, rest.0, protected, n);
                assert(protected[k as int] == mask_from(s, i, k).1[0]);
                assert(s.subrange(i, e) + s.skip(e) =~= s.skip(i));
            },
            None => {
                let rest = mask_from(s, i + 1, k);
                assert(mask_from(s, i, k).1 == rest.1);
                assert(mask_from(s, i, k).0 == seq![s[i]] + rest.0);
                lemma_mask_restore_from(s, i + 1, k, protected, n);
                assert(unmarked(seq![s[i]])) by {
                    assert(s[i] != PH_OPEN);
                }
                lemma_restore_unmarked_prefix(seq![s[i]], rest.0, protected, n);
                assert(seq![s[i]] + s.skip(i + 1) =~= s.skip(i));
            },
        }
    }
}

pub proof fn lemma_restore_empty(protected: Seq<Seq<char>>, n: int)
    ensures
        restore_upto(Seq::<char>::empty(), protected, n) == Seq::<char>::empty(),
    decreases n,
{
    if n > 0 {
        lemma_restore_empty(protected, n - 1);
        lemma_placeholder_shape((n - 1) as nat);
    }
}

/// Masking loses nothing: restoring the protected spans into the masked text
/// gives back the text exactly, for any text that holds no placeholder opener
/// (a private-use character) of its own.
pub proof fn law_restore_undoes_mask(text: Seq<char>)
    requires
        unmarked(text),
    ensures
        spec_restore(spec_mask(text).0, spec_mask(text).1) == text,
{
    let protected = spec_mask(text).1;
    lemma_mask_from_unmarked(text, 0, 0);
    lemma_mask_restore_from(text, 0, 0, protected, protected.len() as int);
    assert(text.skip(0) =~= text);
}

/// Whether `s` holds neither placeholder character.
pub open spec fn no_placeholder_chars(s: Seq<char>) -> bool {
    !s.contains(PH_OPEN) && !s.contains(PH_CLOSE)
}

/// A character that never stands inside a placeholder.
pub open spec fn outside_char(c: char) -> bool {
    c != PH_OPEN && c != PH_CLOSE && !('0' <= c && c <= '9')
}

/// Whether position `q` of `m` cannot fall strictly inside a placeholder: it
/// is an end of `m`, or a character beside it never stands in one.
pub open spec fn clean_cut(m: Seq<char>, q: int) -> bool {
    ||| q == 0
    ||| q == m.len()
    ||| (0 < q <= m.len() && outside_char(m[q - 1]))
    ||| (0 <= q < m.len() && outside_char(m[q]))
}

proof fn lemma_mask_from_clean(s: Seq<char>, i: int, k: nat)
    requires
        no_placeholder_chars(s),
    ensures
        forall|j: int|
            0 <= j < mask_from(s, i, k).1.len() ==> no_placeholder_chars(
                #[trigger] mask_from(s, i, k).1[j],
            ),
    decreases s.len() - i,
{
    if 0 <= i < s.len() {
        lemma_protected_end(s, i);
        match protected_end(s, i) {
            Some(e) => {
                lemma_mask_from_clean(s, e, k + 1);
                let span = s.subrange(i, e);
                let rest = mask_from(s, e, k + 1).1;
                assert(mask_from(s, i, k).1 == seq![span] + rest);
                assert(no_placeholder_chars(span)) by {
                    if span.contains(PH_OPEN) {
                        let x = choose|x: int| 0 <= x < span.len() && span[x] == PH_OPEN;
                        assert(s[i + x] == PH_OPEN);
                    }
                    if span.contains(PH_CLOSE) {
                        let x = choose|x: int| 0 <= x < span.len() && span[x] == PH_CLOSE;
                        assert(s[i + x] == PH_CLOSE);
                    }
                }
                assert forall|j: int| 0 <= j < (seq![span] + rest).len() implies no_placeholder_chars(
                    #[trigger] (seq![span] + rest)[j],
                ) by {
                    if j > 0 {
                        assert((seq![span] + rest)[j] == rest[j - 1]);
                    }
                }
            },
            None => {
                lemma_mask_from_clean(s, i + 1, k);
                assert(mask_from(s, i, k).1 == mask_from(s, i + 1, k).1);
            },
        }
    }
}

proof fn lemma_concat_clean(a: Seq<char>, b: Seq<char>)
    requires
        no_placeholder_chars(a),
        no_placeholder_chars(b),
    ensures
        no_placeholder_chars(a + b),
{
    assert forall|x: int| 0 <= x < (a + b).len() implies (a + b)[x] != PH_OPEN && (a + b)[x]
        != PH_CLOSE by {
        if x < a.len() {
            assert((a + b)[x] == a[x]);
            assert(!(a[x] == PH_OPEN || a[x] == PH_CLOSE)) by {
                if a[x] == PH_OPEN {
                    assert(a.contains(PH_OPEN));
                }
                if a[x] == PH_CLOSE {
                    assert(a.contains(PH_CLOSE));
                }
            }
        } else {
            assert((a + b)[x] == b[x - a.len()]);
            assert(!(b[x - a.len()] == PH_OPEN || b[x - a.len()] == PH_CLOSE)) by {
                if b[x - a.len()] == PH_OPEN {
                    assert(b.contains(PH_OPEN));
                }
                if b[x - a.len()] == PH_CLOSE {
                    assert(b.contains(PH_CLOSE));
                }
            }
        }
    }
}

/// Restoring a stretch of the masked text between two clean cuts leaves no
/// placeholder character: every placeholder in it is whole.
proof fn lemma_restore_between_cuts(
    s: Seq<char>,
    i: int,
    k: nat,
    protected: Seq<Seq<char>>,
    n: int,
    a: int,
    b: int,
)
    requires
        no_placeholder_chars(s),
        0 <= i <= s.len(),
        k + mask_from(s, i, k).1.len() <= n <= protected.len(),
        forall|j: int| 0 <= j < protected.len() ==> no_placeholder_chars(#[trigger] protected[j]),
        forall|j: int|
            0 <= j < mask_from(s, i, k).1.len() ==> protected[k + j] == #[trigger] mask_from(
                s,
                i,
                k,
            ).1[j],
        0 <= a <= b <= mask_from(s, i, k).0.len(),
        clean_cut(mask_from(s, i, k).0, a),
        clean_cut(mask_from(s, i, k).0, b),
    ensures
        no_placeholder_chars(restore_upto(mask_from(s, i, k).0.subrange(a, b), protected, n)),
    decreases s.len() - i,
{
    let m = mask_from(s, i, k).0;
    assert forall|j: int| 0 <= j < protected.len() implies unmarked(#[trigger] protected[j]) by {
        assert(no_placeholder_chars(protected[j]));
    }
    if a == b {
        assert(m.subrange(a, b) =~= Seq::<char>::empty());
        lemma_restore_empty(protected, n);
        return;
    }
    lemma_protected_end(s, i);
    let (u, next, k2): (Seq<char>, int, nat) = match protected_end(s, i) {
        Some(e) => (placeholder(k), e, k + 1),
        None => (seq![s[i]], i + 1, k),
    };
    let rest = mask_from(s, next, k2);
    assert(m == u + rest.0);
    assert forall|j: int| 0 <= j < rest.1.len() implies protected[k2 + j] == #[trigger] rest.1[j] by {
        if protected_end(s, i) is Some {
            assert(rest.1[j] == mask_from(s, i, k).1[j + 1]);
        } else {
            assert(mask_from(s, i, k).1 == rest.1);
        }
    }
    if protected_end(s, i) is Some {
        assert(mask_from(s, i, k).1.len() == rest.1.len() + 1);
        lemma_placeholder_shape(k);
    } else {
        assert(mask_from(s, i, k).1 == rest.1);
        assert(s[i] != PH_OPEN && s[i] != PH_CLOSE) by {
            if s[i] == PH_OPEN || s[i] == PH_CLOSE {
                assert(s.contains(s[i]));
            }
        }
    }
    // A clean cut never falls strictly inside the first unit.
    assert forall|q: int| 0 < q < u.len() implies !clean_cut(m, q) by {
        lemma_placeholder_shape(k);
        assert(m[q - 1] == u[q - 1]);
        assert(m[q] == u[q]);
    }
    if a >= u.len() {
        assert(m.subrange(a, b) =~= rest.0.subrange(a - u.len(), b - u.len()));
        assert(clean_cut(rest.0, a - u.len())) by {
            if a > u.len() {
                assert(m[a - 1] == rest.0[a - u.len() - 1]);
                if a < m.len() {
                    assert(m[a] == rest.0[a - u.len()]);
                }
            }
        }
        assert(clean_cut(rest.0, b - u.len())) by {
            assert(m[b - 1] == rest.0[b - u.len() - 1]);
            if b < m.len() {
                assert(m[b] == rest.0[b - u.len()]);
            }
        }
        lemma_restore_between_cuts(s, next, k2, protected, n, a - u.len(), b - u.len());
    } else {
        assert(a == 0);
        assert(b >= u.len());
        let tail = rest.0.subrange(0, b - u.len());
        assert(m.subrange(a, b) =~= u + tail);
        assert(clean_cut(rest.0, b - u.len())) by {
            if b > u.len() {
                assert(m[b - 1] == rest.0[b - u.len() - 1]);
                if b < m.len() {
                    assert(m[b] == rest.0[b - u.len()]);
                }
            }
        }
        lemma_restore_between_cuts(s, next, k2, protected, n, 0, b - u.len());
        if protected_end(s, i) is Some {
            lemma_restore_placeholder_prefix(k, tail, protected, n);
            assert(protected[k as int] == mask_from(s, i, k).1[0]);
            lemma_concat_clean(protected[k as int], restore_upto(tail, protected, n));
        } else {
            assert(unmarked(u));
            lemma_restore_unmarked_prefix(u, tail, protected, n);
            assert(no_placeholder_chars(u));
            lemma_concat_clean(u, restore_upto(tail, protected, n));
        }
    }
}

/// Restoring any stretch of a masked text between two clean cuts leaves no
/// placeholder character behind, for a text that held none.
pub proof fn lemma_restore_cut_clean(text: Seq<char>, a: int, b: int)
    requires
        no_placeholder_chars(text),
        0 <= a <= b <= spec_mask(text).0.len(),
        clean_cut(spec_mask(text).0, a),
        clean_cut(spec_mask(text).0, b),
    ensures
        no_placeholder_chars(spec_restore(spec_mask(text).0.subrange(a, b), spec_mask(text).1)),
{
    let protected = spec_mask(text).1;
    lemma_mask_from_clean(text, 0, 0);
    lemma_restore_between_cuts(text, 0, 0, protected, protected.len() as int, a, b);
}

/// Restoring distributes over a clean cut: the stretch from `a` to `c` restores
/// to the stretch from `a` to `b` followed by the one from `b` to `c`.
proof fn lemma_restore_split_from(
    s: Seq<char>,
    i: int,
    k: nat,
    protected: Seq<Seq<char>>,
    n: int,
    a: int,
    b: int,
    c: int,
)
    requires
        unmarked(s),
        0 <= i <= s.len(),
        k + mask_from(s, i, k).1.len() <= n <= protected.len(),
        forall|j: int| 0 <= j < protected.len() ==> unmarked(#[trigger] protected[j]),
        0 <= a <= b <= c <= mask_from(s, i, k).0.len(),
        clean_cut(mask_from(s, i, k).0, a),
        clean_cut(mask_from(s, i, k).0, b),
    ensures
        restore_upto(mask_from(s, i, k).0.subrange(a, c), protected, n) == restore_upto(
            mask_from(s, i, k).0.subrange(a, b),
            protected,
            n,
        ) + restore_upto(mask_from(s, i, k).0.subrange(b, c), protected, n),
    decreases s.len() - i,
{
    let m = mask_from(s, i, k).0;
    if a == b {
        assert(m.subrange(a, b) =~= Seq::<char>::empty());
        lemma_restore_empty(protected, n);
        assert(Seq::<char>::empty() + restore_upto(m.subrange(b, c), protected, n) =~= restore_upto(
            m.subrange(b, c),
            protected,
            n,
        ));
        return;
    }
    lemma_protected_end(s, i);
    let (u, next, k2): (Seq<char>, int, nat) = match protected_end(s, i) {
        Some(e) => (placeholder(k), e, k + 1),
        None => (seq![s[i]], i + 1, k),
    };
    let rest = mask_from(s, next, k2);
    assert(m == u + rest.0);
    if protected_end(s, i) is Some {
        assert(mask_from(s, i, k).1.len() == rest.1.len() + 1);
    } else {
        assert(mask_from(s, i, k).1 == rest.1);
        assert(s[i] != PH_OPEN);
    }
    assert forall|q: int| 0 < q < u.len() implies !clean_cut(m, q) by {
        lemma_placeholder_shape(k);
        assert(m[q - 1] == u[q - 1]);
        assert(m[q] == u[q]);
    }
    let d = u.len() as int;
    if a >= d {
        assert(m.subrange(a, c) =~= rest.0.subrange(a - d, c - d));
        assert(m.subrange(a, b) =~= rest.0.subrange(a - d, b - d));
        assert(m.subrange(b, c) =~= rest.0.subrange(b - d, c - d));
        assert(clean_cut(rest.0, a - d)) by {
            if a > d {
                assert(m[a - 1] == rest.0[a - d - 1]);
                if a < m.len() {
                    assert(m[a] == rest.0[a - d]);
                }
            }
        }
        assert(clean_cut(rest.0, b - d)) by {
            assert(m[b - 1] == rest.0[b - d - 1]);
            if b < m.len() {
                assert(m[b] == rest.0[b - d]);
            }
        }
        lemma_restore_split_from(s, next, k2, protected, n, a - d, b - d, c - d);
    } else {
        assert(a == 0);
        assert(b >= d);
        assert(clean_cut(rest.0, b - d)) by {
            if b > d {
                assert(m[b - 1] == rest.0[b - d - 1]);
                if b < m.len() {
                    assert(m[b] == rest.0[b - d]);
                }
            }
        }
        lemma_restore_split_from(s, next, k2, protected, n, 0, b - d, c - d);
        let x = rest.0.subrange(0, b - d);
        let y = rest.0.subrange(b - d, c - d);
        assert(m.subrange(a, c) =~= u + rest.0.subrange(0, c - d));
        assert(m.subrange(a, b) =~= u + x);
        assert(m.subrange(b, c) =~= y);
        if protected_end(s, i) is Some {
            lemma_restore_placeholder_prefix(k, rest.0.subrange(0, c - d), protected, n);
            lemma_restore_placeholder_prefix(k, x, protected, n);
        } else {
            lemma_restore_unmarked_prefix(u, rest.0.subrange(0, c - d), protected, n);
            lemma_restore_unmarked_prefix(u, x, protected, n);
        }
    }
}

/// Restoring a masked text distributes over any clean cut of it.
pub proof fn lemma_restore_split(text: Seq<char>, a: int, b: int, c: int)
    requires
        unmarked(text),
        0 <= a <= b <= c <= spec_mask(text).0.len(),
        clean_cut(spec_mask(text).0, a),
        clean_cut(spec_mask(text).0, b),
    ensures
        spec_restore(spec_mask(text).0.subrange(a, c), spec_mask(text).1) == spec_restore(
            spec_mask(text).0.subrange(a, b),
            spec_mask(text).1,
        ) + spec_restore(spec_mask(text).0.subrange(b, c), spec_mask(text).1),
{
    let protected = spec_mask(text).1;
    lemma_mask_from_unmarked(text, 0, 0);
    lemma_restore_split_from(text, 0, 0, protected, protected.len() as int, a, b, c);
}

} // verus!
