use vstd::prelude::*;
use crate::chars::{
    all_space, append, advance, chars_of, is_space, lemma_advance, lemma_advance_agree,
    lemma_retreat, lemma_trim_end_append_space, lemma_trim_end_keeps, lemma_trim_end_prefix,
    lemma_trim_subrange, lemma_visible_all_space, lemma_visible_concat, space_pred, visible,
    retreat, starts_plainly, string_of, sub_vec, trim, trim_end, trim_range, trim_start,
};
use crate::violation::{Span, Violation, succ, succ_of, violations_view};
use crate::ast::{Edge, NodeKind, kind_from_name, kind_of, open_kinds};
use crate::document::Document;
use crate::text::{
    dominant_newline, join_lines, lines_view, spec_dominant_newline, spec_split_lines, split_lines,
};
use crate::rules::masking::{
    PH_CLOSE, PH_OPEN, clean_cut, is_char, law_restore_undoes_mask, lemma_mask_from_plain,
    lemma_restore_cut_clean, lemma_restore_empty, lemma_restore_plain, lemma_restore_split,
    lemma_restore_unmarked_prefix, mask, no_placeholder_chars, restore, spec_mask, spec_restore,
    unmarked, vecs_view,
};
use crate::sentence::{
    close_pred, edged_piece, ends_with_sentence_terminator, is_term, lemma_split_sentences_edged,
    piece, sentences_from, spec_is_boundary, term_pred,
    lemma_split_sentences_plain, sentence_edge, spec_ends_with_sentence_terminator,
    spec_split_sentences, split_sentences, strings_view,
};

verus! {

/// Whether a line ends with an author's hard break: two or more trailing spaces.
pub open spec fn hard_break(content: Seq<char>) -> bool {
    content.len() - retreat(content, content.len() as int, is_char(' ')) >= 2
}

pub open spec fn hard_break_pred() -> spec_fn(Seq<char>) -> bool {
    |c: Seq<char>| hard_break(c)
}

pub open spec fn sentence_end_pred() -> spec_fn(Seq<char>) -> bool {
    |c: Seq<char>| spec_ends_with_sentence_terminator(c)
}

/// `lines` cut into runs: a run ends after a line that satisfies `brk`, except
/// that the last line always ends the last run. There is always at least one
/// run (an empty one for no lines).
pub open spec fn runs(lines: Seq<Seq<char>>, brk: spec_fn(Seq<char>) -> bool) -> Seq<Seq<Seq<char>>>
    decreases lines.len(),
{
    if lines.len() == 0 {
        seq![Seq::empty()]
    } else {
        let before = runs(lines.drop_last(), brk);
        let n = lines.len();
        if n >= 2 && brk(lines[n - 2]) {
            before.push(seq![lines.last()])
        } else {
            before.update(before.len() - 1, before.last().push(lines.last()))
        }
    }
}

pub proof fn lemma_runs_nonempty(lines: Seq<Seq<char>>, brk: spec_fn(Seq<char>) -> bool)
    ensures
        runs(lines, brk).len() >= 1,
    decreases lines.len(),
{
    if lines.len() > 0 {
        lemma_runs_nonempty(lines.drop_last(), brk);
    }
}

/// The views of nested vectors of lines.
pub open spec fn runs_view(v: Seq<Vec<Vec<char>>>) -> Seq<Seq<Seq<char>>> {
    v.map_values(|x: Vec<Vec<char>>| vecs_view(x@))
}

pub(crate) fn copy_chars(v: &Vec<char>) -> (r: Vec<char>)
    ensures
        r@ == v@,
{
    let r = sub_vec(v, 0, v.len());
    assert(v@.subrange(0, v@.len() as int) =~= v@);
    r
}

fn ends_with_hard_break(content: &Vec<char>) -> (b: bool)
    ensures
        b == hard_break(content@),
{
    let mut j = content.len();
    while j > 0 && content[j - 1] == ' '
        invariant
            j <= content@.len(),
            retreat(content@, j as int, is_char(' ')) == retreat(
                content@,
                content@.len() as int,
                is_char(' '),
            ),
        decreases j,
    {
        j -= 1;
    }
    content.len() - j >= 2
}

fn ends_sentence(content: &Vec<char>) -> (b: bool)
    ensures
        b == spec_ends_with_sentence_terminator(content@),
{
    let s = string_of(content, 0, content.len());
    assert(content@.subrange(0, content@.len() as int) =~= content@);
    ends_with_sentence_terminator(s.as_str())
}

/// Cuts `lines` into runs, after hard breaks when `hard`, after sentence ends
/// otherwise.
fn cut_runs(lines: &Vec<Vec<char>>, hard: bool) -> (r: Vec<Vec<Vec<char>>>)
    ensures
        runs_view(r@) == runs(vecs_view(lines@), if hard {
            hard_break_pred()
        } else {
            sentence_end_pred()
        }),
{
    let ghost brk = if hard {
        hard_break_pred()
    } else {
        sentence_end_pred()
    };
    let ghost ls = vecs_view(lines@);
    let mut result: Vec<Vec<Vec<char>>> = Vec::new();
    result.push(Vec::new());
    assert(runs_view(result@) =~= runs(ls.take(0), brk)) by {
        assert(vecs_view(result@[0]@) =~= Seq::<Seq<char>>::empty());
    }
    let mut i: usize = 0;
    while i < lines.len()
        invariant
            i <= lines@.len(),
            ls == vecs_view(lines@),
            brk == (if hard {
                hard_break_pred()
            } else {
                sentence_end_pred()
            }),
            runs_view(result@) == runs(ls.take(i as int), brk),
            result@.len() >= 1,
        decreases lines@.len() - i,
    {
        let ghost prefix = ls.take(i + 1);
        assert(prefix.drop_last() =~= ls.take(i as int));
        assert(prefix.last() == lines@[i as int]@);
        let line = copy_chars(&lines[i]);
        let breaks = i >= 1 && if hard {
            ends_with_hard_break(&lines[i - 1])
        } else {
            ends_sentence(&lines[i - 1])
        };
        proof {
            if i >= 1 {
                assert(prefix[i - 1] == lines@[i - 1]@);
            }
        }
        if breaks {
            let mut run: Vec<Vec<char>> = Vec::new();
            run.push(line);
            assert(vecs_view(run@) =~= seq![prefix.last()]);
            result.push(run);
            assert(runs_view(result@) =~= runs(prefix, brk));
        } else {
            let mut last = result.pop().unwrap();
            let ghost old_last = vecs_view(last@);
            last.push(line);
            assert(vecs_view(last@) =~= old_last.push(prefix.last()));
            result.push(last);
            assert(runs_view(result@) =~= runs(prefix, brk));
        }
        i += 1;
    }
    assert(ls.take(i as int) =~= ls);
    result
}

/// Split a paragraph's (prefix-stripped) lines into segments at author hard
/// breaks (two or more trailing spaces), which we never join across.
fn segment_on_hard_breaks(stripped: &Vec<Vec<char>>) -> (r: Vec<Vec<Vec<char>>>)
    ensures
        runs_view(r@) == runs(vecs_view(stripped@), hard_break_pred()),
{
    cut_runs(stripped, true)
}

/// Split a segment into groups joined only across soft wraps. A line that ends
/// with a real sentence terminator ends its group, so an author's explicit break
/// between sentences is preserved even when the next sentence starts lowercase.
fn join_groups(segment: &Vec<Vec<char>>) -> (r: Vec<Vec<Vec<char>>>)
    ensures
        runs_view(r@) == runs(vecs_view(segment@), sentence_end_pred()),
{
    cut_runs(segment, false)
}

/// The trimmed, non-empty lines of a group joined by single spaces: the
/// group's logical text.
pub open spec fn joined_text(group: Seq<Seq<char>>) -> Seq<char>
    decreases group.len(),
{
    if group.len() == 0 {
        Seq::empty()
    } else {
        let before = joined_text(group.drop_last());
        let t = trim(group.last());
        if t.len() == 0 {
            before
        } else if before.len() == 0 {
            t
        } else {
            before + seq![' '] + t
        }
    }
}

/// The non-empty sequences of `ss`, in order.
pub open spec fn non_empty(ss: Seq<Seq<char>>) -> Seq<Seq<char>>
    decreases ss.len(),
{
    if ss.len() == 0 {
        Seq::empty()
    } else if ss.last().len() == 0 {
        non_empty(ss.drop_last())
    } else {
        non_empty(ss.drop_last()).push(ss.last())
    }
}

/// The sentences of a group, after restoring each one's protected spans.
pub open spec fn restored_all(ss: Seq<Seq<char>>, protected: Seq<Seq<char>>) -> Seq<Seq<char>> {
    ss.map_values(|s: Seq<char>| spec_restore(s, protected))
}

/// Join a group's soft-wrapped lines and split the result into sentences, with
/// inline code, links and autolinks protected from the split.
pub open spec fn spec_sentences_of(group: Seq<Seq<char>>) -> Seq<Seq<char>> {
    let masked = spec_mask(joined_text(group));
    non_empty(restored_all(spec_split_sentences(masked.0), masked.1))
}

pub(crate) fn join_group(group: &Vec<Vec<char>>) -> (r: Vec<char>)
    ensures
        r@ == joined_text(vecs_view(group@)),
{
    let ghost g = vecs_view(group@);
    let mut out: Vec<char> = Vec::new();
    let mut i: usize = 0;
    while i < group.len()
        invariant
            i <= group@.len(),
            g == vecs_view(group@),
            out@ == joined_text(g.take(i as int)),
        decreases group@.len() - i,
    {
        let ghost prefix = g.take(i + 1);
        assert(prefix.drop_last() =~= g.take(i as int));
        assert(prefix.last() == group@[i as int]@);
        let line = &group[i];
        let (a, b) = trim_range(line, 0, line.len());
        assert(line@.subrange(0, line@.len() as int) =~= line@);
        if a < b {
            if out.len() > 0 {
                out.push(' ');
            }
            let ghost before = out@;
            let mut k = a;
            while k < b
                invariant
                    a <= k <= b <= line@.len(),
                    out@ == before + line@.subrange(a as int, k as int),
                decreases b - k,
            {
                out.push(line[k]);
                k += 1;
                assert(out@ =~= before + line@.subrange(a as int, k as int));
            }
            assert(out@ =~= joined_text(prefix));
        } else {
            assert(out@ =~= joined_text(prefix));
        }
        i += 1;
    }
    assert(g.take(i as int) =~= g);
    out
}

/// Join a group's soft-wrapped lines and split the result into sentences.
fn sentences_of(group: &Vec<Vec<char>>) -> (r: Vec<Vec<char>>)
    ensures
        vecs_view(r@) == spec_sentences_of(vecs_view(group@)),
{
    let joined = join_group(group);
    let (masked, protected) = mask(&joined);
    let masked_text = string_of(&masked, 0, masked.len());
    assert(masked@.subrange(0, masked@.len() as int) =~= masked@);
    let pieces = split_sentences(masked_text.as_str());
    let ghost ps = strings_view(pieces@);
    let ghost restored = restored_all(ps, vecs_view(protected@));
    let mut out: Vec<Vec<char>> = Vec::new();
    let mut i: usize = 0;
    assert(vecs_view(out@) =~= non_empty(restored.take(0)));
    while i < pieces.len()
        invariant
            i <= pieces@.len(),
            ps == strings_view(pieces@),
            restored == restored_all(ps, vecs_view(protected@)),
            vecs_view(out@) == non_empty(restored.take(i as int)),
        decreases pieces@.len() - i,
    {
        let ghost prefix = restored.take(i + 1);
        assert(prefix.drop_last() =~= restored.take(i as int));
        let sentence = chars_of(pieces[i].as_str());
        let back = restore(&sentence, &protected);
        assert(prefix.last() == back@);
        if back.len() > 0 {
            let ghost before = vecs_view(out@);
            out.push(back);
            assert(vecs_view(out@) =~= before.push(back@));
        }
        i += 1;
    }
    assert(restored.take(i as int) =~= restored);
    out
}

/// Whether `s` starts with something Markdown reads as a block: a heading or
/// quote marker, a bullet, an ordered-list number, or a thematic break.
pub open spec fn block_marker(s: Seq<char>) -> bool {
    ||| (s.len() > 0 && (s[0] == '#' || s[0] == '>'))
    ||| bullet(s)
    ||| ordered(s)
    ||| rule_line(s)
}

pub open spec fn bullet(s: Seq<char>) -> bool {
    s.len() > 0 && (s[0] == '-' || s[0] == '*' || s[0] == '+') && (s.len() == 1 || s[1] == ' ')
}

pub open spec fn digit_pred() -> spec_fn(char) -> bool {
    |c: char| '0' <= c && c <= '9'
}

pub open spec fn ordered(s: Seq<char>) -> bool {
    let i = advance(s, 0, digit_pred());
    i > 0 && i < s.len() && (s[i] == '.' || s[i] == ')') && (i + 1 == s.len() || s[i + 1] == ' ')
}

pub open spec fn rule_char(c: char) -> bool {
    c == '-' || c == '=' || c == '*' || c == '_'
}

pub open spec fn rule_line(s: Seq<char>) -> bool {
    let t = trim(s);
    t.len() >= 3 && forall|k: int| 0 <= k < t.len() ==> rule_char(#[trigger] t[k])
}

fn starts_with_bullet(s: &Vec<char>) -> (b: bool)
    ensures
        b == bullet(s@),
{
    s.len() > 0 && (s[0] == '-' || s[0] == '*' || s[0] == '+') && (s.len() == 1 || s[1] == ' ')
}

fn starts_with_ordered(s: &Vec<char>) -> (b: bool)
    ensures
        b == ordered(s@),
{
    let mut i: usize = 0;
    while i < s.len() && '0' <= s[i] && s[i] <= '9'
        invariant
            i <= s@.len(),
            advance(s@, i as int, digit_pred()) == advance(s@, 0, digit_pred()),
        decreases s@.len() - i,
    {
        i += 1;
    }
    if i == 0 || i >= s.len() || (s[i] != '.' && s[i] != ')') {
        return false;
    }
    i + 1 == s.len() || s[i + 1] == ' '
}

fn is_rule_line(s: &Vec<char>) -> (b: bool)
    ensures
        b == rule_line(s@),
{
    let (a, b) = trim_range(s, 0, s.len());
    assert(s@.subrange(0, s@.len() as int) =~= s@);
    let ghost t = s@.subrange(a as int, b as int);
    if b - a < 3 {
        return false;
    }
    let mut k = a;
    while k < b
        invariant
            a <= k <= b <= s@.len(),
            t == s@.subrange(a as int, b as int),
            t == trim(s@),
            forall|m: int| 0 <= m < k - a ==> rule_char(#[trigger] t[m]),
        decreases b - k,
    {
        let c = s[k];
        if !(c == '-' || c == '=' || c == '*' || c == '_') {
            assert(!rule_char(t[k - a]));
            return false;
        }
        k += 1;
    }
    true
}

fn starts_with_block_marker(s: &Vec<char>) -> (b: bool)
    ensures
        b == block_marker(s@),
{
    (s.len() > 0 && (s[0] == '#' || s[0] == '>')) || starts_with_bullet(s) || starts_with_ordered(s)
        || is_rule_line(s)
}

/// Merge back any sentence that would begin a line with a block marker, so the
/// re-emitted text cannot be reparsed as a list, heading, quote, or rule.
pub open spec fn merged(ss: Seq<Seq<char>>) -> Seq<Seq<char>>
    decreases ss.len(),
{
    if ss.len() == 0 {
        Seq::empty()
    } else {
        let m = merged(ss.drop_last());
        let x = ss.last();
        if m.len() > 0 && block_marker(x) {
            m.update(m.len() - 1, m.last() + seq![' '] + x)
        } else {
            m.push(x)
        }
    }
}

/// A text that begins plainly and no block, followed by a space and anything
/// more, still begins no block.
proof fn lemma_extension_starts_no_block(a: Seq<char>, x: Seq<char>)
    requires
        starts_plainly(a),
        !block_marker(a),
    ensures
        !block_marker(a + seq![' '] + x),
        starts_plainly(a + seq![' '] + x),
{
    let y = a + seq![' '] + x;
    assert(y[0] == a[0]);
    assert(y[a.len() as int] == ' ');
    assert forall|k: int| 0 <= k < a.len() implies y[k] == a[k] by {}
    if a.len() >= 2 {
        assert(y[1] == a[1]);
    }
    // Not an ordered-list number.
    lemma_advance(a, 0, digit_pred());
    lemma_advance_agree(a, y, 0, digit_pred());
    let i = advance(a, 0, digit_pred());
    if i >= a.len() {
        assert(advance(y, a.len() as int, digit_pred()) == a.len());
    } else if i + 1 < a.len() {
        assert(y[i + 1] == a[i + 1]);
    }
    // Not a thematic break.
    assert(trim_start(y) == y);
    assert(trim_start(a) == a);
    if all_space(x) {
        assert forall|k: int| 0 <= k < (seq![' '] + x).len() implies is_space(
            #[trigger] (seq![' '] + x)[k],
        ) by {
            if k > 0 {
                assert((seq![' '] + x)[k] == x[k - 1]);
            }
        }
        assert(y =~= a + (seq![' '] + x));
        lemma_trim_end_append_space(a, seq![' '] + x);
    } else {
        let jx = choose|k: int| 0 <= k < x.len() && !is_space(#[trigger] x[k]);
        assert(y[a.len() + 1 + jx] == x[jx]);
        lemma_trim_end_keeps(y, a.len() + 1 + jx);
        lemma_trim_end_prefix(y);
        assert(trim_end(y)[a.len() as int] == ' ');
        assert(!rule_char(trim(y)[a.len() as int]));
    }
}

/// Merging leaves no line to begin a block: in the merged sentences, every
/// one after the first starts with something Markdown cannot read as a list,
/// heading, quote, or rule, provided each sentence begins with a non-space.
pub proof fn law_merged_lines_start_no_block(ss: Seq<Seq<char>>)
    requires
        forall|i: int| 0 <= i < ss.len() ==> starts_plainly(#[trigger] ss[i]),
    ensures
        forall|k: int| 0 <= k < merged(ss).len() ==> starts_plainly(#[trigger] merged(ss)[k]),
        forall|k: int| 1 <= k < merged(ss).len() ==> !block_marker(#[trigger] merged(ss)[k]),
    decreases ss.len(),
{
    if ss.len() > 0 {
        let init = ss.drop_last();
        assert forall|i: int| 0 <= i < init.len() implies starts_plainly(#[trigger] init[i]) by {
            assert(init[i] == ss[i]);
        }
        law_merged_lines_start_no_block(init);
        let m = merged(init);
        let x = ss.last();
        assert(starts_plainly(ss[ss.len() - 1]));
        if m.len() > 0 && block_marker(x) {
            let last = m[m.len() - 1];
            assert(starts_plainly(last));
            if m.len() > 1 {
                assert(!block_marker(last));
                lemma_extension_starts_no_block(last, x);
            } else {
                assert((last + seq![' '] + x)[0] == last[0]);
            }
        }
    }
}

proof fn lemma_non_empty_plain(ss: Seq<Seq<char>>)
    requires
        forall|i: int| 0 <= i < ss.len() ==> (#[trigger] ss[i]).len() == 0 || starts_plainly(ss[i]),
    ensures
        forall|k: int| 0 <= k < non_empty(ss).len() ==> starts_plainly(#[trigger] non_empty(ss)[k]),
    decreases ss.len(),
{
    if ss.len() > 0 {
        let init = ss.drop_last();
        assert forall|i: int| 0 <= i < init.len() implies (#[trigger] init[i]).len() == 0
            || starts_plainly(init[i]) by {
            assert(init[i] == ss[i]);
        }
        lemma_non_empty_plain(init);
        assert(ss.last() == ss[ss.len() - 1]);
        let before = non_empty(init);
        if ss.last().len() > 0 {
            assert forall|k: int| 0 <= k < before.push(ss.last()).len() implies starts_plainly(
                #[trigger] before.push(ss.last())[k],
            ) by {
                if k < before.len() {
                    assert(before.push(ss.last())[k] == before[k]);
                }
            }
        }
    }
}

/// Every sentence of a group begins with a non-space.
proof fn lemma_sentences_of_plain(group: Seq<Seq<char>>)
    ensures
        forall|k: int|
            0 <= k < spec_sentences_of(group).len() ==> starts_plainly(
                #[trigger] spec_sentences_of(group)[k],
            ),
{
    let masked = spec_mask(joined_text(group));
    let pieces = spec_split_sentences(masked.0);
    lemma_mask_from_plain(joined_text(group), 0, 0);
    lemma_split_sentences_plain(masked.0);
    let restored = restored_all(pieces, masked.1);
    assert forall|i: int| 0 <= i < restored.len() implies (#[trigger] restored[i]).len() == 0
        || starts_plainly(restored[i]) by {
        lemma_restore_plain(pieces[i], masked.1, masked.1.len() as int);
    }
    lemma_non_empty_plain(restored);
}

proof fn lemma_all_sentences_plain(groups: Seq<Seq<Seq<char>>>)
    ensures
        forall|k: int|
            0 <= k < all_sentences(groups).len() ==> starts_plainly(
                #[trigger] all_sentences(groups)[k],
            ),
    decreases groups.len(),
{
    if groups.len() > 0 {
        lemma_all_sentences_plain(groups.drop_last());
        lemma_sentences_of_plain(groups.last());
        let a = all_sentences(groups.drop_last());
        let b = spec_sentences_of(groups.last());
        assert forall|k: int| 0 <= k < (a + b).len() implies starts_plainly(#[trigger] (a + b)[k]) by {
            if k >= a.len() {
                assert((a + b)[k] == b[k - a.len()]);
            }
        }
    }
}

/// A sentence is never split where its new line would begin a block: within
/// each hard-break segment, every sentence after the first starts with
/// something Markdown cannot read as a list, heading, quote, or rule.
pub proof fn law_no_sentence_line_starts_a_block(segment: Seq<Seq<char>>)
    ensures
        forall|k: int|
            1 <= k < segment_sentences(segment).len() ==> !block_marker(
                #[trigger] segment_sentences(segment)[k],
            ),
{
    let ss = all_sentences(runs(segment, sentence_end_pred()));
    lemma_all_sentences_plain(runs(segment, sentence_end_pred()));
    law_merged_lines_start_no_block(ss);
}

proof fn lemma_subrange_clean(x: Seq<char>, a: int, b: int)
    requires
        no_placeholder_chars(x),
        0 <= a <= b <= x.len(),
    ensures
        no_placeholder_chars(x.subrange(a, b)),
{
    let y = x.subrange(a, b);
    if y.contains(PH_OPEN) {
        let i = choose|i: int| 0 <= i < y.len() && y[i] == PH_OPEN;
        assert(x[a + i] == PH_OPEN);
    }
    if y.contains(PH_CLOSE) {
        let i = choose|i: int| 0 <= i < y.len() && y[i] == PH_CLOSE;
        assert(x[a + i] == PH_CLOSE);
    }
}

proof fn lemma_join_clean(a: Seq<char>, b: Seq<char>, c: Seq<char>)
    requires
        no_placeholder_chars(a),
        no_placeholder_chars(b),
        no_placeholder_chars(c),
    ensures
        no_placeholder_chars(a + b + c),
{
    let x = a + b + c;
    assert forall|i: int| 0 <= i < x.len() implies x[i] != PH_OPEN && x[i] != PH_CLOSE by {
        if i < a.len() {
            assert(x[i] == a[i]);
            if a[i] == PH_OPEN || a[i] == PH_CLOSE {
                assert(a.contains(a[i]));
            }
        } else if i < a.len() + b.len() {
            assert(x[i] == b[i - a.len()]);
            if b[i - a.len()] == PH_OPEN || b[i - a.len()] == PH_CLOSE {
                assert(b.contains(b[i - a.len()]));
            }
        } else {
            assert(x[i] == c[i - a.len() - b.len()]);
            if c[i - a.len() - b.len()] == PH_OPEN || c[i - a.len() - b.len()] == PH_CLOSE {
                assert(c.contains(c[i - a.len() - b.len()]));
            }
        }
    }
}

proof fn lemma_joined_text_clean(group: Seq<Seq<char>>)
    requires
        forall|i: int| 0 <= i < group.len() ==> no_placeholder_chars(#[trigger] group[i]),
    ensures
        no_placeholder_chars(joined_text(group)),
    decreases group.len(),
{
    if group.len() > 0 {
        let init = group.drop_last();
        assert forall|i: int| 0 <= i < init.len() implies no_placeholder_chars(#[trigger] init[i]) by {
            assert(init[i] == group[i]);
        }
        lemma_joined_text_clean(init);
        let line = group.last();
        assert(no_placeholder_chars(line)) by {
            assert(line == group[group.len() - 1]);
        }
        let r = lemma_trim_subrange(line, 0, line.len() as int);
        assert(line.subrange(0, line.len() as int) =~= line);
        lemma_subrange_clean(line, r.0, r.1);
        lemma_join_clean(joined_text(init), seq![' '], trim(line));
        assert(Seq::<char>::empty() + Seq::<char>::empty() + trim(line) =~= trim(line));
        lemma_join_clean(Seq::<char>::empty(), Seq::<char>::empty(), trim(line));
    }
}

proof fn lemma_non_empty_clean(ss: Seq<Seq<char>>)
    requires
        forall|i: int| 0 <= i < ss.len() ==> no_placeholder_chars(#[trigger] ss[i]),
    ensures
        forall|k: int| 0 <= k < non_empty(ss).len() ==> no_placeholder_chars(
            #[trigger] non_empty(ss)[k],
        ),
    decreases ss.len(),
{
    if ss.len() > 0 {
        let init = ss.drop_last();
        assert forall|i: int| 0 <= i < init.len() implies no_placeholder_chars(#[trigger] init[i]) by {
            assert(init[i] == ss[i]);
        }
        lemma_non_empty_clean(init);
        assert(ss.last() == ss[ss.len() - 1]);
        let before = non_empty(init);
        if ss.last().len() > 0 {
            assert forall|k: int| 0 <= k < before.push(ss.last()).len() implies no_placeholder_chars(
                #[trigger] before.push(ss.last())[k],
            ) by {
                if k < before.len() {
                    assert(before.push(ss.last())[k] == before[k]);
                }
            }
        }
    }
}

/// Every sentence of a group free of placeholder characters is free of them
/// too: each protected span comes back whole.
proof fn lemma_sentences_of_clean(group: Seq<Seq<char>>)
    requires
        forall|i: int| 0 <= i < group.len() ==> no_placeholder_chars(#[trigger] group[i]),
    ensures
        forall|k: int|
            0 <= k < spec_sentences_of(group).len() ==> no_placeholder_chars(
                #[trigger] spec_sentences_of(group)[k],
            ),
{
    let text = joined_text(group);
    lemma_joined_text_clean(group);
    let masked = spec_mask(text);
    let m = masked.0;
    let pieces = spec_split_sentences(m);
    lemma_split_sentences_edged(m);
    let restored = restored_all(pieces, masked.1);
    assert forall|i: int| 0 <= i < restored.len() implies no_placeholder_chars(
        #[trigger] restored[i],
    ) by {
        assert(edged_piece(m, pieces[i]));
        let (a, b) = choose|a: int, b: int|
            0 <= a <= b <= m.len() && sentence_edge(m, a) && sentence_edge(m, b) && pieces[i]
                == #[trigger] m.subrange(a, b);
        assert(clean_cut(m, a));
        assert(clean_cut(m, b));
        lemma_restore_cut_clean(text, a, b);
    }
    lemma_non_empty_clean(restored);
}

proof fn lemma_all_sentences_clean(groups: Seq<Seq<Seq<char>>>)
    requires
        forall|r: int, j: int|
            0 <= r < groups.len() && 0 <= j < groups[r].len() ==> no_placeholder_chars(
                #[trigger] groups[r][j],
            ),
    ensures
        forall|k: int|
            0 <= k < all_sentences(groups).len() ==> no_placeholder_chars(
                #[trigger] all_sentences(groups)[k],
            ),
    decreases groups.len(),
{
    if groups.len() > 0 {
        let init = groups.drop_last();
        assert forall|r: int, j: int|
            0 <= r < init.len() && 0 <= j < init[r].len() implies no_placeholder_chars(
                #[trigger] init[r][j],
            ) by {
            assert(init[r] == groups[r]);
        }
        lemma_all_sentences_clean(init);
        let g = groups.last();
        assert forall|j: int| 0 <= j < g.len() implies no_placeholder_chars(#[trigger] g[j]) by {
            assert(g == groups[groups.len() - 1]);
        }
        lemma_sentences_of_clean(g);
        let a = all_sentences(init);
        let b = spec_sentences_of(g);
        assert forall|k: int| 0 <= k < (a + b).len() implies no_placeholder_chars(
            #[trigger] (a + b)[k],
        ) by {
            if k >= a.len() {
                assert((a + b)[k] == b[k - a.len()]);
            } else {
                assert((a + b)[k] == a[k]);
            }
        }
    }
}

proof fn lemma_runs_clean(lines: Seq<Seq<char>>, brk: spec_fn(Seq<char>) -> bool)
    requires
        forall|i: int| 0 <= i < lines.len() ==> no_placeholder_chars(#[trigger] lines[i]),
    ensures
        forall|r: int, j: int|
            0 <= r < runs(lines, brk).len() && 0 <= j < runs(lines, brk)[r].len()
                ==> no_placeholder_chars(#[trigger] runs(lines, brk)[r][j]),
    decreases lines.len(),
{
    if lines.len() > 0 {
        let init = lines.drop_last();
        assert forall|i: int| 0 <= i < init.len() implies no_placeholder_chars(#[trigger] init[i]) by {
            assert(init[i] == lines[i]);
        }
        lemma_runs_clean(init, brk);
        lemma_runs_nonempty(init, brk);
        let before = runs(init, brk);
        let x = lines.last();
        assert(no_placeholder_chars(x)) by {
            assert(x == lines[lines.len() - 1]);
        }
        let all = runs(lines, brk);
        assert forall|r: int, j: int| 0 <= r < all.len() && 0 <= j < all[r].len() implies no_placeholder_chars(
            #[trigger] all[r][j],
        ) by {
            let n = lines.len();
            if n >= 2 && brk(lines[n - 2]) {
                if r < before.len() {
                    assert(all[r] == before[r]);
                } else {
                    assert(all[r] == seq![x]);
                }
            } else {
                if r < before.len() - 1 {
                    assert(all[r] == before[r]);
                } else {
                    assert(all[r] == before.last().push(x));
                    if j < before.last().len() {
                        assert(all[r][j] == before[before.len() - 1][j]);
                    }
                }
            }
        }
    }
}

proof fn lemma_merged_clean(ss: Seq<Seq<char>>)
    requires
        forall|i: int| 0 <= i < ss.len() ==> no_placeholder_chars(#[trigger] ss[i]),
    ensures
        forall|k: int| 0 <= k < merged(ss).len() ==> no_placeholder_chars(#[trigger] merged(ss)[k]),
    decreases ss.len(),
{
    if ss.len() > 0 {
        let init = ss.drop_last();
        assert forall|i: int| 0 <= i < init.len() implies no_placeholder_chars(#[trigger] init[i]) by {
            assert(init[i] == ss[i]);
        }
        lemma_merged_clean(init);
        let m = merged(init);
        let x = ss.last();
        assert(no_placeholder_chars(x)) by {
            assert(x == ss[ss.len() - 1]);
        }
        if m.len() > 0 && block_marker(x) {
            let last = m[m.len() - 1];
            lemma_join_clean(last, seq![' '], x);
        }
    }
}

/// Inline code, links and autolinks are never split between sentences: in a
/// hard-break segment free of the private-use characters that stand in for
/// them, no sentence line keeps a placeholder character, so every protected
/// span is restored whole inside one sentence.
pub proof fn law_protected_spans_stay_whole(segment: Seq<Seq<char>>)
    requires
        forall|i: int| 0 <= i < segment.len() ==> no_placeholder_chars(#[trigger] segment[i]),
    ensures
        forall|k: int|
            0 <= k < segment_sentences(segment).len() ==> no_placeholder_chars(
                #[trigger] segment_sentences(segment)[k],
            ),
{
    let groups = runs(segment, sentence_end_pred());
    lemma_runs_clean(segment, sentence_end_pred());
    lemma_all_sentences_clean(groups);
    lemma_merged_clean(all_sentences(groups));
}

/// The texts of `ss` one after another.
pub open spec fn joined(ss: Seq<Seq<char>>) -> Seq<char>
    decreases ss.len(),
{
    if ss.len() == 0 {
        Seq::empty()
    } else {
        joined(ss.drop_last()) + ss.last()
    }
}

proof fn lemma_joined_concat(a: Seq<Seq<char>>, b: Seq<Seq<char>>)
    ensures
        joined(a + b) == joined(a) + joined(b),
    decreases b.len(),
{
    if b.len() == 0 {
        assert(a + b =~= a);
        assert(joined(a) + joined(b) =~= joined(a));
    } else {
        lemma_joined_concat(a, b.drop_last());
        assert((a + b).drop_last() =~= a + b.drop_last());
        assert((a + b).last() == b.last());
        assert(joined(a + b) =~= joined(a) + joined(b));
    }
}

/// A stretch of whitespace restores to itself, and so shows nothing.
proof fn lemma_blank_stretch_visible(text: Seq<char>, a: int, b: int)
    requires
        0 <= a <= b <= spec_mask(text).0.len(),
        all_space(spec_mask(text).0.subrange(a, b)),
    ensures
        visible(spec_restore(spec_mask(text).0.subrange(a, b), spec_mask(text).1)).len() == 0,
{
    let x = spec_mask(text).0.subrange(a, b);
    let ps = spec_mask(text).1;
    assert(unmarked(x)) by {
        if x.contains(PH_OPEN) {
            let i = choose|i: int| 0 <= i < x.len() && x[i] == PH_OPEN;
            assert(is_space(x[i]));
        }
    }
    lemma_restore_unmarked_prefix(x, Seq::<char>::empty(), ps, ps.len() as int);
    lemma_restore_empty(ps, ps.len() as int);
    assert(x + Seq::<char>::empty() =~= x);
    lemma_visible_all_space(x);
}

/// The sentence a stretch between two edges yields shows what the stretch shows.
proof fn lemma_piece_visible(text: Seq<char>, a: int, b: int)
    requires
        unmarked(text),
        0 <= a <= b <= spec_mask(text).0.len(),
        sentence_edge(spec_mask(text).0, a),
        sentence_edge(spec_mask(text).0, b),
    ensures
        visible(
            joined(restored_all(piece(spec_mask(text).0.subrange(a, b)), spec_mask(text).1)),
        ) == visible(spec_restore(spec_mask(text).0.subrange(a, b), spec_mask(text).1)),
{
    let m = spec_mask(text).0;
    let ps = spec_mask(text).1;
    let r = lemma_trim_subrange(m, a, b);
    assert(sentence_edge(m, r.0));
    assert(sentence_edge(m, r.1));
    lemma_restore_split(text, a, r.0, b);
    lemma_restore_split(text, r.0, r.1, b);
    lemma_blank_stretch_visible(text, a, r.0);
    lemma_blank_stretch_visible(text, r.1, b);
    let left = spec_restore(m.subrange(a, r.0), ps);
    let mid = spec_restore(m.subrange(r.0, r.1), ps);
    let right = spec_restore(m.subrange(r.1, b), ps);
    lemma_visible_concat(left, mid + right);
    lemma_visible_concat(mid, right);
    let p = piece(m.subrange(a, b));
    if trim(m.subrange(a, b)).len() > 0 {
        assert(restored_all(p, ps) =~= seq![mid]);
        assert(joined(seq![mid]) =~= mid) by {
            assert(seq![mid].drop_last() =~= Seq::<Seq<char>>::empty());
            assert(joined(Seq::<Seq<char>>::empty()) == Seq::<char>::empty());
            assert(seq![mid].last() == mid);
        }
        assert(visible(left + (mid + right)) =~= visible(mid));
    } else {
        assert(m.subrange(r.0, r.1).len() == 0);
        assert(m.subrange(r.0, r.1) =~= Seq::<char>::empty());
        lemma_restore_empty(ps, ps.len() as int);
        assert(restored_all(p, ps) =~= Seq::<Seq<char>>::empty());
        assert(visible(mid).len() == 0);
        assert(visible(left + (mid + right)) =~= Seq::<char>::empty());
    }
}

proof fn lemma_restored_all_concat(a: Seq<Seq<char>>, b: Seq<Seq<char>>, ps: Seq<Seq<char>>)
    ensures
        restored_all(a + b, ps) == restored_all(a, ps) + restored_all(b, ps),
{
    assert(restored_all(a + b, ps) =~= restored_all(a, ps) + restored_all(b, ps));
}

/// The sentences found from `start` on, restored, show what the rest of the
/// text shows once restored.
proof fn lemma_sentences_from_visible(text: Seq<char>, start: int, index: int)
    requires
        unmarked(text),
        0 <= start <= index,
        start <= spec_mask(text).0.len(),
        sentence_edge(spec_mask(text).0, start),
    ensures
        visible(
            joined(restored_all(sentences_from(spec_mask(text).0, start, index), spec_mask(text).1)),
        ) == visible(
            spec_restore(
                spec_mask(text).0.subrange(start, spec_mask(text).0.len() as int),
                spec_mask(text).1,
            ),
        ),
    decreases spec_mask(text).0.len() - index,
{
    let m = spec_mask(text).0;
    let ps = spec_mask(text).1;
    let len = m.len() as int;
    if index >= len {
        if start < len {
            lemma_piece_visible(text, start, len);
            assert(sentences_from(m, start, index) == piece(m.subrange(start, len)));
        } else {
            assert(sentences_from(m, start, index) == Seq::<Seq<char>>::empty());
            assert(m.subrange(start, len) =~= Seq::<char>::empty());
            lemma_restore_empty(ps, ps.len() as int);
            assert(restored_all(Seq::<Seq<char>>::empty(), ps) =~= Seq::<Seq<char>>::empty());
        }
    } else if !is_term(m[index]) {
        lemma_sentences_from_visible(text, start, index + 1);
        assert(sentences_from(m, start, index) == sentences_from(m, start, index + 1));
    } else {
        lemma_advance(m, index + 1, term_pred());
        let run_end = advance(m, index + 1, term_pred());
        lemma_advance(m, run_end, close_pred());
        let after = advance(m, run_end, close_pred());
        if spec_is_boundary(m, index, run_end, after) {
            lemma_advance(m, after, space_pred());
            let next = advance(m, after, space_pred());
            assert(sentence_edge(m, after)) by {
                if after > run_end {
                    assert(close_pred()(m[after - 1]));
                } else if run_end > index + 1 {
                    assert(term_pred()(m[run_end - 1]));
                }
            }
            assert(sentence_edge(m, next)) by {
                if next > after {
                    assert(space_pred()(m[next - 1]));
                }
            }
            let head = piece(m.subrange(start, after));
            let rest = sentences_from(m, next, next);
            assert(sentences_from(m, start, index) == head + rest);
            lemma_piece_visible(text, start, after);
            lemma_sentences_from_visible(text, next, next);
            lemma_restored_all_concat(head, rest, ps);
            lemma_joined_concat(restored_all(head, ps), restored_all(rest, ps));
            lemma_visible_concat(joined(restored_all(head, ps)), joined(restored_all(rest, ps)));
            lemma_restore_split(text, start, after, len);
            lemma_restore_split(text, after, next, len);
            assert(all_space(m.subrange(after, next))) by {
                assert forall|q: int| 0 <= q < m.subrange(after, next).len() implies is_space(
                    #[trigger] m.subrange(after, next)[q],
                ) by {
                    assert(space_pred()(m[after + q]));
                }
            }
            lemma_blank_stretch_visible(text, after, next);
            let x = spec_restore(m.subrange(start, after), ps);
            let y = spec_restore(m.subrange(after, next), ps);
            let z = spec_restore(m.subrange(next, len), ps);
            lemma_visible_concat(x, y + z);
            lemma_visible_concat(y, z);
            assert(visible(y + z) =~= visible(z));
        } else {
            lemma_sentences_from_visible(text, start, run_end);
            assert(sentences_from(m, start, index) == sentences_from(m, start, run_end));
        }
    }
}

/// Splitting a masked text into sentences and restoring each one shows every
/// character the text shows.
proof fn lemma_split_visible(text: Seq<char>)
    requires
        unmarked(text),
    ensures
        visible(joined(restored_all(spec_split_sentences(spec_mask(text).0), spec_mask(text).1)))
            == visible(text),
{
    let m = spec_mask(text).0;
    let ps = spec_mask(text).1;
    lemma_sentences_from_visible(text, 0, 0);
    assert(m.subrange(0, m.len() as int) =~= m);
    law_restore_undoes_mask(text);
    if sentences_from(m, 0, 0).len() == 0 {
        lemma_piece_visible(text, 0, m.len() as int);
        let p = piece(m);
        if trim(m).len() > 0 {
            assert(spec_split_sentences(m) =~= p);
        } else {
            let single = seq![trim(m)];
            assert(trim(m) =~= Seq::<char>::empty());
            lemma_restore_empty(ps, ps.len() as int);
            assert(restored_all(single, ps) =~= seq![Seq::<char>::empty()]);
            assert(joined(seq![Seq::<char>::empty()]) =~= Seq::<char>::empty()) by {
                assert(seq![Seq::<char>::empty()].drop_last() =~= Seq::<Seq<char>>::empty());
                assert(joined(Seq::<Seq<char>>::empty()) == Seq::<char>::empty());
            }
            assert(restored_all(p, ps) =~= Seq::<Seq<char>>::empty());
        }
    }
}

proof fn lemma_joined_non_empty(ss: Seq<Seq<char>>)
    ensures
        joined(non_empty(ss)) == joined(ss),
    decreases ss.len(),
{
    if ss.len() > 0 {
        lemma_joined_non_empty(ss.drop_last());
        let before = non_empty(ss.drop_last());
        if ss.last().len() == 0 {
            assert(ss.last() =~= Seq::<char>::empty());
            assert(joined(ss) =~= joined(ss.drop_last()));
        } else {
            assert(before.push(ss.last()).drop_last() =~= before);
            assert(joined(before.push(ss.last())) == joined(before) + ss.last());
        }
    }
}

proof fn lemma_visible_space()
    ensures
        visible(seq![' ']) == Seq::<char>::empty(),
{
    assert(seq![' '].drop_last() =~= Seq::<char>::empty());
    assert(is_space(seq![' '].last()));
    assert(visible(Seq::<char>::empty()) == Seq::<char>::empty());
}

/// Trimming a line hides nothing and keeps it free of the placeholder opener.
proof fn lemma_trim_line(line: Seq<char>)
    ensures
        visible(trim(line)) == visible(line),
        unmarked(line) ==> unmarked(trim(line)),
{
    let r = lemma_trim_subrange(line, 0, line.len() as int);
    assert(line.subrange(0, line.len() as int) =~= line);
    let t = trim(line);
    if unmarked(line) && t.contains(PH_OPEN) {
        let i = choose|i: int| 0 <= i < t.len() && t[i] == PH_OPEN;
        assert(line[r.0 + i] == PH_OPEN);
    }
    lemma_visible_all_space(line.subrange(0, r.0));
    lemma_visible_all_space(line.subrange(r.1, line.len() as int));
    lemma_visible_concat(line.subrange(0, r.0), t);
    lemma_visible_concat(line.subrange(0, r.0) + t, line.subrange(r.1, line.len() as int));
    assert(line.subrange(0, r.0) + t + line.subrange(r.1, line.len() as int) =~= line);
}

proof fn lemma_joined_text_unmarked(group: Seq<Seq<char>>)
    requires
        forall|i: int| 0 <= i < group.len() ==> unmarked(#[trigger] group[i]),
    ensures
        unmarked(joined_text(group)),
    decreases group.len(),
{
    if group.len() > 0 {
        let init = group.drop_last();
        assert forall|i: int| 0 <= i < init.len() implies unmarked(#[trigger] init[i]) by {
            assert(init[i] == group[i]);
        }
        lemma_joined_text_unmarked(init);
        let line = group.last();
        assert(unmarked(line)) by {
            assert(line == group[group.len() - 1]);
        }
        lemma_trim_line(line);
        let t = trim(line);
        let before = joined_text(init);
        if t.len() > 0 && before.len() > 0 {
            let j = before + seq![' '] + t;
            if j.contains(PH_OPEN) {
                let i = choose|i: int| 0 <= i < j.len() && j[i] == PH_OPEN;
                if i < before.len() {
                    assert(before[i] == PH_OPEN);
                } else if i > before.len() {
                    assert(t[i - before.len() - 1] == PH_OPEN);
                }
            }
        }
    }
}

proof fn lemma_joined_text_visible(group: Seq<Seq<char>>)
    ensures
        visible(joined_text(group)) == visible(joined(group)),
    decreases group.len(),
{
    if group.len() > 0 {
        let init = group.drop_last();
        lemma_joined_text_visible(init);
        let line = group.last();
        lemma_trim_line(line);
        let t = trim(line);
        let before = joined_text(init);
        lemma_visible_concat(joined(init), line);
        if t.len() == 0 {
            assert(visible(t) =~= Seq::<char>::empty());
        } else if before.len() == 0 {
            assert(visible(before) =~= Seq::<char>::empty());
        } else {
            lemma_visible_concat(before + seq![' '], t);
            lemma_visible_concat(before, seq![' ']);
            lemma_visible_space();
        }
    }
}

proof fn lemma_sentences_of_visible(group: Seq<Seq<char>>)
    requires
        forall|i: int| 0 <= i < group.len() ==> unmarked(#[trigger] group[i]),
    ensures
        visible(joined(spec_sentences_of(group))) == visible(joined(group)),
{
    let text = joined_text(group);
    lemma_joined_text_unmarked(group);
    lemma_joined_text_visible(group);
    lemma_split_visible(text);
    let masked = spec_mask(text);
    lemma_joined_non_empty(restored_all(spec_split_sentences(masked.0), masked.1));
}

proof fn lemma_all_sentences_visible(groups: Seq<Seq<Seq<char>>>)
    requires
        forall|r: int, j: int|
            0 <= r < groups.len() && 0 <= j < groups[r].len() ==> unmarked(#[trigger] groups[r][j]),
    ensures
        visible(joined(all_sentences(groups))) == visible(
            joined(groups.map_values(|g: Seq<Seq<char>>| joined(g))),
        ),
    decreases groups.len(),
{
    if groups.len() > 0 {
        let init = groups.drop_last();
        assert forall|r: int, j: int|
            0 <= r < init.len() && 0 <= j < init[r].len() implies unmarked(#[trigger] init[r][j]) by {
            assert(init[r] == groups[r]);
        }
        lemma_all_sentences_visible(init);
        let g = groups.last();
        assert forall|j: int| 0 <= j < g.len() implies unmarked(#[trigger] g[j]) by {
            assert(g == groups[groups.len() - 1]);
        }
        lemma_sentences_of_visible(g);
        lemma_joined_concat(all_sentences(init), spec_sentences_of(g));
        lemma_visible_concat(joined(all_sentences(init)), joined(spec_sentences_of(g)));
        let texts = groups.map_values(|x: Seq<Seq<char>>| joined(x));
        assert(texts.drop_last() =~= init.map_values(|x: Seq<Seq<char>>| joined(x)));
        assert(texts.last() == joined(g));
        lemma_visible_concat(joined(texts.drop_last()), joined(g));
    }
}

proof fn lemma_runs_joined(lines: Seq<Seq<char>>, brk: spec_fn(Seq<char>) -> bool)
    ensures
        joined(runs(lines, brk).map_values(|g: Seq<Seq<char>>| joined(g))) == joined(lines),
    decreases lines.len(),
{
    let rs = runs(lines, brk);
    let texts = rs.map_values(|g: Seq<Seq<char>>| joined(g));
    if lines.len() == 0 {
        assert(texts =~= seq![Seq::<char>::empty()]);
        assert(joined(seq![Seq::<char>::empty()]) =~= Seq::<char>::empty()) by {
            assert(seq![Seq::<char>::empty()].drop_last() =~= Seq::<Seq<char>>::empty());
            assert(joined(Seq::<Seq<char>>::empty()) == Seq::<char>::empty());
        }
    } else {
        let init = lines.drop_last();
        let x = lines.last();
        lemma_runs_joined(init, brk);
        lemma_runs_nonempty(init, brk);
        let before = runs(init, brk);
        let before_texts = before.map_values(|g: Seq<Seq<char>>| joined(g));
        let n = lines.len();
        if n >= 2 && brk(lines[n - 2]) {
            assert(texts =~= before_texts.push(joined(seq![x])));
            assert(joined(seq![x]) =~= x) by {
                assert(seq![x].drop_last() =~= Seq::<Seq<char>>::empty());
                assert(joined(Seq::<Seq<char>>::empty()) == Seq::<char>::empty());
            }
            assert(texts.drop_last() =~= before_texts);
        } else {
            let last = before.last();
            assert(texts =~= before_texts.update(
                before_texts.len() - 1,
                joined(last.push(x)),
            ));
            assert(joined(last.push(x)) == joined(last) + x) by {
                assert(last.push(x).drop_last() =~= last);
            }
            assert(texts.drop_last() =~= before_texts.drop_last());
            assert(before_texts.last() == joined(last));
            assert(joined(before_texts) == joined(before_texts.drop_last()) + joined(last));
            assert(joined(texts) =~= joined(lines));
        }
    }
}

proof fn lemma_merged_visible(ss: Seq<Seq<char>>)
    ensures
        visible(joined(merged(ss))) == visible(joined(ss)),
    decreases ss.len(),
{
    if ss.len() > 0 {
        let init = ss.drop_last();
        lemma_merged_visible(init);
        let m = merged(init);
        let x = ss.last();
        lemma_visible_concat(joined(init), x);
        if m.len() > 0 && block_marker(x) {
            let last = m.last();
            let updated = m.update(m.len() - 1, last + seq![' '] + x);
            assert(updated.drop_last() =~= m.drop_last());
            assert(joined(m) == joined(m.drop_last()) + last);
            lemma_visible_concat(joined(m.drop_last()), last);
            lemma_visible_concat(joined(m.drop_last()), last + seq![' '] + x);
            lemma_visible_concat(last + seq![' '], x);
            lemma_visible_concat(last, seq![' ']);
            lemma_visible_space();
            assert(visible(joined(updated)) =~= visible(joined(m)) + visible(x));
        } else {
            lemma_visible_concat(joined(m), x);
            assert(m.push(x).drop_last() =~= m);
        }
    }
}

/// Splitting into sentences loses nothing: the sentence lines of a hard-break
/// segment show every character the segment's lines show, in order; only
/// whitespace moves. This holds of a segment free of the private-use
/// placeholder opener.
pub proof fn law_sentences_keep_the_text(segment: Seq<Seq<char>>)
    requires
        forall|i: int| 0 <= i < segment.len() ==> unmarked(#[trigger] segment[i]),
    ensures
        visible(joined(segment_sentences(segment))) == visible(joined(segment)),
{
    let groups = runs(segment, sentence_end_pred());
    assert forall|r: int, j: int|
        0 <= r < groups.len() && 0 <= j < groups[r].len() implies unmarked(
            #[trigger] groups[r][j],
        ) by {
        lemma_runs_unmarked(segment, sentence_end_pred());
    }
    lemma_all_sentences_visible(groups);
    lemma_runs_joined(segment, sentence_end_pred());
    lemma_merged_visible(all_sentences(groups));
}

proof fn lemma_runs_unmarked(lines: Seq<Seq<char>>, brk: spec_fn(Seq<char>) -> bool)
    requires
        forall|i: int| 0 <= i < lines.len() ==> unmarked(#[trigger] lines[i]),
    ensures
        forall|r: int, j: int|
            0 <= r < runs(lines, brk).len() && 0 <= j < runs(lines, brk)[r].len() ==> unmarked(
                #[trigger] runs(lines, brk)[r][j],
            ),
    decreases lines.len(),
{
    if lines.len() > 0 {
        let init = lines.drop_last();
        assert forall|i: int| 0 <= i < init.len() implies unmarked(#[trigger] init[i]) by {
            assert(init[i] == lines[i]);
        }
        lemma_runs_unmarked(init, brk);
        lemma_runs_nonempty(init, brk);
        let before = runs(init, brk);
        let x = lines.last();
        assert(unmarked(x)) by {
            assert(x == lines[lines.len() - 1]);
        }
        let all = runs(lines, brk);
        assert forall|r: int, j: int| 0 <= r < all.len() && 0 <= j < all[r].len() implies unmarked(
            #[trigger] all[r][j],
        ) by {
            let n = lines.len();
            if n >= 2 && brk(lines[n - 2]) {
                if r < before.len() {
                    assert(all[r] == before[r]);
                } else {
                    assert(all[r] == seq![x]);
                }
            } else {
                if r < before.len() - 1 {
                    assert(all[r] == before[r]);
                } else {
                    assert(all[r] == before.last().push(x));
                    if j < before.last().len() {
                        assert(all[r][j] == before[before.len() - 1][j]);
                    }
                }
            }
        }
    }
}

fn merge_block_marker_starts(sentences: Vec<Vec<char>>) -> (r: Vec<Vec<char>>)
    ensures
        vecs_view(r@) == merged(vecs_view(sentences@)),
{
    let ghost ss = vecs_view(sentences@);
    let mut m: Vec<Vec<char>> = Vec::new();
    let mut i: usize = 0;
    assert(vecs_view(m@) =~= merged(ss.take(0)));
    while i < sentences.len()
        invariant
            i <= sentences@.len(),
            ss == vecs_view(sentences@),
            vecs_view(m@) == merged(ss.take(i as int)),
        decreases sentences@.len() - i,
    {
        let ghost prefix = ss.take(i + 1);
        assert(prefix.drop_last() =~= ss.take(i as int));
        assert(prefix.last() == sentences@[i as int]@);
        let sentence = &sentences[i];
        if m.len() > 0 && starts_with_block_marker(sentence) {
            let mut previous = m.pop().unwrap();
            let ghost before = vecs_view(m@);
            let ghost prev_view = previous@;
            previous.push(' ');
            let mut k: usize = 0;
            while k < sentence.len()
                invariant
                    k <= sentence@.len(),
                    previous@ == prev_view + seq![' '] + sentence@.take(k as int),
                decreases sentence@.len() - k,
            {
                previous.push(sentence[k]);
                k += 1;
                assert(previous@ =~= prev_view + seq![' '] + sentence@.take(k as int));
            }
            assert(sentence@.take(k as int) =~= sentence@);
            m.push(previous);
            assert(vecs_view(m@) =~= merged(prefix));
        } else {
            let ghost before = vecs_view(m@);
            m.push(copy_chars(sentence));
            assert(vecs_view(m@) =~= before.push(prefix.last()));
        }
        i += 1;
    }
    assert(ss.take(i as int) =~= ss);
    m
}

/// The sentences of a list of groups, in order.
pub open spec fn all_sentences(groups: Seq<Seq<Seq<char>>>) -> Seq<Seq<char>>
    decreases groups.len(),
{
    if groups.len() == 0 {
        Seq::empty()
    } else {
        all_sentences(groups.drop_last()) + spec_sentences_of(groups.last())
    }
}

/// The sentences of one hard-break segment: its lines joined across soft
/// wraps (never across a line that already ends a sentence), split, and with
/// block-marker starts merged back.
pub open spec fn segment_sentences(segment: Seq<Seq<char>>) -> Seq<Seq<char>> {
    merged(all_sentences(runs(segment, sentence_end_pred())))
}

/// Split each hard-break segment into sentences, one list per segment, so
/// emission can restore the hard breaks between them.
pub open spec fn spec_produce(stripped: Seq<Seq<char>>) -> Seq<Seq<Seq<char>>> {
    runs(stripped, hard_break_pred()).map_values(|seg: Seq<Seq<char>>| segment_sentences(seg))
}

fn segment_sentences_of(segment: &Vec<Vec<char>>) -> (r: Vec<Vec<char>>)
    ensures
        vecs_view(r@) == segment_sentences(vecs_view(segment@)),
{
    let groups = join_groups(segment);
    let ghost gs = runs_view(groups@);
    let mut sentences: Vec<Vec<char>> = Vec::new();
    let mut i: usize = 0;
    assert(vecs_view(sentences@) =~= all_sentences(gs.take(0)));
    while i < groups.len()
        invariant
            i <= groups@.len(),
            gs == runs_view(groups@),
            vecs_view(sentences@) == all_sentences(gs.take(i as int)),
        decreases groups@.len() - i,
    {
        let ghost prefix = gs.take(i + 1);
        assert(prefix.drop_last() =~= gs.take(i as int));
        assert(prefix.last() == vecs_view(groups@[i as int]@));
        let found = sentences_of(&groups[i]);
        let ghost before = vecs_view(sentences@);
        let mut k: usize = 0;
        while k < found.len()
            invariant
                k <= found@.len(),
                vecs_view(sentences@) == before + vecs_view(found@).take(k as int),
            decreases found@.len() - k,
        {
            assert(vecs_view(found@)[k as int] == found@[k as int]@);
            assert(vecs_view(found@).take(k + 1) =~= vecs_view(found@).take(k as int).push(found@[k as int]@));
            let c = copy_chars(&found[k]);
            let ghost old_view = vecs_view(sentences@);
            sentences.push(c);
            assert(vecs_view(sentences@) =~= old_view.push(c@));
            k += 1;
            assert(vecs_view(sentences@) =~= before + vecs_view(found@).take(k as int));
        }
        assert(vecs_view(found@).take(k as int) =~= vecs_view(found@));
        i += 1;
    }
    assert(gs.take(i as int) =~= gs);
    merge_block_marker_starts(sentences)
}

/// Split each hard-break segment into sentences. Returns one list of sentences
/// per segment so emission can restore the hard breaks between them.
fn produce(stripped: &Vec<Vec<char>>) -> (r: Vec<Vec<Vec<char>>>)
    ensures
        runs_view(r@) == spec_produce(vecs_view(stripped@)),
{
    let segments = segment_on_hard_breaks(stripped);
    let ghost segs = runs_view(segments@);
    let mut out: Vec<Vec<Vec<char>>> = Vec::new();
    let mut i: usize = 0;
    while i < segments.len()
        invariant
            i <= segments@.len(),
            segs == runs_view(segments@),
            runs_view(out@) == segs.take(i as int).map_values(
                |seg: Seq<Seq<char>>| segment_sentences(seg),
            ),
        decreases segments@.len() - i,
    {
        let ghost before = runs_view(out@);
        let sentences = segment_sentences_of(&segments[i]);
        assert(segs[i as int] == vecs_view(segments@[i as int]@));
        out.push(sentences);
        assert(runs_view(out@) =~= before.push(vecs_view(sentences@)));
        assert(runs_view(out@) =~= segs.take(i + 1).map_values(
            |seg: Seq<Seq<char>>| segment_sentences(seg),
        ));
        i += 1;
    }
    assert(segs.take(i as int) =~= segs);
    out
}

/// Every sentence of every segment, in order.
pub open spec fn concat_all(segments: Seq<Seq<Seq<char>>>) -> Seq<Seq<char>>
    decreases segments.len(),
{
    if segments.len() == 0 {
        Seq::empty()
    } else {
        concat_all(segments.drop_last()) + segments.last()
    }
}

fn flatten(segments: &Vec<Vec<Vec<char>>>) -> (r: Vec<Vec<char>>)
    ensures
        vecs_view(r@) == concat_all(runs_view(segments@)),
{
    let ghost segs = runs_view(segments@);
    let mut out: Vec<Vec<char>> = Vec::new();
    let mut i: usize = 0;
    assert(vecs_view(out@) =~= concat_all(segs.take(0)));
    while i < segments.len()
        invariant
            i <= segments@.len(),
            segs == runs_view(segments@),
            vecs_view(out@) == concat_all(segs.take(i as int)),
        decreases segments@.len() - i,
    {
        assert(segs.take(i + 1).drop_last() =~= segs.take(i as int));
        assert(segs.take(i + 1).last() == vecs_view(segments@[i as int]@));
        let seg = &segments[i];
        let ghost before = vecs_view(out@);
        let mut k: usize = 0;
        while k < seg.len()
            invariant
                k <= seg@.len(),
                vecs_view(out@) == before + vecs_view(seg@).take(k as int),
            decreases seg@.len() - k,
        {
            assert(vecs_view(seg@)[k as int] == seg@[k as int]@);
            assert(vecs_view(seg@).take(k + 1) =~= vecs_view(seg@).take(k as int).push(
                seg@[k as int]@,
            ));
            let c = copy_chars(&seg[k]);
            let ghost old_view = vecs_view(out@);
            out.push(c);
            assert(vecs_view(out@) =~= old_view.push(c@));
            k += 1;
        }
        assert(vecs_view(seg@).take(k as int) =~= vecs_view(seg@));
        i += 1;
    }
    assert(segs.take(i as int) =~= segs);
    out
}

/// The sentences of the first `upto` segments as output lines: the last
/// sentence of every segment but the final one keeps its hard break, as two
/// trailing spaces.
pub open spec fn sentence_lines(segments: Seq<Seq<Seq<char>>>, upto: int) -> Seq<Seq<char>>
    decreases upto,
{
    if upto <= 0 {
        Seq::empty()
    } else {
        let sentences = segments[upto - 1];
        let hard = upto < segments.len();
        sentence_lines(segments, upto - 1) + Seq::new(
            sentences.len(),
            |k: int|
                if hard && k == sentences.len() - 1 {
                    sentences[k] + seq![' ', ' ']
                } else {
                    sentences[k]
                },
        )
    }
}

proof fn lemma_joined_visible_pointwise(a: Seq<Seq<char>>, b: Seq<Seq<char>>)
    requires
        a.len() == b.len(),
        forall|k: int| 0 <= k < a.len() ==> visible(#[trigger] a[k]) == visible(b[k]),
    ensures
        visible(joined(a)) == visible(joined(b)),
    decreases a.len(),
{
    if a.len() > 0 {
        assert forall|k: int| 0 <= k < a.drop_last().len() implies visible(
            #[trigger] a.drop_last()[k],
        ) == visible(b.drop_last()[k]) by {
            assert(a.drop_last()[k] == a[k]);
            assert(b.drop_last()[k] == b[k]);
        }
        lemma_joined_visible_pointwise(a.drop_last(), b.drop_last());
        lemma_visible_concat(joined(a.drop_last()), a.last());
        lemma_visible_concat(joined(b.drop_last()), b.last());
        assert(visible(a[a.len() - 1]) == visible(b[b.len() - 1]));
    }
}

proof fn lemma_sentence_lines_visible(segments: Seq<Seq<Seq<char>>>, upto: int)
    requires
        0 <= upto <= segments.len(),
    ensures
        visible(joined(sentence_lines(segments, upto))) == visible(
            joined(segments.map_values(|g: Seq<Seq<char>>| joined(g)).take(upto)),
        ),
    decreases upto,
{
    let texts = segments.map_values(|g: Seq<Seq<char>>| joined(g));
    if upto <= 0 {
        assert(texts.take(upto) =~= Seq::<Seq<char>>::empty());
    } else {
        lemma_sentence_lines_visible(segments, upto - 1);
        let sentences = segments[upto - 1];
        let hard = upto < segments.len();
        let lines = Seq::new(
            sentences.len(),
            |k: int|
                if hard && k == sentences.len() - 1 {
                    sentences[k] + seq![' ', ' ']
                } else {
                    sentences[k]
                },
        );
        assert(sentence_lines(segments, upto) == sentence_lines(segments, upto - 1) + lines);
        assert forall|k: int| 0 <= k < lines.len() implies visible(#[trigger] lines[k]) == visible(
            sentences[k],
        ) by {
            if hard && k == sentences.len() - 1 {
                lemma_visible_concat(sentences[k], seq![' ', ' ']);
                lemma_visible_all_space(seq![' ', ' ']);
            }
        }
        lemma_joined_visible_pointwise(lines, sentences);
        lemma_joined_concat(sentence_lines(segments, upto - 1), lines);
        lemma_visible_concat(joined(sentence_lines(segments, upto - 1)), joined(lines));
        assert(texts.take(upto).drop_last() =~= texts.take(upto - 1));
        assert(texts.take(upto).last() == joined(sentences));
        lemma_visible_concat(joined(texts.take(upto - 1)), joined(sentences));
    }
}

/// Rewriting a paragraph loses nothing: the sentence lines written for its
/// text (its lines with their prefixes stripped) show every character that
/// text shows, in order; only whitespace moves. This holds of a text free of
/// the private-use placeholder opener.
pub proof fn law_paragraph_keeps_the_text(stripped: Seq<Seq<char>>)
    requires
        forall|i: int| 0 <= i < stripped.len() ==> unmarked(#[trigger] stripped[i]),
    ensures
        visible(
            joined(sentence_lines(spec_produce(stripped), spec_produce(stripped).len() as int)),
        ) == visible(joined(stripped)),
{
    let segments = runs(stripped, hard_break_pred());
    let produced = spec_produce(stripped);
    lemma_runs_unmarked(stripped, hard_break_pred());
    lemma_sentence_lines_visible(produced, produced.len() as int);
    let texts = produced.map_values(|g: Seq<Seq<char>>| joined(g));
    let originals = segments.map_values(|g: Seq<Seq<char>>| joined(g));
    assert(texts.take(produced.len() as int) =~= texts);
    assert forall|k: int| 0 <= k < texts.len() implies visible(#[trigger] texts[k]) == visible(
        originals[k],
    ) by {
        assert forall|i: int| 0 <= i < segments[k].len() implies unmarked(
            #[trigger] segments[k][i],
        ) by {}
        law_sentences_keep_the_text(segments[k]);
    }
    lemma_joined_visible_pointwise(texts, originals);
    lemma_runs_joined(stripped, hard_break_pred());
}

/// The first `n` output lines, each behind its prefix (`first` for the very
/// first, `cont` after that) and followed by `newline`, except the last line,
/// which keeps the paragraph's own terminator `last`.
pub open spec fn emit_upto(
    lines: Seq<Seq<char>>,
    first: Seq<char>,
    cont: Seq<char>,
    newline: Seq<char>,
    last: Seq<char>,
    n: int,
) -> Seq<char>
    decreases n,
{
    if n <= 0 {
        Seq::empty()
    } else {
        emit_upto(lines, first, cont, newline, last, n - 1) + (if n - 1 == 0 {
            first
        } else {
            cont
        }) + lines[n - 1] + (if n - 1 == lines.len() - 1 {
            last
        } else {
            newline
        })
    }
}

/// A paragraph's re-emitted text: one sentence per line.
pub open spec fn spec_emit(
    segments: Seq<Seq<Seq<char>>>,
    first: Seq<char>,
    cont: Seq<char>,
    newline: Seq<char>,
    last: Seq<char>,
) -> Seq<char> {
    let lines = sentence_lines(segments, segments.len() as int);
    emit_upto(lines, first, cont, newline, last, lines.len() as int)
}


fn emit(
    segments: &Vec<Vec<Vec<char>>>,
    first_prefix: &Vec<char>,
    cont_prefix: &Vec<char>,
    newline: &Vec<char>,
    last_terminator: &Vec<char>,
) -> (out: Vec<char>)
    ensures
        out@ == spec_emit(
            runs_view(segments@),
            first_prefix@,
            cont_prefix@,
            newline@,
            last_terminator@,
        ),
{
    let ghost segs = runs_view(segments@);
    let mut out_lines: Vec<Vec<char>> = Vec::new();
    let segment_count = segments.len();
    let mut si: usize = 0;
    assert(vecs_view(out_lines@) =~= sentence_lines(segs, 0));
    while si < segment_count
        invariant
            si <= segment_count,
            segment_count == segments@.len(),
            segs == runs_view(segments@),
            vecs_view(out_lines@) == sentence_lines(segs, si as int),
        decreases segment_count - si,
    {
        let sentences = &segments[si];
        let ghost ss = vecs_view(sentences@);
        assert(ss == segs[si as int]);
        let is_last_segment = si + 1 == segment_count;
        let ghost before = vecs_view(out_lines@);
        let ghost added = Seq::new(
            ss.len(),
            |k: int|
                if !is_last_segment && k == ss.len() - 1 {
                    ss[k] + seq![' ', ' ']
                } else {
                    ss[k]
                },
        );
        let mut k: usize = 0;
        while k < sentences.len()
            invariant
                k <= sentences@.len(),
                ss == vecs_view(sentences@),
                added.len() == ss.len(),
                added == Seq::new(
                    ss.len(),
                    |k: int|
                        if !is_last_segment && k == ss.len() - 1 {
                            ss[k] + seq![' ', ' ']
                        } else {
                            ss[k]
                        },
                ),
                vecs_view(out_lines@) == before + added.take(k as int),
            decreases sentences@.len() - k,
        {
            let mut line = copy_chars(&sentences[k]);
            if !is_last_segment && k + 1 == sentences.len() {
                line.push(' ');
                line.push(' ');
            }
            assert(line@ =~= added[k as int]);
            let ghost old_view = vecs_view(out_lines@);
            out_lines.push(line);
            assert(vecs_view(out_lines@) =~= old_view.push(line@));
            assert(added.take(k + 1) =~= added.take(k as int).push(added[k as int]));
            k += 1;
        }
        assert(added.take(k as int) =~= added);
        si += 1;
    }
    let ghost ls = vecs_view(out_lines@);
    let mut out: Vec<char> = Vec::new();
    let mut i: usize = 0;
    while i < out_lines.len()
        invariant
            i <= out_lines@.len(),
            ls == vecs_view(out_lines@),
            out@ == emit_upto(ls, first_prefix@, cont_prefix@, newline@, last_terminator@, i as int),
        decreases out_lines@.len() - i,
    {
        if i == 0 {
            append(&mut out, first_prefix);
        } else {
            append(&mut out, cont_prefix);
        }
        append(&mut out, &out_lines[i]);
        if i + 1 == out_lines.len() {
            append(&mut out, last_terminator);
        } else {
            append(&mut out, newline);
        }
        i += 1;
    }
    out
}

/// How a paragraph's lines are prefixed in the source.
#[derive(Clone, Copy, Debug, PartialEq, Eq, Structural)]
pub enum Prefix {
    /// Top-level paragraph, no prefix.
    Plain,
    /// Inside blockquotes, at the given depth.
    Quote(usize),
    /// Inside a list item; the content starts at the given 1-based column.
    List(usize),
}

/// `p` repeated `n` times.
pub open spec fn repeat(p: Seq<char>, n: nat) -> Seq<char>
    decreases n,
{
    if n == 0 {
        Seq::empty()
    } else {
        repeat(p, (n - 1) as nat) + p
    }
}

fn repeat_of(p: &Vec<char>, n: usize) -> (r: Vec<char>)
    ensures
        r@ == repeat(p@, n as nat),
{
    let mut r: Vec<char> = Vec::new();
    let mut i: usize = 0;
    while i < n
        invariant
            i <= n,
            r@ == repeat(p@, i as nat),
        decreases n - i,
    {
        append(&mut r, p);
        i += 1;
    }
    r
}

/// Remove up to `depth` leading `>` markers (each with an optional space).
/// Lenient, so lazy continuation lines without a marker pass through unchanged.
pub open spec fn spec_strip_quote(content: Seq<char>, depth: nat) -> Seq<char>
    decreases depth,
{
    if depth == 0 || content.len() == 0 || content[0] != '>' {
        content
    } else {
        let after = content.drop_first();
        let rest = if after.len() > 0 && after[0] == ' ' {
            after.drop_first()
        } else {
            after
        };
        spec_strip_quote(rest, (depth - 1) as nat)
    }
}

/// Remove up to `width` leading spaces.
pub open spec fn spec_strip_indent(content: Seq<char>, width: nat) -> Seq<char>
    decreases width,
{
    if width == 0 || content.len() == 0 || content[0] != ' ' {
        content
    } else {
        spec_strip_indent(content.drop_first(), (width - 1) as nat)
    }
}

/// Remove up to `depth` leading `>` markers (each with an optional space).
fn strip_quote(content: &Vec<char>, depth: usize) -> (r: Vec<char>)
    ensures
        r@ == spec_strip_quote(content@, depth as nat),
{
    let mut rest: usize = 0;
    let mut d: usize = 0;
    assert(content@.skip(0) =~= content@);
    while d < depth && rest < content.len() && content[rest] == '>'
        invariant
            d <= depth,
            rest <= content@.len(),
            spec_strip_quote(content@.skip(rest as int), (depth - d) as nat) == spec_strip_quote(
                content@,
                depth as nat,
            ),
        decreases depth - d,
    {
        let ghost t = content@.skip(rest as int);
        assert(t.drop_first() =~= content@.skip(rest + 1));
        rest += 1;
        if rest < content.len() && content[rest] == ' ' {
            assert(t.drop_first().drop_first() =~= content@.skip(rest + 1));
            rest += 1;
        }
        d += 1;
    }
    assert(spec_strip_quote(content@.skip(rest as int), (depth - d) as nat) == content@.skip(
        rest as int,
    ));
    sub_vec(content, rest, content.len())
}

fn strip_indent(content: &Vec<char>, width: usize) -> (r: Vec<char>)
    ensures
        r@ == spec_strip_indent(content@, width as nat),
{
    let mut offset: usize = 0;
    assert(content@.skip(0) =~= content@);
    while offset < width && offset < content.len() && content[offset] == ' '
        invariant
            offset <= width,
            offset <= content@.len(),
            spec_strip_indent(content@.skip(offset as int), (width - offset) as nat)
                == spec_strip_indent(content@, width as nat),
        decreases width - offset,
    {
        assert(content@.skip(offset as int).drop_first() =~= content@.skip(offset + 1));
        offset += 1;
    }
    sub_vec(content, offset, content.len())
}

/// The prefix for the first emitted line, the prefix for continuation lines,
/// and each source line stripped of its prefix.
pub open spec fn spec_strip(prefix: Prefix, contents: Seq<Seq<char>>) -> (
    Seq<char>,
    Seq<char>,
    Seq<Seq<char>>,
) {
    match prefix {
        Prefix::Plain => (Seq::empty(), Seq::empty(), contents),
        Prefix::Quote(depth) => {
            let marker = repeat(seq!['>', ' '], depth as nat);
            (
                marker,
                marker,
                contents.map_values(|c: Seq<char>| spec_strip_quote(c, depth as nat)),
            )
        },
        Prefix::List(column) => {
            let width: nat = if column >= 1 {
                (column - 1) as nat
            } else {
                0
            };
            let first = contents[0];
            let taken: int = if width <= first.len() {
                width as int
            } else {
                first.len() as int
            };
            (
                first.take(taken),
                repeat(seq![' '], width),
                seq![first.skip(taken)] + contents.drop_first().map_values(
                    |c: Seq<char>| spec_strip_indent(c, width),
                ),
            )
        },
    }
}

fn strip(prefix: Prefix, contents: &Vec<Vec<char>>) -> (r: (Vec<char>, Vec<char>, Vec<Vec<char>>))
    requires
        contents@.len() > 0,
    ensures
        (r.0@, r.1@, vecs_view(r.2@)) == spec_strip(prefix, vecs_view(contents@)),
{
    let ghost cs = vecs_view(contents@);
    match prefix {
        Prefix::Plain => {
            let mut stripped: Vec<Vec<char>> = Vec::new();
            let mut i: usize = 0;
            while i < contents.len()
                invariant
                    i <= contents@.len(),
                    cs == vecs_view(contents@),
                    vecs_view(stripped@) == cs.take(i as int),
                decreases contents@.len() - i,
            {
                let c = copy_chars(&contents[i]);
                let ghost old_view = vecs_view(stripped@);
                stripped.push(c);
                assert(cs[i as int] == contents@[i as int]@);
                assert(vecs_view(stripped@) =~= old_view.push(c@));
                assert(cs.take(i + 1) =~= cs.take(i as int).push(cs[i as int]));
                i += 1;
            }
            assert(cs.take(i as int) =~= cs);
            (Vec::new(), Vec::new(), stripped)
        },
        Prefix::Quote(depth) => {
            let mut unit: Vec<char> = Vec::new();
            unit.push('>');
            unit.push(' ');
            assert(unit@ =~= seq!['>', ' ']);
            let marker = repeat_of(&unit, depth);
            let ghost want = cs.map_values(|c: Seq<char>| spec_strip_quote(c, depth as nat));
            let mut stripped: Vec<Vec<char>> = Vec::new();
            let mut i: usize = 0;
            while i < contents.len()
                invariant
                    i <= contents@.len(),
                    cs == vecs_view(contents@),
                    want == cs.map_values(|c: Seq<char>| spec_strip_quote(c, depth as nat)),
                    vecs_view(stripped@) == want.take(i as int),
                decreases contents@.len() - i,
            {
                let c = strip_quote(&contents[i], depth);
                let ghost old_view = vecs_view(stripped@);
                stripped.push(c);
                assert(cs[i as int] == contents@[i as int]@);
                assert(vecs_view(stripped@) =~= old_view.push(c@));
                assert(want.take(i + 1) =~= want.take(i as int).push(want[i as int]));
                i += 1;
            }
            assert(want.take(i as int) =~= want);
            let cont = copy_chars(&marker);
            (marker, cont, stripped)
        },
        Prefix::List(column) => {
            let width = if column >= 1 {
                column - 1
            } else {
                0
            };
            let first = &contents[0];
            let taken = if width <= first.len() {
                width
            } else {
                first.len()
            };
            let first_prefix = sub_vec(first, 0, taken);
            let mut stripped: Vec<Vec<char>> = Vec::new();
            stripped.push(sub_vec(first, taken, first.len()));
            let ghost want = seq![cs[0].skip(taken as int)] + cs.drop_first().map_values(
                |c: Seq<char>| spec_strip_indent(c, width as nat),
            );
            assert(vecs_view(stripped@) =~= want.take(1));
            let mut i: usize = 1;
            while i < contents.len()
                invariant
                    1 <= i <= contents@.len(),
                    cs == vecs_view(contents@),
                    want == seq![cs[0].skip(taken as int)] + cs.drop_first().map_values(
                        |c: Seq<char>| spec_strip_indent(c, width as nat),
                    ),
                    vecs_view(stripped@) == want.take(i as int),
                decreases contents@.len() - i,
            {
                let c = strip_indent(&contents[i], width);
                let ghost old_view = vecs_view(stripped@);
                stripped.push(c);
                assert(cs[i as int] == contents@[i as int]@);
                assert(cs.drop_first()[i - 1] == cs[i as int]);
                assert(vecs_view(stripped@) =~= old_view.push(c@));
                assert(want.take(i + 1) =~= want.take(i as int).push(want[i as int]));
                i += 1;
            }
            assert(want.take(i as int) =~= want);
            let mut space: Vec<char> = Vec::new();
            space.push(' ');
            assert(space@ =~= seq![' ']);
            let cont = repeat_of(&space, width);
            assert(first_prefix@ =~= cs[0].take(taken as int));
            (first_prefix, cont, stripped)
        },
    }
}

/// The first index at or after `i` where `needle` occurs in `hay`.
pub open spec fn find_from(hay: Seq<char>, needle: Seq<char>, i: int) -> Option<int>
    decreases hay.len() + 1 - i,
{
    if i < 0 || i + needle.len() > hay.len() {
        None
    } else if hay.subrange(i, i + needle.len()) == needle {
        Some(i)
    } else {
        find_from(hay, needle, i + 1)
    }
}

/// The 1-based column where `needle` first occurs in `hay`, or 1 when it does
/// not occur.
pub open spec fn column_of(hay: Seq<char>, needle: Seq<char>) -> usize {
    match find_from(hay, needle, 0) {
        Some(i) => succ(i as nat),
        None => 1,
    }
}

fn find_column(hay: &Vec<char>, needle: &Vec<char>) -> (c: usize)
    ensures
        c == column_of(hay@, needle@),
{
    let _n = hay.len();
    let mut i: usize = 0;
    while i <= hay.len() && needle.len() <= hay.len() - i
        invariant
            i <= hay@.len() + 1,
            hay@.len() == hay.len(),
            find_from(hay@, needle@, i as int) == find_from(hay@, needle@, 0),
        decreases hay@.len() + 1 - i,
    {
        let mut k: usize = 0;
        let mut same = true;
        while k < needle.len()
            invariant
                k <= needle@.len(),
                i + needle@.len() <= hay@.len(),
                hay@.len() == hay.len(),
                same == (forall|m: int| 0 <= m < k ==> hay@[i + m] == needle@[m]),
            decreases needle@.len() - k,
        {
            if hay[i + k] != needle[k] {
                same = false;
            }
            k += 1;
        }
        if same {
            assert(hay@.subrange(i as int, i + needle@.len()) =~= needle@);
            return succ_of(i);
        }
        assert(hay@.subrange(i as int, i + needle@.len()) != needle@) by {
            let m = choose|m: int| 0 <= m < needle@.len() && hay@[i + m] != needle@[m];
            assert(hay@.subrange(i as int, i + needle@.len())[m] != needle@[m]);
        }
        i += 1;
    }
    1
}

/// The entry of `s` at `i`, if there is one.
pub open spec fn entry(s: Seq<Seq<char>>, i: int) -> Option<Seq<char>> {
    if 0 <= i < s.len() {
        Some(s[i])
    } else {
        None
    }
}

/// The first index at or after `i` at which `a` and `b` disagree.
pub open spec fn first_difference_from(a: Seq<Seq<char>>, b: Seq<Seq<char>>, i: int) -> Option<int>
    decreases (if a.len() > b.len() {
        a.len()
    } else {
        b.len()
    }) - i,
{
    if i < 0 || (i >= a.len() && i >= b.len()) {
        None
    } else if entry(a, i) != entry(b, i) {
        Some(i)
    } else {
        first_difference_from(a, b, i + 1)
    }
}

pub proof fn lemma_first_difference_from(a: Seq<Seq<char>>, b: Seq<Seq<char>>, i: int)
    requires
        0 <= i,
    ensures
        first_difference_from(a, b, i) matches Some(k) ==> i <= k && (k < a.len() || k < b.len()),
    decreases (if a.len() > b.len() {
        a.len()
    } else {
        b.len()
    }) - i,
{
    if !(i >= a.len() && i >= b.len()) && entry(a, i) == entry(b, i) {
        lemma_first_difference_from(a, b, i + 1);
    }
}

fn same_chars(a: &Vec<char>, b: &Vec<char>) -> (r: bool)
    ensures
        r == (a@ == b@),
{
    if a.len() != b.len() {
        return false;
    }
    let mut i: usize = 0;
    while i < a.len()
        invariant
            i <= a@.len(),
            a@.len() == b@.len(),
            forall|k: int| 0 <= k < i ==> a@[k] == b@[k],
        decreases a@.len() - i,
    {
        if a[i] != b[i] {
            return false;
        }
        i += 1;
    }
    assert(a@ =~= b@);
    true
}

/// The first index at which the paragraph's source lines and its emitted
/// sentences disagree, if any.
fn first_difference(before: &Vec<Vec<char>>, after: &Vec<Vec<char>>) -> (r: Option<usize>)
    ensures
        r == (match first_difference_from(vecs_view(before@), vecs_view(after@), 0) {
            Some(k) => Some(k as usize),
            None => None::<usize>,
        }),
        r matches Some(k) ==> k < before.len() || k < after.len(),
{
    let ghost a = vecs_view(before@);
    let ghost b = vecs_view(after@);
    let n = if before.len() > after.len() {
        before.len()
    } else {
        after.len()
    };
    let mut i: usize = 0;
    while i < n
        invariant
            i <= n,
            n == (if a.len() > b.len() {
                a.len()
            } else {
                b.len()
            }),
            a == vecs_view(before@),
            b == vecs_view(after@),
            first_difference_from(a, b, i as int) == first_difference_from(a, b, 0),
        decreases n - i,
    {
        let differ = if i < before.len() && i < after.len() {
            !same_chars(&before[i], &after[i])
        } else {
            true
        };
        if differ {
            return Some(i);
        }
        i += 1;
    }
    None
}

/// The first line, at or after `from`, that holds more than one sentence.
pub open spec fn multi_sentence_line(stripped: Seq<Seq<char>>, from: int) -> Option<int>
    decreases stripped.len() - from,
{
    if from < 0 || from >= stripped.len() {
        None
    } else if concat_all(spec_produce(seq![stripped[from]])).len() > 1 {
        Some(from)
    } else {
        multi_sentence_line(stripped, from + 1)
    }
}

/// Point at the sentence that should move onto its own line, not the first
/// sentence, which is already correct. That is the start of the second sentence
/// on the first line that holds more than one. If none does, the paragraph only
/// needs joining, so point at the first line that gets pulled up onto the one
/// above it.
pub open spec fn spec_boundary_span(
    contents: Seq<Seq<char>>,
    stripped: Seq<Seq<char>>,
    start: int,
    before: Seq<Seq<char>>,
    after: Seq<Seq<char>>,
) -> Span {
    match multi_sentence_line(stripped, 0) {
        Some(offset) => {
            let sentences = concat_all(spec_produce(seq![stripped[offset]]));
            Span {
                line: (start + offset) as usize,
                column: column_of(contents[offset], sentences[1]),
                length: 1,
            }
        },
        None => match first_difference_from(before, after, 0) {
            Some(offset) => if offset + 1 < contents.len() {
                Span {
                    line: (start + offset + 1) as usize,
                    column: column_of(contents[offset + 1], trim_start(stripped[offset + 1])),
                    length: 1,
                }
            } else {
                Span { line: start as usize, column: 1, length: 1 }
            },
            None => Span { line: start as usize, column: 1, length: 1 },
        },
    }
}

fn boundary_span(
    contents: &Vec<Vec<char>>,
    stripped: &Vec<Vec<char>>,
    start: usize,
    before: &Vec<Vec<char>>,
    after: &Vec<Vec<char>>,
) -> (span: Span)
    requires
        contents@.len() == stripped@.len(),
        start + contents@.len() <= usize::MAX + 1,
    ensures
        span == spec_boundary_span(
            vecs_view(contents@),
            vecs_view(stripped@),
            start as int,
            vecs_view(before@),
            vecs_view(after@),
        ),
{
    let ghost st = vecs_view(stripped@);
    let mut offset: usize = 0;
    while offset < stripped.len()
        invariant
            offset <= stripped@.len(),
            contents@.len() == stripped@.len(),
            start + contents@.len() <= usize::MAX + 1,
            st == vecs_view(stripped@),
            multi_sentence_line(st, offset as int) == multi_sentence_line(st, 0),
        decreases stripped@.len() - offset,
    {
        let mut single: Vec<Vec<char>> = Vec::new();
        single.push(copy_chars(&stripped[offset]));
        assert(vecs_view(single@) =~= seq![st[offset as int]]);
        let sentences = flatten(&produce(&single));
        if sentences.len() > 1 {
            assert(vecs_view(sentences@)[1] == sentences@[1]@);
            assert(vecs_view(contents@)[offset as int] == contents@[offset as int]@);
            assert(multi_sentence_line(st, offset as int) == Some(offset as int));
            let column = find_column(&contents[offset], &sentences[1]);
            return Span { line: start + offset, column, length: 1 };
        }
        offset += 1;
    }
    let ghost target = spec_boundary_span(
        vecs_view(contents@),
        vecs_view(stripped@),
        start as int,
        vecs_view(before@),
        vecs_view(after@),
    );
    assert(multi_sentence_line(st, 0) is None);
    proof {
        lemma_first_difference_from(vecs_view(before@), vecs_view(after@), 0);
        assert(vecs_view(before@).len() == before.len());
        assert(vecs_view(after@).len() == after.len());
    }
    match first_difference(before, after) {
        Some(offset) => {
            if offset + 1 < contents.len() {
                let moved = offset + 1;
                let line = &stripped[moved];
                let from = crate::chars::skip_space(line, 0, line.len());
                assert(line@.subrange(0, line@.len() as int) =~= line@);
                let rest = sub_vec(line, from, line.len());
                assert(vecs_view(stripped@)[moved as int] == line@);
                assert(vecs_view(contents@)[moved as int] == contents@[moved as int]@);
                assert(rest@ == trim_start(line@));
                let column = find_column(&contents[moved], &rest);
                let line_number = start + moved;
                assert(line_number == (start + offset + 1) as usize);
                let span = Span { line: line_number, column, length: 1 };
                assert(span.line == target.line);
                span
            } else {
                let span = Span { line: start, column: 1, length: 1 };
                assert(span.line == target.line);
                span
            }
        },
        None => {
            let span = Span { line: start, column: 1, length: 1 };
            assert(span.line == target.line);
            span
        },
    }
}

/// How many of `kinds` are `k`.
pub open spec fn count_kind(kinds: Seq<NodeKind>, k: NodeKind) -> nat
    decreases kinds.len(),
{
    if kinds.len() == 0 {
        0
    } else {
        count_kind(kinds.drop_last(), k) + if kinds.last() == k {
            1nat
        } else {
            0nat
        }
    }
}

pub proof fn lemma_count_kind(kinds: Seq<NodeKind>, k: NodeKind)
    ensures
        count_kind(kinds, k) <= kinds.len(),
    decreases kinds.len(),
{
    if kinds.len() > 0 {
        lemma_count_kind(kinds.drop_last(), k);
    }
}

/// How a paragraph with these ancestors is prefixed: by its blockquote depth,
/// or by its column inside a list item; a paragraph both quoted and listed is
/// left alone.
pub open spec fn prefix_for(ancestors: Seq<NodeKind>, column: usize) -> Option<Prefix> {
    let depth = count_kind(ancestors, NodeKind::BlockQuote);
    let in_item = ancestors.contains(NodeKind::Item);
    if !in_item {
        if depth == 0 {
            Some(Prefix::Plain)
        } else {
            Some(Prefix::Quote(depth as usize))
        }
    } else if depth == 0 {
        Some(Prefix::List(column))
    } else {
        None
    }
}

/// The prose paragraphs to reflow, in document order: first line, last line
/// and prefix of every paragraph whose lines lie within the document's
/// `line_count` lines and that is not both quoted and listed.
pub open spec fn targets_of(edges: Seq<Edge>, line_count: nat) -> Seq<(usize, usize, Prefix)>
    decreases edges.len(),
{
    if edges.len() == 0 {
        Seq::empty()
    } else {
        let before = targets_of(edges.drop_last(), line_count);
        match edges.last() {
            Edge::Open { name, start_line, start_column, end_line, .. } => {
                if kind_of(name@) == NodeKind::Paragraph && 1 <= start_line && start_line
                    <= end_line && end_line <= line_count {
                    match prefix_for(open_kinds(edges.drop_last()), start_column) {
                        Some(p) => before.push((start_line, end_line, p)),
                        None => before,
                    }
                } else {
                    before
                }
            },
            Edge::Close => before,
        }
    }
}

/// Without a blockquote among them, no ancestor counts as one.
proof fn lemma_count_kind_absent(kinds: Seq<NodeKind>, k: NodeKind)
    requires
        !kinds.contains(k),
    ensures
        count_kind(kinds, k) == 0,
    decreases kinds.len(),
{
    if kinds.len() > 0 {
        assert(!kinds.drop_last().contains(k)) by {
            if kinds.drop_last().contains(k) {
                let j = choose|j: int| 0 <= j < kinds.drop_last().len() && kinds.drop_last()[j] == k;
                assert(kinds[j] == k);
            }
        }
        assert(kinds.last() != k) by {
            if kinds.last() == k {
                assert(kinds[kinds.len() - 1] == k);
            }
        }
        lemma_count_kind_absent(kinds.drop_last(), k);
    }
}

/// Every prose paragraph is reflowed, however deeply it sits in lists: a
/// paragraph with a list item among its ancestors and no blockquote is
/// prefixed by its own column; one with neither is plain; one quoted but not
/// listed is prefixed by its blockquote depth; and only a paragraph both
/// quoted and listed is left alone.
pub proof fn law_every_prose_paragraph_is_a_target(ancestors: Seq<NodeKind>, column: usize)
    ensures
        ancestors.contains(NodeKind::Item) && !ancestors.contains(NodeKind::BlockQuote) ==> prefix_for(
            ancestors,
            column,
        ) == Some(Prefix::List(column)),
        !ancestors.contains(NodeKind::Item) && !ancestors.contains(NodeKind::BlockQuote)
            ==> prefix_for(ancestors, column) == Some(Prefix::Plain),
        !ancestors.contains(NodeKind::Item) && ancestors.contains(NodeKind::BlockQuote)
            ==> prefix_for(ancestors, column) is Some && prefix_for(ancestors, column)->0 is Quote,
        ancestors.contains(NodeKind::Item) && ancestors.contains(NodeKind::BlockQuote)
            ==> prefix_for(ancestors, column) is None,
{
    if !ancestors.contains(NodeKind::BlockQuote) {
        lemma_count_kind_absent(ancestors, NodeKind::BlockQuote);
    } else {
        let j = choose|j: int| 0 <= j < ancestors.len() && ancestors[j] == NodeKind::BlockQuote;
        lemma_count_kind_present(ancestors, NodeKind::BlockQuote, j);
    }
}

/// With a blockquote among them, at least one ancestor counts as one.
proof fn lemma_count_kind_present(kinds: Seq<NodeKind>, k: NodeKind, j: int)
    requires
        0 <= j < kinds.len(),
        kinds[j] == k,
    ensures
        count_kind(kinds, k) > 0,
    decreases kinds.len(),
{
    if j < kinds.len() - 1 {
        assert(kinds.drop_last()[j] == k);
        lemma_count_kind_present(kinds.drop_last(), k, j);
    }
}

fn prefix_from(stack: &Vec<NodeKind>, column: usize) -> (p: Option<Prefix>)
    ensures
        p == prefix_for(stack@, column),
{
    let mut depth: usize = 0;
    let mut in_item = false;
    let mut i: usize = 0;
    while i < stack.len()
        invariant
            i <= stack@.len(),
            depth == count_kind(stack@.take(i as int), NodeKind::BlockQuote),
            depth <= i,
            in_item == stack@.take(i as int).contains(NodeKind::Item),
        decreases stack@.len() - i,
    {
        let ghost prefix = stack@.take(i + 1);
        assert(prefix.drop_last() =~= stack@.take(i as int));
        assert(prefix.last() == stack@[i as int]);
        if stack[i] == NodeKind::BlockQuote {
            depth += 1;
        }
        if stack[i] == NodeKind::Item {
            assert(prefix[i as int] == NodeKind::Item);
            in_item = true;
        } else {
            assert(prefix.contains(NodeKind::Item) ==> stack@.take(i as int).contains(NodeKind::Item)) by {
                if prefix.contains(NodeKind::Item) {
                    let k = choose|k: int| 0 <= k < prefix.len() && prefix[k] == NodeKind::Item;
                    assert(k < i);
                    assert(stack@.take(i as int)[k] == NodeKind::Item);
                }
            }
        }
        i += 1;
    }
    assert(stack@.take(i as int) =~= stack@);
    if !in_item {
        if depth == 0 {
            Some(Prefix::Plain)
        } else {
            Some(Prefix::Quote(depth))
        }
    } else if depth == 0 {
        Some(Prefix::List(column))
    } else {
        None
    }
}

/// Collect prose paragraphs to reflow, tracking blockquote depth and list-item
/// membership. Paragraphs nested in both a blockquote and a list item are
/// skipped.
fn collect(outline: &Vec<Edge>, line_count: usize) -> (targets: Vec<(usize, usize, Prefix)>)
    ensures
        targets@ == targets_of(outline@, line_count as nat),
        forall|k: int|
            0 <= k < targets@.len() ==> 1 <= (#[trigger] targets@[k]).0 <= targets@[k].1
                <= line_count,
{
    let mut stack: Vec<NodeKind> = Vec::new();
    let mut targets: Vec<(usize, usize, Prefix)> = Vec::new();
    let mut i: usize = 0;
    while i < outline.len()
        invariant
            i <= outline@.len(),
            stack@ == open_kinds(outline@.take(i as int)),
            targets@ == targets_of(outline@.take(i as int), line_count as nat),
            forall|k: int|
                0 <= k < targets@.len() ==> 1 <= (#[trigger] targets@[k]).0 <= targets@[k].1
                    <= line_count,
        decreases outline@.len() - i,
    {
        let ghost prefix = outline@.take(i + 1);
        assert(prefix.drop_last() =~= outline@.take(i as int));
        assert(prefix.last() == outline@[i as int]);
        match outline[i] {
            Edge::Open { name, start_line, start_column, end_line, .. } => {
                let kind = kind_from_name(name);
                if kind == NodeKind::Paragraph && 1 <= start_line && start_line <= end_line
                    && end_line <= line_count {
                    match prefix_from(&stack, start_column) {
                        Some(p) => {
                            targets.push((start_line, end_line, p));
                        },
                        None => {},
                    }
                }
                stack.push(kind);
            },
            Edge::Close => {
                if stack.len() > 0 {
                    stack.pop();
                }
            },
        }
        i += 1;
    }
    assert(outline@.take(i as int) =~= outline@);
    targets
}

/// What becomes of one paragraph: whether its sentence structure changes, the
/// text that stands for its lines in the output, and where a violation points.
/// A paragraph whose trimmed lines are already its sentences keeps its lines
/// exactly as written.
pub open spec fn paragraph_outcome(
    lines: Seq<(Seq<char>, Seq<char>)>,
    target: (usize, usize, Prefix),
    newline: Seq<char>,
) -> (bool, Seq<char>, Span) {
    let slice = lines.subrange(target.0 - 1, target.1 as int);
    let contents = slice.map_values(|l: (Seq<char>, Seq<char>)| l.0);
    let parts = spec_strip(target.2, contents);
    let segments = spec_produce(parts.2);
    let before = parts.2.map_values(|c: Seq<char>| trim(c));
    let after = concat_all(segments);
    if before != after {
        (
            true,
            spec_emit(segments, parts.0, parts.1, newline, slice.last().1),
            spec_boundary_span(contents, parts.2, target.0 as int, before, after),
        )
    } else {
        (false, join_lines(slice), Span { line: 0, column: 0, length: 0 })
    }
}

/// The replacement registered last for line `line`: where it ends and its text.
pub open spec fn replacement_at(reps: Seq<(usize, usize, Seq<char>)>, line: int) -> Option<
    (usize, Seq<char>),
>
    decreases reps.len(),
{
    if reps.len() == 0 {
        None
    } else if reps.last().0 == line {
        Some((reps.last().1, reps.last().2))
    } else {
        replacement_at(reps.drop_last(), line)
    }
}

/// The output from line `line` on: a replacement where one starts, then the
/// line after its end; the line as written elsewhere.
pub open spec fn assemble(
    lines: Seq<(Seq<char>, Seq<char>)>,
    reps: Seq<(usize, usize, Seq<char>)>,
    line: int,
) -> Seq<char>
    decreases lines.len() + 1 - line,
{
    if line < 1 || line > lines.len() {
        Seq::empty()
    } else {
        match replacement_at(reps, line) {
            Some((end, text)) => if line <= end && end <= lines.len() {
                text + assemble(lines, reps, end + 1)
            } else {
                text
            },
            None => lines[line - 1].0 + lines[line - 1].1 + assemble(lines, reps, line + 1),
        }
    }
}

pub const ID: &'static str = "sentence-per-line";

pub const SHORT_REASON: &'static str = "Start each sentence on its own line.";

pub const RATIONALE: &'static str = "One sentence per line makes repetition and over-long sentences obvious in the source, keeps diffs to the sentences that actually changed, and is why the tool has no line-length rule: a long line is your cue that a sentence is long. Hard breaks, inline code, and links are preserved, and a sentence is never split where it would start a line with a block marker.";

pub const MESSAGE: &'static str = "put each sentence on its own line";

/// One violation per paragraph whose sentence structure changes.
pub open spec fn reported(outcomes: Seq<(bool, Seq<char>, Span)>) -> Seq<
    (Seq<char>, Seq<char>, Span),
>
    decreases outcomes.len(),
{
    if outcomes.len() == 0 {
        Seq::empty()
    } else if outcomes.last().0 {
        reported(outcomes.drop_last()).push((ID@, MESSAGE@, outcomes.last().2))
    } else {
        reported(outcomes.drop_last())
    }
}

/// The violations of the rule and the fixed text, for a source and its outline.
pub open spec fn spec_rewrite(source: Seq<char>, outline: Seq<Edge>) -> (
    Seq<(Seq<char>, Seq<char>, Span)>,
    Seq<char>,
) {
    let lines = spec_split_lines(source);
    let newline = spec_dominant_newline(source);
    let targets = targets_of(outline, lines.len());
    let outcomes = targets.map_values(
        |t: (usize, usize, Prefix)| paragraph_outcome(lines, t, newline),
    );
    let reps = Seq::new(
        targets.len(),
        |k: int| (targets[k].0, targets[k].1, outcomes[k].1),
    );
    (reported(outcomes), assemble(lines, reps, 1))
}

fn trimmed_lines(lines: &Vec<Vec<char>>) -> (r: Vec<Vec<char>>)
    ensures
        vecs_view(r@) == vecs_view(lines@).map_values(|c: Seq<char>| trim(c)),
{
    let ghost want = vecs_view(lines@).map_values(|c: Seq<char>| trim(c));
    let mut r: Vec<Vec<char>> = Vec::new();
    let mut i: usize = 0;
    while i < lines.len()
        invariant
            i <= lines@.len(),
            want == vecs_view(lines@).map_values(|c: Seq<char>| trim(c)),
            vecs_view(r@) == want.take(i as int),
        decreases lines@.len() - i,
    {
        let line = &lines[i];
        let (a, b) = trim_range(line, 0, line.len());
        assert(line@.subrange(0, line@.len() as int) =~= line@);
        let t = sub_vec(line, a, b);
        let ghost old_view = vecs_view(r@);
        r.push(t);
        assert(vecs_view(r@) =~= old_view.push(t@));
        assert(want.take(i + 1) =~= want.take(i as int).push(want[i as int]));
        i += 1;
    }
    assert(want.take(i as int) =~= want);
    r
}

fn same_lines(a: &Vec<Vec<char>>, b: &Vec<Vec<char>>) -> (r: bool)
    ensures
        r == (vecs_view(a@) == vecs_view(b@)),
{
    if a.len() != b.len() {
        assert(vecs_view(a@).len() != vecs_view(b@).len());
        return false;
    }
    let mut i: usize = 0;
    while i < a.len()
        invariant
            i <= a@.len(),
            a@.len() == b@.len(),
            forall|k: int| 0 <= k < i ==> a@[k]@ == b@[k]@,
        decreases a@.len() - i,
    {
        if !same_chars(&a[i], &b[i]) {
            assert(vecs_view(a@)[i as int] != vecs_view(b@)[i as int]);
            return false;
        }
        i += 1;
    }
    assert(vecs_view(a@) =~= vecs_view(b@));
    true
}

/// The lines `from..=to` (1-based) as written, each followed by its terminator.
pub(crate) fn original(contents: &Vec<Vec<char>>, terms: &Vec<Vec<char>>, from: usize, to: usize) -> (r: Vec<char>)
    requires
        contents@.len() == terms@.len(),
        1 <= from <= to <= contents@.len(),
    ensures
        r@ == join_lines(
            Seq::new(contents@.len(), |k: int| (contents@[k]@, terms@[k]@)).subrange(
                from - 1,
                to as int,
            ),
        ),
{
    let ghost all = Seq::new(contents@.len(), |k: int| (contents@[k]@, terms@[k]@));
    let ghost slice = all.subrange(from - 1, to as int);
    let mut out: Vec<char> = Vec::new();
    let mut k = from - 1;
    while k < to
        invariant
            1 <= from <= to <= contents@.len(),
            from - 1 <= k <= to,
            contents@.len() == terms@.len(),
            all == Seq::new(contents@.len(), |k: int| (contents@[k]@, terms@[k]@)),
            slice == all.subrange(from - 1, to as int),
            out@ == join_lines(slice.take(k - (from - 1))),
        decreases to - k,
    {
        proof {
            crate::text::lemma_join_lines_take(slice, k - (from - 1));
        }
        append(&mut out, &contents[k]);
        append(&mut out, &terms[k]);
        k += 1;
    }
    assert(slice.take(k - (from - 1)) =~= slice);
    out
}

/// The last-registered replacement that starts at `line`.
pub(crate) fn find_replacement(reps: &Vec<(usize, usize, Vec<char>)>, line: usize) -> (r: Option<usize>)
    ensures
        match replacement_at(reps_view(reps@), line as int) {
            Some((end, text)) => r matches Some(k) && k < reps@.len() && reps@[k as int].1 == end
                && reps@[k as int].2@ == text && reps@[k as int].0 == line,
            None => r is None,
        },
{
    let ghost rv = reps_view(reps@);
    let mut k = reps.len();
    assert(rv.take(k as int) =~= rv);
    while k > 0
        invariant
            k <= reps@.len(),
            rv == reps_view(reps@),
            replacement_at(rv, line as int) == replacement_at(rv.take(k as int), line as int),
        decreases k,
    {
        let ghost t = rv.take(k as int);
        assert(t.drop_last() =~= rv.take(k - 1));
        assert(t.last() == rv[k - 1]);
        if reps[k - 1].0 == line {
            return Some(k - 1);
        }
        k -= 1;
    }
    None
}

/// The views of the replacements.
pub open spec fn reps_view(reps: Seq<(usize, usize, Vec<char>)>) -> Seq<(usize, usize, Seq<char>)> {
    reps.map_values(|r: (usize, usize, Vec<char>)| (r.0, r.1, r.2@))
}

/// Detect and fix in one pass so the two halves can never disagree.
fn rewrite(doc: &Document) -> (r: (Vec<Violation>, String))
    ensures
        violations_view(r.0@) == spec_rewrite(doc.source@, doc.outline@).0,
        r.1@ == spec_rewrite(doc.source@, doc.outline@).1,
{
    let source = doc.source.as_str();
    let lines = split_lines(source);
    let ghost lv = lines_view(lines@);
    let newline = chars_of(dominant_newline(source));
    let targets = collect(&doc.outline, lines.len());
    let ghost nl = spec_dominant_newline(source@);
    let mut contents: Vec<Vec<char>> = Vec::new();
    let mut terms: Vec<Vec<char>> = Vec::new();
    let mut i: usize = 0;
    while i < lines.len()
        invariant
            i <= lines@.len(),
            lv == lines_view(lines@),
            contents@.len() == i,
            terms@.len() == i,
            forall|k: int| 0 <= k < i ==> lv[k] == (contents@[k]@, terms@[k]@),
        decreases lines@.len() - i,
    {
        contents.push(chars_of(lines[i].content));
        terms.push(chars_of(lines[i].terminator));
        i += 1;
    }
    let ghost all = Seq::new(contents@.len(), |k: int| (contents@[k]@, terms@[k]@));
    assert(all =~= lv);
    let ghost outcomes = targets@.map_values(
        |t: (usize, usize, Prefix)| paragraph_outcome(lv, t, nl),
    );
    let mut reps: Vec<(usize, usize, Vec<char>)> = Vec::new();
    let mut violations: Vec<Violation> = Vec::new();
    let mut t: usize = 0;
    while t < targets.len()
        invariant
            t <= targets@.len(),
            lv == spec_split_lines(source@),
            all == lv,
            all == Seq::new(contents@.len(), |k: int| (contents@[k]@, terms@[k]@)),
            contents@.len() == lv.len(),
            terms@.len() == lv.len(),
            newline@ == nl,
            targets@ == targets_of(doc.outline@, lv.len()),
            forall|k: int|
                0 <= k < targets@.len() ==> 1 <= (#[trigger] targets@[k]).0 <= targets@[k].1
                    <= lv.len(),
            outcomes == targets@.map_values(
                |t: (usize, usize, Prefix)| paragraph_outcome(lv, t, nl),
            ),
            reps@.len() == t,
            forall|k: int|
                0 <= k < t ==> (#[trigger] reps@[k]).0 == targets@[k].0 && reps@[k].1
                    == targets@[k].1 && reps@[k].2@ == outcomes[k].1,
            violations_view(violations@) == reported(outcomes.take(t as int)),
        decreases targets@.len() - t,
    {
        let (start, end, prefix) = targets[t];
        let ghost slice = lv.subrange(start - 1, end as int);
        let ghost slice_contents = slice.map_values(|l: (Seq<char>, Seq<char>)| l.0);
        let mut para: Vec<Vec<char>> = Vec::new();
        let mut k = start - 1;
        while k < end
            invariant
                start - 1 <= k <= end <= contents@.len(),
                1 <= start,
                all == Seq::new(contents@.len(), |k: int| (contents@[k]@, terms@[k]@)),
                slice == all.subrange(start - 1, end as int),
                slice_contents == slice.map_values(|l: (Seq<char>, Seq<char>)| l.0),
                vecs_view(para@) == slice_contents.take(k - (start - 1)),
            decreases end - k,
        {
            let c = copy_chars(&contents[k]);
            let ghost old_view = vecs_view(para@);
            para.push(c);
            assert(vecs_view(para@) =~= old_view.push(c@));
            assert(slice_contents.take(k + 1 - (start - 1)) =~= slice_contents.take(
                k - (start - 1),
            ).push(slice_contents[k - (start - 1)]));
            k += 1;
        }
        assert(slice_contents.take(k - (start - 1)) =~= slice_contents);
        let (first_prefix, cont_prefix, stripped) = strip(prefix, &para);
        let segments = produce(&stripped);
        let before = trimmed_lines(&stripped);
        let after = flatten(&segments);
        let ghost outcome = paragraph_outcome(lv, targets@[t as int], nl);
        assert(outcome == outcomes[t as int]);
        let ghost old_reported = violations_view(violations@);
        assert(outcomes.take(t + 1).drop_last() =~= outcomes.take(t as int));
        if !same_lines(&before, &after) {
            let span = boundary_span(&para, &stripped, start, &before, &after);
            let v = Violation { rule_id: ID, message: MESSAGE.to_string(), span };
            proof {
                crate::violation::lemma_violations_push(violations@, v);
            }
            violations.push(v);
            assert(slice.last() == all[end - 1]);
            let emitted = emit(&segments, &first_prefix, &cont_prefix, &newline, &terms[end - 1]);
            reps.push((start, end, emitted));
        } else {
            let kept = original(&contents, &terms, start, end);
            reps.push((start, end, kept));
        }
        assert(violations_view(violations@) == reported(outcomes.take(t + 1)));
        t += 1;
    }
    assert(outcomes.take(t as int) =~= outcomes);
    let ghost reps_spec = Seq::new(
        targets@.len(),
        |k: int| (targets@[k].0, targets@[k].1, outcomes[k].1),
    );
    assert(reps_view(reps@) =~= reps_spec);
    let mut out: Vec<char> = Vec::new();
    let mut index: usize = 0;
    while index < lines.len()
        invariant
            index <= lv.len(),
            lv.len() == lines@.len(),
            all == lv,
            all == Seq::new(contents@.len(), |k: int| (contents@[k]@, terms@[k]@)),
            contents@.len() == lv.len(),
            terms@.len() == lv.len(),
            reps_view(reps@) == reps_spec,
            reps_spec == Seq::new(
                targets@.len(),
                |k: int| (targets@[k].0, targets@[k].1, outcomes[k].1),
            ),
            forall|k: int|
                0 <= k < reps@.len() ==> 1 <= (#[trigger] reps@[k]).0 <= reps@[k].1 <= lv.len(),
            out@ + assemble(lv, reps_spec, index + 1) == assemble(lv, reps_spec, 1),
        decreases lv.len() - index,
    {
        match find_replacement(&reps, index + 1) {
            Some(k) => {
                let end = reps[k].1;
                let ghost before = out@;
                append(&mut out, &reps[k].2);
                assert(out@ + assemble(lv, reps_spec, end + 1) =~= before + assemble(
                    lv,
                    reps_spec,
                    index + 1,
                ));
                index = end;
            },
            None => {
                let ghost before = out@;
                append(&mut out, &contents[index]);
                append(&mut out, &terms[index]);
                assert(out@ + assemble(lv, reps_spec, index + 2) =~= before + assemble(
                    lv,
                    reps_spec,
                    index + 1,
                ));
                index += 1;
            },
        }
    }
    assert(out@ =~= out@ + assemble(lv, reps_spec, index + 1));
    let fixed = string_of(&out, 0, out.len());
    assert(out@.subrange(0, out@.len() as int) =~= out@);
    (violations, fixed)
}

pub proof fn lemma_targets_valid(edges: Seq<Edge>, line_count: nat)
    ensures
        forall|k: int|
            0 <= k < targets_of(edges, line_count).len() ==> 1 <= (#[trigger] targets_of(
                edges,
                line_count,
            )[k]).0 <= targets_of(edges, line_count)[k].1 <= line_count,
    decreases edges.len(),
{
    if edges.len() > 0 {
        let before = targets_of(edges.drop_last(), line_count);
        lemma_targets_valid(edges.drop_last(), line_count);
        let all = targets_of(edges, line_count);
        assert forall|k: int| 0 <= k < all.len() implies 1 <= (#[trigger] all[k]).0 <= all[k].1
            <= line_count by {
            if k < before.len() {
                assert(all[k] == before[k]);
            }
        }
    }
}

pub proof fn lemma_replacement_at(reps: Seq<(usize, usize, Seq<char>)>, line: int)
    ensures
        replacement_at(reps, line) matches Some((end, text)) ==> exists|k: int|
            0 <= k < reps.len() && (#[trigger] reps[k]).0 == line && reps[k].1 == end && reps[k].2
                == text,
    decreases reps.len(),
{
    if reps.len() > 0 {
        if reps.last().0 == line {
            assert(reps[reps.len() - 1].0 == line);
        } else {
            lemma_replacement_at(reps.drop_last(), line);
            if let Some((end, text)) = replacement_at(reps, line) {
                let k = choose|k: int|
                    0 <= k < reps.drop_last().len() && (#[trigger] reps.drop_last()[k]).0 == line
                        && reps.drop_last()[k].1 == end && reps.drop_last()[k].2 == text;
                assert(reps[k] == reps.drop_last()[k]);
            }
        }
    }
}

/// When every replacement is the very text of the lines it covers, assembling
/// from line `line` gives back the source lines from there on.
pub proof fn lemma_assemble_identity(
    lines: Seq<(Seq<char>, Seq<char>)>,
    reps: Seq<(usize, usize, Seq<char>)>,
    line: int,
)
    requires
        1 <= line <= lines.len() + 1,
        forall|k: int|
            0 <= k < reps.len() ==> 1 <= (#[trigger] reps[k]).0 <= reps[k].1 <= lines.len()
                && reps[k].2 == join_lines(lines.subrange(reps[k].0 - 1, reps[k].1 as int)),
    ensures
        assemble(lines, reps, line) == join_lines(lines.subrange(line - 1, lines.len() as int)),
    decreases lines.len() + 1 - line,
{
    if line > lines.len() {
        assert(lines.subrange(line - 1, lines.len() as int) =~= Seq::<(Seq<char>, Seq<char>)>::empty());
    } else {
        lemma_replacement_at(reps, line);
        match replacement_at(reps, line) {
            Some((end, text)) => {
                let k = choose|k: int|
                    0 <= k < reps.len() && (#[trigger] reps[k]).0 == line && reps[k].1 == end
                        && reps[k].2 == text;
                assert(reps[k].0 == line);
                lemma_assemble_identity(lines, reps, end + 1);
                crate::text::lemma_join_lines_concat(
                    lines.subrange(line - 1, end as int),
                    lines.subrange(end as int, lines.len() as int),
                );
                assert(lines.subrange(line - 1, end as int) + lines.subrange(end as int, lines.len() as int)
                    =~= lines.subrange(line - 1, lines.len() as int));
            },
            None => {
                lemma_assemble_identity(lines, reps, line + 1);
                let rest = lines.subrange(line - 1, lines.len() as int);
                assert(rest.drop_first() =~= lines.subrange(line, lines.len() as int));
                assert(rest[0] == lines[line - 1]);
            },
        }
    }
}

proof fn lemma_nothing_reported(outcomes: Seq<(bool, Seq<char>, Span)>)
    requires
        reported(outcomes).len() == 0,
    ensures
        forall|k: int| 0 <= k < outcomes.len() ==> !(#[trigger] outcomes[k]).0,
    decreases outcomes.len(),
{
    if outcomes.len() > 0 {
        if !outcomes.last().0 {
            lemma_nothing_reported(outcomes.drop_last());
            assert forall|k: int| 0 <= k < outcomes.len() implies !(#[trigger] outcomes[k]).0 by {
                if k < outcomes.len() - 1 {
                    assert(outcomes[k] == outcomes.drop_last()[k]);
                }
            }
        }
    }
}

/// Lint already reports everything format would change: when the rule finds
/// nothing to report, its fix gives back the source exactly.
pub proof fn law_no_violation_means_no_change(source: Seq<char>, outline: Seq<Edge>)
    requires
        spec_rewrite(source, outline).0.len() == 0,
    ensures
        spec_rewrite(source, outline).1 == source,
{
    let lines = spec_split_lines(source);
    let newline = spec_dominant_newline(source);
    let targets = targets_of(outline, lines.len());
    let outcomes = targets.map_values(
        |t: (usize, usize, Prefix)| paragraph_outcome(lines, t, newline),
    );
    let reps = Seq::new(
        targets.len(),
        |k: int| (targets[k].0, targets[k].1, outcomes[k].1),
    );
    lemma_nothing_reported(outcomes);
    lemma_targets_valid(outline, lines.len());
    assert forall|k: int| 0 <= k < reps.len() implies 1 <= (#[trigger] reps[k]).0 <= reps[k].1
        <= lines.len() && reps[k].2 == join_lines(lines.subrange(reps[k].0 - 1, reps[k].1 as int)) by {
        assert(targets[k] == targets_of(outline, lines.len())[k]);
        assert(!outcomes[k].0);
    }
    lemma_assemble_identity(lines, reps, 1);
    assert(lines.subrange(0, lines.len() as int) =~= lines);
    crate::text::lemma_split_lines_rejoin(source);
}

/// `s` without whitespace and `>` quote markers: the text a reader sees,
/// whatever its layout.
pub open spec fn prose_text(s: Seq<char>) -> Seq<char>
    decreases s.len(),
{
    if s.len() == 0 {
        Seq::empty()
    } else if is_space(s.last()) || s.last() == '>' {
        prose_text(s.drop_last())
    } else {
        prose_text(s.drop_last()).push(s.last())
    }
}

proof fn lemma_prose_concat(a: Seq<char>, b: Seq<char>)
    ensures
        prose_text(a + b) == prose_text(a) + prose_text(b),
    decreases b.len(),
{
    if b.len() == 0 {
        assert(a + b =~= a);
        assert(prose_text(a) + prose_text(b) =~= prose_text(a));
    } else {
        lemma_prose_concat(a, b.drop_last());
        assert((a + b).drop_last() =~= a + b.drop_last());
        assert((a + b).last() == b.last());
        assert(prose_text(a + b) =~= prose_text(a) + prose_text(b));
    }
}

/// Text made only of whitespace and `>` shows no prose.
proof fn lemma_prose_layout(s: Seq<char>)
    requires
        forall|i: int| 0 <= i < s.len() ==> is_space(#[trigger] s[i]) || s[i] == '>',
    ensures
        prose_text(s).len() == 0,
    decreases s.len(),
{
    if s.len() > 0 {
        assert forall|i: int| 0 <= i < s.drop_last().len() implies is_space(
            #[trigger] s.drop_last()[i],
        ) || s.drop_last()[i] == '>' by {
            assert(s.drop_last()[i] == s[i]);
        }
        lemma_prose_layout(s.drop_last());
        assert(is_space(s[s.len() - 1]) || s[s.len() - 1] == '>');
    }
}

/// Equal visible text gives equal prose.
proof fn lemma_prose_of_visible(s: Seq<char>)
    ensures
        prose_text(s) == prose_text(visible(s)),
    decreases s.len(),
{
    if s.len() > 0 {
        lemma_prose_of_visible(s.drop_last());
        if !is_space(s.last()) {
            assert(visible(s).drop_last() =~= visible(s.drop_last()));
            assert(visible(s).last() == s.last());
        }
    }
}

proof fn lemma_repeat_layout(p: Seq<char>, n: nat)
    requires
        forall|i: int| 0 <= i < p.len() ==> is_space(#[trigger] p[i]) || p[i] == '>',
    ensures
        prose_text(repeat(p, n)).len() == 0,
    decreases n,
{
    if n > 0 {
        lemma_repeat_layout(p, (n - 1) as nat);
        lemma_prose_concat(repeat(p, (n - 1) as nat), p);
        lemma_prose_layout(p);
    }
}

proof fn lemma_strip_quote_prose(c: Seq<char>, depth: nat)
    ensures
        prose_text(spec_strip_quote(c, depth)) == prose_text(c),
        unmarked(c) ==> unmarked(spec_strip_quote(c, depth)),
    decreases depth,
{
    if !(depth == 0 || c.len() == 0 || c[0] != '>') {
        let after = c.drop_first();
        let rest = if after.len() > 0 && after[0] == ' ' {
            after.drop_first()
        } else {
            after
        };
        lemma_strip_quote_prose(rest, (depth - 1) as nat);
        let gone = c.take(c.len() - rest.len());
        assert(gone + rest =~= c);
        assert forall|i: int| 0 <= i < gone.len() implies is_space(#[trigger] gone[i])
            || gone[i] == '>' by {}
        lemma_prose_layout(gone);
        lemma_prose_concat(gone, rest);
        if unmarked(c) && rest.contains(PH_OPEN) {
            let i = choose|i: int| 0 <= i < rest.len() && rest[i] == PH_OPEN;
            assert(c[i + gone.len()] == PH_OPEN);
        }
    }
}

proof fn lemma_strip_indent_prose(c: Seq<char>, width: nat)
    ensures
        prose_text(spec_strip_indent(c, width)) == prose_text(c),
        unmarked(c) ==> unmarked(spec_strip_indent(c, width)),
    decreases width,
{
    if !(width == 0 || c.len() == 0 || c[0] != ' ') {
        let rest = c.drop_first();
        lemma_strip_indent_prose(rest, (width - 1) as nat);
        assert(seq![c[0]] + rest =~= c);
        lemma_prose_layout(seq![c[0]]);
        lemma_prose_concat(seq![c[0]], rest);
        if unmarked(c) && rest.contains(PH_OPEN) {
            let i = choose|i: int| 0 <= i < rest.len() && rest[i] == PH_OPEN;
            assert(c[i + 1] == PH_OPEN);
        }
    }
}

proof fn lemma_joined_prose_pointwise(a: Seq<Seq<char>>, b: Seq<Seq<char>>)
    requires
        a.len() == b.len(),
        forall|k: int| 0 <= k < a.len() ==> prose_text(#[trigger] a[k]) == prose_text(b[k]),
    ensures
        prose_text(joined(a)) == prose_text(joined(b)),
    decreases a.len(),
{
    if a.len() > 0 {
        assert forall|k: int| 0 <= k < a.drop_last().len() implies prose_text(
            #[trigger] a.drop_last()[k],
        ) == prose_text(b.drop_last()[k]) by {
            assert(a.drop_last()[k] == a[k]);
            assert(b.drop_last()[k] == b[k]);
        }
        lemma_joined_prose_pointwise(a.drop_last(), b.drop_last());
        lemma_prose_concat(joined(a.drop_last()), a.last());
        lemma_prose_concat(joined(b.drop_last()), b.last());
        assert(prose_text(a[a.len() - 1]) == prose_text(b[b.len() - 1]));
    }
}

/// Stripping a paragraph's prefixes keeps its prose: the first line's prefix
/// and the stripped lines show, together, what the lines showed; the prefix
/// for later lines shows nothing.
proof fn lemma_strip_prose(prefix: Prefix, contents: Seq<Seq<char>>)
    requires
        contents.len() > 0,
        forall|i: int| 0 <= i < contents.len() ==> unmarked(#[trigger] contents[i]),
    ensures
        prose_text(spec_strip(prefix, contents).0) + prose_text(
            joined(spec_strip(prefix, contents).2),
        ) == prose_text(joined(contents)),
        prose_text(spec_strip(prefix, contents).1).len() == 0,
        forall|i: int|
            0 <= i < spec_strip(prefix, contents).2.len() ==> unmarked(
                #[trigger] spec_strip(prefix, contents).2[i],
            ),
{
    let parts = spec_strip(prefix, contents);
    match prefix {
        Prefix::Plain => {
            assert(prose_text(Seq::<char>::empty()) == Seq::<char>::empty());
            assert(Seq::<char>::empty() + prose_text(joined(contents)) =~= prose_text(joined(contents)));
        },
        Prefix::Quote(depth) => {
            let marker = repeat(seq!['>', ' '], depth as nat);
            lemma_repeat_layout(seq!['>', ' '], depth as nat);
            assert forall|k: int| 0 <= k < parts.2.len() implies prose_text(#[trigger] parts.2[k])
                == prose_text(contents[k]) && unmarked(parts.2[k]) by {
                lemma_strip_quote_prose(contents[k], depth as nat);
            }
            lemma_joined_prose_pointwise(parts.2, contents);
            assert(Seq::<char>::empty() + prose_text(joined(parts.2)) =~= prose_text(joined(parts.2)));
        },
        Prefix::List(column) => {
            let width: nat = if column >= 1 {
                (column - 1) as nat
            } else {
                0
            };
            lemma_repeat_layout(seq![' '], width);
            let first = contents[0];
            let taken: int = if width <= first.len() {
                width as int
            } else {
                first.len() as int
            };
            let rest = contents.drop_first().map_values(|c: Seq<char>| spec_strip_indent(c, width));
            assert(parts.2 == seq![first.skip(taken)] + rest);
            assert forall|k: int| 0 <= k < rest.len() implies prose_text(#[trigger] rest[k])
                == prose_text(contents.drop_first()[k]) && unmarked(rest[k]) by {
                assert(contents.drop_first()[k] == contents[k + 1]);
                lemma_strip_indent_prose(contents[k + 1], width);
            }
            lemma_joined_prose_pointwise(rest, contents.drop_first());
            lemma_joined_concat(seq![first.skip(taken)], rest);
            lemma_joined_concat(seq![first], contents.drop_first());
            assert(seq![first] + contents.drop_first() =~= contents);
            assert(joined(seq![first.skip(taken)]) == first.skip(taken)) by {
                assert(seq![first.skip(taken)].drop_last() =~= Seq::<Seq<char>>::empty());
                assert(joined(Seq::<Seq<char>>::empty()) == Seq::<char>::empty());
            }
            assert(joined(seq![first]) == first) by {
                assert(seq![first].drop_last() =~= Seq::<Seq<char>>::empty());
                assert(joined(Seq::<Seq<char>>::empty()) == Seq::<char>::empty());
            }
            assert(first.take(taken) + first.skip(taken) =~= first);
            lemma_prose_concat(first.take(taken), first.skip(taken));
            lemma_prose_concat(first.skip(taken), joined(rest));
            lemma_prose_concat(first, joined(contents.drop_first()));
            assert forall|i: int| 0 <= i < parts.2.len() implies unmarked(#[trigger] parts.2[i]) by {
                if i == 0 {
                    assert(parts.2[0] == first.skip(taken));
                    if first.skip(taken).contains(PH_OPEN) {
                        let j = choose|j: int| 0 <= j < first.skip(taken).len() && first.skip(
                            taken,
                        )[j] == PH_OPEN;
                        assert(first[j + taken] == PH_OPEN);
                    }
                } else {
                    assert(parts.2[i] == rest[i - 1]);
                }
            }
        },
    }
}

/// Emitting lines behind their prefixes and endings shows the first prefix and
/// the lines, when the other prefix and the endings show nothing.
proof fn lemma_emit_prose(
    lines: Seq<Seq<char>>,
    first: Seq<char>,
    cont: Seq<char>,
    newline: Seq<char>,
    last: Seq<char>,
    n: int,
)
    requires
        0 < n <= lines.len(),
        prose_text(cont).len() == 0,
        prose_text(newline).len() == 0,
        prose_text(last).len() == 0,
    ensures
        prose_text(emit_upto(lines, first, cont, newline, last, n)) == prose_text(first)
            + prose_text(joined(lines.take(n))),
    decreases n,
{
    let pre = if n - 1 == 0 {
        first
    } else {
        cont
    };
    let term = if n - 1 == lines.len() - 1 {
        last
    } else {
        newline
    };
    let before = emit_upto(lines, first, cont, newline, last, n - 1);
    assert(emit_upto(lines, first, cont, newline, last, n) == before + pre + lines[n - 1] + term);
    lemma_prose_concat(before + pre + lines[n - 1], term);
    lemma_prose_concat(before + pre, lines[n - 1]);
    lemma_prose_concat(before, pre);
    assert(lines.take(n).drop_last() =~= lines.take(n - 1));
    assert(lines.take(n).last() == lines[n - 1]);
    lemma_prose_concat(joined(lines.take(n - 1)), lines[n - 1]);
    if n > 1 {
        lemma_emit_prose(lines, first, cont, newline, last, n - 1);
    } else {
        assert(before == Seq::<char>::empty());
        assert(lines.take(0) =~= Seq::<Seq<char>>::empty());
        assert(joined(Seq::<Seq<char>>::empty()) == Seq::<char>::empty());
    }
}

/// Joining lines with their endings shows what their contents show.
proof fn lemma_join_lines_prose(slice: Seq<(Seq<char>, Seq<char>)>)
    requires
        forall|i: int| 0 <= i < slice.len() ==> prose_text((#[trigger] slice[i]).1).len() == 0,
    ensures
        prose_text(join_lines(slice)) == prose_text(
            joined(slice.map_values(|l: (Seq<char>, Seq<char>)| l.0)),
        ),
    decreases slice.len(),
{
    if slice.len() > 0 {
        let init = slice.drop_last();
        assert forall|i: int| 0 <= i < init.len() implies prose_text((#[trigger] init[i]).1).len()
            == 0 by {
            assert(init[i] == slice[i]);
        }
        lemma_join_lines_prose(init);
        assert(init.push(slice.last()) =~= slice);
        crate::text::lemma_join_lines_push(init, slice.last());
        let cs = slice.map_values(|l: (Seq<char>, Seq<char>)| l.0);
        assert(cs.drop_last() =~= init.map_values(|l: (Seq<char>, Seq<char>)| l.0));
        assert(cs.last() == slice.last().0);
        lemma_prose_concat(join_lines(init) + slice.last().0, slice.last().1);
        lemma_prose_concat(join_lines(init), slice.last().0);
        lemma_prose_concat(joined(cs.drop_last()), slice.last().0);
        assert(prose_text(slice[slice.len() - 1].1).len() == 0);
    }
}

proof fn lemma_line_ending_prose(t: Seq<char>)
    requires
        t == crate::text::lf() || t == crate::text::crlf() || t.len() == 0,
    ensures
        prose_text(t).len() == 0,
{
    lemma_prose_layout(t);
}

/// The text of a paragraph once rewritten shows the prose it showed before,
/// when the paragraph, prefixes stripped, shows any text at all.
proof fn lemma_paragraph_prose(
    lines: Seq<(Seq<char>, Seq<char>)>,
    target: (usize, usize, Prefix),
    newline: Seq<char>,
)
    requires
        1 <= target.0 <= target.1 <= lines.len(),
        newline == crate::text::lf() || newline == crate::text::crlf(),
        forall|i: int|
            0 <= i < lines.len() ==> unmarked((#[trigger] lines[i]).0) && (lines[i].1
                == crate::text::lf() || lines[i].1 == crate::text::crlf() || lines[i].1.len()
                == 0),
        visible(
            joined(
                spec_strip(
                    target.2,
                    lines.subrange(target.0 - 1, target.1 as int).map_values(
                        |l: (Seq<char>, Seq<char>)| l.0,
                    ),
                ).2,
            ),
        ).len() > 0,
    ensures
        prose_text(paragraph_outcome(lines, target, newline).1) == prose_text(
            join_lines(lines.subrange(target.0 - 1, target.1 as int)),
        ),
{
    let slice = lines.subrange(target.0 - 1, target.1 as int);
    let contents = slice.map_values(|l: (Seq<char>, Seq<char>)| l.0);
    let parts = spec_strip(target.2, contents);
    let segments = spec_produce(parts.2);
    assert forall|i: int| 0 <= i < slice.len() implies prose_text((#[trigger] slice[i]).1).len()
        == 0 by {
        assert(slice[i] == lines[target.0 - 1 + i]);
        lemma_line_ending_prose(slice[i].1);
    }
    lemma_join_lines_prose(slice);
    let before = parts.2.map_values(|c: Seq<char>| trim(c));
    let after = concat_all(segments);
    if before != after {
        assert forall|i: int| 0 <= i < contents.len() implies unmarked(#[trigger] contents[i]) by {
            assert(contents[i] == lines[target.0 - 1 + i].0);
        }
        lemma_strip_prose(target.2, contents);
        law_paragraph_keeps_the_text(parts.2);
        let out_lines = sentence_lines(segments, segments.len() as int);
        lemma_prose_of_visible(joined(out_lines));
        lemma_prose_of_visible(joined(parts.2));
        assert(out_lines.len() > 0) by {
            if out_lines.len() == 0 {
                assert(joined(out_lines) == Seq::<char>::empty());
                assert(visible(Seq::<char>::empty()) == Seq::<char>::empty());
            }
        }
        lemma_line_ending_prose(newline);
        assert(slice.last() == lines[target.1 - 1]);
        lemma_line_ending_prose(slice.last().1);
        lemma_emit_prose(out_lines, parts.0, parts.1, newline, slice.last().1, out_lines.len() as int);
        assert(out_lines.take(out_lines.len() as int) =~= out_lines);
    }
}

/// Assembling the output from replacements that each show the prose of the
/// lines they stand for shows the prose of the lines from `line` on.
proof fn lemma_assemble_prose(
    lines: Seq<(Seq<char>, Seq<char>)>,
    reps: Seq<(usize, usize, Seq<char>)>,
    line: int,
)
    requires
        1 <= line <= lines.len() + 1,
        forall|k: int|
            0 <= k < reps.len() ==> 1 <= (#[trigger] reps[k]).0 <= reps[k].1 <= lines.len()
                && prose_text(reps[k].2) == prose_text(
                join_lines(lines.subrange(reps[k].0 - 1, reps[k].1 as int)),
            ),
    ensures
        prose_text(assemble(lines, reps, line)) == prose_text(
            join_lines(lines.subrange(line - 1, lines.len() as int)),
        ),
    decreases lines.len() + 1 - line,
{
    if line > lines.len() {
        assert(lines.subrange(line - 1, lines.len() as int) =~= Seq::<(Seq<char>, Seq<char>)>::empty());
    } else {
        lemma_replacement_at(reps, line);
        match replacement_at(reps, line) {
            Some((end, text)) => {
                let k = choose|k: int|
                    0 <= k < reps.len() && (#[trigger] reps[k]).0 == line && reps[k].1 == end
                        && reps[k].2 == text;
                assert(reps[k].0 == line);
                lemma_assemble_prose(lines, reps, end + 1);
                crate::text::lemma_join_lines_concat(
                    lines.subrange(line - 1, end as int),
                    lines.subrange(end as int, lines.len() as int),
                );
                assert(lines.subrange(line - 1, end as int) + lines.subrange(end as int, lines.len() as int)
                    =~= lines.subrange(line - 1, lines.len() as int));
                lemma_prose_concat(text, assemble(lines, reps, end + 1));
                lemma_prose_concat(
                    join_lines(lines.subrange(line - 1, end as int)),
                    join_lines(lines.subrange(end as int, lines.len() as int)),
                );
            },
            None => {
                lemma_assemble_prose(lines, reps, line + 1);
                let rest = lines.subrange(line - 1, lines.len() as int);
                assert(rest.drop_first() =~= lines.subrange(line, lines.len() as int));
                assert(rest[0] == lines[line - 1]);
                assert(join_lines(rest) == rest[0].0 + rest[0].1 + join_lines(rest.drop_first()));
                lemma_prose_concat(
                    lines[line - 1].0 + lines[line - 1].1,
                    assemble(lines, reps, line + 1),
                );
                lemma_prose_concat(
                    lines[line - 1].0 + lines[line - 1].1,
                    join_lines(rest.drop_first()),
                );
            },
        }
    }
}

/// Whether every prose paragraph of the document, its prefixes stripped,
/// shows some text.
pub open spec fn paragraphs_have_text(source: Seq<char>, outline: Seq<Edge>) -> bool {
    let lines = spec_split_lines(source);
    let targets = targets_of(outline, lines.len());
    forall|k: int|
        0 <= k < targets.len() ==> visible(
            joined(
                spec_strip(
                    (#[trigger] targets[k]).2,
                    lines.subrange(targets[k].0 - 1, targets[k].1 as int).map_values(
                        |l: (Seq<char>, Seq<char>)| l.0,
                    ),
                ).2,
            ),
        ).len() > 0
}

/// The fix only moves line breaks, spaces and quote markers: without
/// whitespace and `>`, the fixed file reads exactly as the source, inline code
/// and links included. This holds of a source free of the private-use
/// placeholder opener whose prose paragraphs each hold some text.
pub proof fn law_fix_keeps_the_text(source: Seq<char>, outline: Seq<Edge>)
    requires
        unmarked(source),
        paragraphs_have_text(source, outline),
    ensures
        prose_text(spec_rewrite(source, outline).1) == prose_text(source),
{
    let lines = spec_split_lines(source);
    let newline = spec_dominant_newline(source);
    let targets = targets_of(outline, lines.len());
    let outcomes = targets.map_values(
        |t: (usize, usize, Prefix)| paragraph_outcome(lines, t, newline),
    );
    let reps = Seq::new(
        targets.len(),
        |k: int| (targets[k].0, targets[k].1, outcomes[k].1),
    );
    crate::text::lemma_split_lines_rejoin(source);
    crate::text::lemma_split_lines_terminators(source);
    crate::text::lemma_split_lines_well_formed(source);
    lemma_lines_unmarked(lines, source);
    lemma_targets_valid(outline, lines.len());
    assert(newline == crate::text::lf() || newline == crate::text::crlf());
    assert forall|k: int| 0 <= k < reps.len() implies 1 <= (#[trigger] reps[k]).0 <= reps[k].1
        <= lines.len() && prose_text(reps[k].2) == prose_text(
        join_lines(lines.subrange(reps[k].0 - 1, reps[k].1 as int)),
    ) by {
        assert(targets[k] == targets_of(outline, lines.len())[k]);
        lemma_paragraph_prose(lines, targets[k], newline);
    }
    lemma_assemble_prose(lines, reps, 1);
    assert(lines.subrange(0, lines.len() as int) =~= lines);
}

/// The contents of a source's lines hold no placeholder opener if it holds none.
proof fn lemma_lines_unmarked(lines: Seq<(Seq<char>, Seq<char>)>, source: Seq<char>)
    requires
        join_lines(lines) == source,
        unmarked(source),
    ensures
        forall|i: int| 0 <= i < lines.len() ==> unmarked(#[trigger] lines[i].0),
    decreases lines.len(),
{
    if lines.len() > 0 {
        let rest = lines.drop_first();
        let tail = join_lines(rest);
        assert(source == lines[0].0 + lines[0].1 + tail);
        assert(unmarked(tail)) by {
            if tail.contains(PH_OPEN) {
                let i = choose|i: int| 0 <= i < tail.len() && tail[i] == PH_OPEN;
                assert(source[lines[0].0.len() + lines[0].1.len() + i] == PH_OPEN);
            }
        }
        assert(unmarked(lines[0].0)) by {
            if lines[0].0.contains(PH_OPEN) {
                let i = choose|i: int| 0 <= i < lines[0].0.len() && lines[0].0[i] == PH_OPEN;
                assert(source[i] == PH_OPEN);
            }
        }
        lemma_lines_unmarked(rest, tail);
        assert forall|i: int| 0 <= i < lines.len() implies unmarked(#[trigger] lines[i].0) by {
            if i > 0 {
                assert(lines[i] == rest[i - 1]);
            }
        }
    }
}

proof fn lemma_multi_sentence_line(stripped: Seq<Seq<char>>, from: int)
    requires
        0 <= from,
    ensures
        multi_sentence_line(stripped, from) matches Some(o) ==> from <= o < stripped.len(),
    decreases stripped.len() - from,
{
    if from < stripped.len() && concat_all(spec_produce(seq![stripped[from]])).len() <= 1 {
        lemma_multi_sentence_line(stripped, from + 1);
    }
}

/// A paragraph's violation points at one of its own lines, one column long.
proof fn lemma_outcome_span(
    lines: Seq<(Seq<char>, Seq<char>)>,
    target: (usize, usize, Prefix),
    newline: Seq<char>,
)
    requires
        1 <= target.0 <= target.1 <= lines.len(),
    ensures
        paragraph_outcome(lines, target, newline).0 ==> target.0 <= paragraph_outcome(
            lines,
            target,
            newline,
        ).2.line <= target.1 && paragraph_outcome(lines, target, newline).2.length == 1,
{
    let slice = lines.subrange(target.0 - 1, target.1 as int);
    let contents = slice.map_values(|l: (Seq<char>, Seq<char>)| l.0);
    let parts = spec_strip(target.2, contents);
    let before = parts.2.map_values(|c: Seq<char>| trim(c));
    let after = concat_all(spec_produce(parts.2));
    if before != after {
        assert(parts.2.len() == contents.len());
        lemma_multi_sentence_line(parts.2, 0);
        lemma_first_difference_from(before, after, 0);
    }
}

proof fn lemma_reported_shape(outcomes: Seq<(bool, Seq<char>, Span)>, spans_ok: spec_fn(Span) -> bool)
    requires
        forall|k: int| 0 <= k < outcomes.len() && (#[trigger] outcomes[k]).0 ==> spans_ok(outcomes[k].2),
    ensures
        reported(outcomes).len() <= outcomes.len(),
        forall|j: int|
            0 <= j < reported(outcomes).len() ==> (#[trigger] reported(outcomes)[j]).0 == ID@
                && reported(outcomes)[j].1 == MESSAGE@ && spans_ok(reported(outcomes)[j].2),
    decreases outcomes.len(),
{
    if outcomes.len() > 0 {
        let init = outcomes.drop_last();
        assert forall|k: int| 0 <= k < init.len() && (#[trigger] init[k]).0 implies spans_ok(init[k].2) by {
            assert(init[k] == outcomes[k]);
        }
        lemma_reported_shape(init, spans_ok);
        assert(outcomes.last() == outcomes[outcomes.len() - 1]);
    }
}

/// Each violation of the rule names the rule, says to put each sentence on
/// its own line, is one column long, and points at a line of one of the
/// document's prose paragraphs; there is at most one per paragraph.
pub proof fn law_violations_point_into_paragraphs(source: Seq<char>, outline: Seq<Edge>)
    ensures
        spec_rewrite(source, outline).0.len() <= targets_of(
            outline,
            spec_split_lines(source).len(),
        ).len(),
        forall|j: int|
            0 <= j < spec_rewrite(source, outline).0.len() ==> {
                let v = #[trigger] spec_rewrite(source, outline).0[j];
                &&& v.0 == ID@
                &&& v.1 == MESSAGE@
                &&& v.2.length == 1
                &&& exists|k: int|
                    0 <= k < targets_of(outline, spec_split_lines(source).len()).len() && (
                    #[trigger] targets_of(outline, spec_split_lines(source).len())[k]).0
                        <= v.2.line <= targets_of(outline, spec_split_lines(source).len())[k].1
            },
{
    let lines = spec_split_lines(source);
    let newline = spec_dominant_newline(source);
    let targets = targets_of(outline, lines.len());
    let outcomes = targets.map_values(
        |t: (usize, usize, Prefix)| paragraph_outcome(lines, t, newline),
    );
    lemma_targets_valid(outline, lines.len());
    let spans_ok = |sp: Span|
        sp.length == 1 && exists|k: int|
            0 <= k < targets.len() && (#[trigger] targets[k]).0 <= sp.line <= targets[k].1;
    assert forall|k: int| 0 <= k < outcomes.len() && (#[trigger] outcomes[k]).0 implies spans_ok(
        outcomes[k].2,
    ) by {
        lemma_outcome_span(lines, targets[k], newline);
        assert(targets[k].0 <= outcomes[k].2.line <= targets[k].1);
    }
    lemma_reported_shape(outcomes, spans_ok);
}

/// Assembling copies, verbatim, a stretch of lines where no replacement starts.
proof fn lemma_assemble_copies(
    lines: Seq<(Seq<char>, Seq<char>)>,
    reps: Seq<(usize, usize, Seq<char>)>,
    a: int,
    b: int,
)
    requires
        1 <= a <= b <= lines.len() + 1,
        forall|k: int| 0 <= k < reps.len() ==> !(a <= (#[trigger] reps[k]).0 < b),
    ensures
        assemble(lines, reps, a) == join_lines(lines.subrange(a - 1, b - 1)) + assemble(
            lines,
            reps,
            b,
        ),
    decreases b - a,
{
    if a == b {
        assert(lines.subrange(a - 1, b - 1) =~= Seq::<(Seq<char>, Seq<char>)>::empty());
        assert(join_lines(lines.subrange(a - 1, b - 1)) == Seq::<char>::empty());
        assert(Seq::<char>::empty() + assemble(lines, reps, b) =~= assemble(lines, reps, b));
    } else {
        lemma_replacement_at(reps, a);
        assert(replacement_at(reps, a) is None) by {
            if let Some((end, text)) = replacement_at(reps, a) {
                let k = choose|k: int|
                    0 <= k < reps.len() && (#[trigger] reps[k]).0 == a && reps[k].1 == end
                        && reps[k].2 == text;
                assert(!(a <= reps[k].0 < b));
            }
        }
        lemma_assemble_copies(lines, reps, a + 1, b);
        let stretch = lines.subrange(a - 1, b - 1);
        assert(stretch.drop_first() =~= lines.subrange(a, b - 1));
        assert(stretch[0] == lines[a - 1]);
        assert(join_lines(stretch) == stretch[0].0 + stretch[0].1 + join_lines(stretch.drop_first()));
        assert(assemble(lines, reps, a) =~= join_lines(stretch) + assemble(lines, reps, b));
    }
}

/// Assembling from `line` on keeps a later stretch that no replacement touches.
proof fn lemma_assemble_keeps(
    lines: Seq<(Seq<char>, Seq<char>)>,
    reps: Seq<(usize, usize, Seq<char>)>,
    line: int,
    a: int,
    b: int,
) -> (r: (Seq<char>, Seq<char>))
    requires
        1 <= line <= a <= b <= lines.len() + 1,
        forall|k: int|
            0 <= k < reps.len() ==> 1 <= (#[trigger] reps[k]).0 <= reps[k].1 <= lines.len() && (
            reps[k].1 < a || reps[k].0 >= b),
    ensures
        assemble(lines, reps, line) == r.0 + join_lines(lines.subrange(a - 1, b - 1)) + r.1,
    decreases a - line,
{
    if line == a {
        assert forall|k: int| 0 <= k < reps.len() implies !(a <= (#[trigger] reps[k]).0 < b) by {}
        lemma_assemble_copies(lines, reps, a, b);
        let r = (Seq::<char>::empty(), assemble(lines, reps, b));
        assert(assemble(lines, reps, line) =~= r.0 + join_lines(lines.subrange(a - 1, b - 1)) + r.1);
        r
    } else {
        lemma_replacement_at(reps, line);
        match replacement_at(reps, line) {
            Some((end, text)) => {
                let k = choose|k: int|
                    0 <= k < reps.len() && (#[trigger] reps[k]).0 == line && reps[k].1 == end
                        && reps[k].2 == text;
                assert(reps[k].1 < a);
                let inner = lemma_assemble_keeps(lines, reps, end + 1, a, b);
                let r = (text + inner.0, inner.1);
                assert(assemble(lines, reps, line) =~= r.0 + join_lines(lines.subrange(a - 1, b - 1))
                    + r.1);
                r
            },
            None => {
                let inner = lemma_assemble_keeps(lines, reps, line + 1, a, b);
                let r = (lines[line - 1].0 + lines[line - 1].1 + inner.0, inner.1);
                assert(assemble(lines, reps, line) =~= r.0 + join_lines(lines.subrange(a - 1, b - 1))
                    + r.1);
                r
            },
        }
    }
}

/// Whatever no prose paragraph touches is kept: a stretch of lines, from line
/// `a` up to but not including line `b`, that meets no paragraph the rule
/// looks at (code blocks, headings, and the like) appears in the fixed file
/// exactly as written, terminators included.
pub proof fn law_untouched_lines_are_kept(source: Seq<char>, outline: Seq<Edge>, a: int, b: int)
    requires
        1 <= a <= b <= spec_split_lines(source).len() + 1,
        forall|k: int|
            0 <= k < targets_of(outline, spec_split_lines(source).len()).len() ==> (
            #[trigger] targets_of(outline, spec_split_lines(source).len())[k]).1 < a
                || targets_of(outline, spec_split_lines(source).len())[k].0 >= b,
    ensures
        exists|x: Seq<char>, y: Seq<char>|
            spec_rewrite(source, outline).1 == #[trigger] (x + join_lines(
                spec_split_lines(source).subrange(a - 1, b - 1),
            ) + y),
{
    let lines = spec_split_lines(source);
    let newline = spec_dominant_newline(source);
    let targets = targets_of(outline, lines.len());
    let outcomes = targets.map_values(
        |t: (usize, usize, Prefix)| paragraph_outcome(lines, t, newline),
    );
    let reps = Seq::new(
        targets.len(),
        |k: int| (targets[k].0, targets[k].1, outcomes[k].1),
    );
    lemma_targets_valid(outline, lines.len());
    assert forall|k: int| 0 <= k < reps.len() implies 1 <= (#[trigger] reps[k]).0 <= reps[k].1
        <= lines.len() && (reps[k].1 < a || reps[k].0 >= b) by {
        assert(targets[k] == targets_of(outline, lines.len())[k]);
    }
    let r = lemma_assemble_keeps(lines, reps, 1, a, b);
    assert(spec_rewrite(source, outline).1 == r.0 + join_lines(lines.subrange(a - 1, b - 1)) + r.1);
}

/// The tool's core rule: within prose, every sentence begins on its own line.
///
/// A paragraph's soft-wrapped lines are joined into logical text and re-split at
/// sentence boundaries. Author hard breaks (two trailing spaces) are barriers we
/// never join across. Inline code, links, and autolinks are protected so a
/// boundary inside them cannot split them across lines. A boundary that would put
/// a block marker at the start of a line is not taken, so nothing is corrupted.
///
/// Scope is prose: top-level paragraphs, blockquotes, and list items. A
/// paragraph is only rewritten when its sentence structure actually changes, so
/// trailing whitespace and marker spacing stay the concern of their own rules and
/// lint never disagrees with format.
pub struct SentencePerLine;

impl SentencePerLine {
    pub fn id(&self) -> (r: &'static str)
        ensures
            r@ == ID@,
    {
        ID
    }

    pub fn short_reason(&self) -> (r: &'static str)
        ensures
            r@ == SHORT_REASON@,
    {
        SHORT_REASON
    }

    pub fn rationale(&self) -> (r: &'static str)
        ensures
            r@ == RATIONALE@,
    {
        RATIONALE
    }

    pub fn detect(&self, doc: &Document) -> (vs: Vec<Violation>)
        ensures
            violations_view(vs@) == spec_rewrite(doc.source@, doc.outline@).0,
    {
        rewrite(doc).0
    }

    pub fn fix(&self, doc: &Document) -> (r: Option<String>)
        ensures
            r matches Some(fixed) && fixed@ == spec_rewrite(doc.source@, doc.outline@).1,
    {
        Some(rewrite(doc).1)
    }
}

} // verus!
