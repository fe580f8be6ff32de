use vstd::prelude::*;
use crate::ast::{Edge, NodeKind, kind_from_name, kind_of};
use crate::chars::{advance, append, chars_of, string_of, sub_vec};
use crate::document::Document;
use crate::rules::sentence_per_line::digit_pred;
use crate::text::{join_lines, lemma_join_lines_take, lemma_split_lines_rejoin, lines_view, spec_split_lines, split_lines};
use crate::violation::{Span, Violation, lemma_violations_push, violations_view};

verus! {

/// One space after a list marker: a gap of two to four spaces between an
/// item's marker and its text is collapsed to one. A wider gap starts code
/// inside the item and is left alone.
pub struct ListMarkerSpace;

pub const ID: &'static str = "list-marker-space";

pub const SHORT_REASON: &'static str = "Use one space after a list marker.";

pub const RATIONALE: &'static str = "A single space after the marker keeps list items aligned predictably and the source tidy. Wider gaps vary between authors and add nothing, so they are collapsed to one space.";

pub const MESSAGE: &'static str = "use one space after the list marker";

/// A space.
pub open spec fn space_char_pred() -> spec_fn(char) -> bool {
    |c: char| c == ' '
}

/// Where the list marker that starts at index `a` of `c` ends: just past a
/// `-`, `*` or `+`, or past digits and a `.` or `)`; `a` where there is none.
pub open spec fn marker_end(c: Seq<char>, a: int) -> int {
    if 0 <= a < c.len() && (c[a] == '-' || c[a] == '*' || c[a] == '+') {
        a + 1
    } else {
        let d = advance(c, a, digit_pred());
        if 0 <= a && a < d && d < c.len() && (c[d] == '.' || c[d] == ')') {
            d + 1
        } else {
            a
        }
    }
}

/// The width of the gap of spaces after the marker at index `a`.
pub open spec fn gap(c: Seq<char>, a: int) -> int {
    advance(c, marker_end(c, a), space_char_pred()) - marker_end(c, a)
}

/// Whether the item whose marker starts at index `a` has a gap to collapse:
/// two to four spaces, then text.
pub open spec fn wide_gap(c: Seq<char>, a: int) -> bool {
    &&& marker_end(c, a) > a
    &&& 2 <= gap(c, a) <= 4
    &&& marker_end(c, a) + gap(c, a) < c.len()
}

/// Line `c` with the gap after the marker at index `a` collapsed to one space.
pub open spec fn collapsed(c: Seq<char>, a: int) -> Seq<char> {
    if wide_gap(c, a) {
        c.take(marker_end(c, a)) + seq![' '] + c.subrange(marker_end(c, a) + gap(c, a), c.len() as int)
    } else {
        c
    }
}

/// The list items of an outline, as the line and column of their marker, in
/// document order.
pub open spec fn item_targets(contents: Seq<Seq<char>>, edges: Seq<Edge>) -> Seq<(usize, usize)>
    decreases edges.len(),
{
    if edges.len() == 0 {
        Seq::empty()
    } else {
        let before = item_targets(contents, edges.drop_last());
        match edges.last() {
            Edge::Open { name, start_line, start_column, end_line, .. } => {
                if kind_of(name@) == NodeKind::Item && 1 <= start_line && start_line
                    <= contents.len() && 1 <= start_column && start_column
                    <= contents[start_line - 1].len() {
                    before.push((start_line, start_column))
                } else {
                    before
                }
            },
            Edge::Close => before,
        }
    }
}

/// The line contents with the gaps of the first `n` targets collapsed.
pub open spec fn canonicalized(contents: Seq<Seq<char>>, targets: Seq<(usize, usize)>, n: int) -> Seq<
    Seq<char>,
>
    decreases n,
{
    if n <= 0 {
        contents
    } else {
        let before = canonicalized(contents, targets, n - 1);
        let (l, c) = targets[n - 1];
        if 1 <= l <= before.len() && 1 <= c && c - 1 <= before[l - 1].len() {
            before.update(l - 1, collapsed(before[l - 1], c - 1))
        } else {
            before
        }
    }
}

/// One violation for each of the first `n` targets with a gap to collapse,
/// at the gap's second space.
pub open spec fn gap_violations(contents: Seq<Seq<char>>, targets: Seq<(usize, usize)>, n: int) -> Seq<
    (Seq<char>, Seq<char>, Span),
>
    decreases n,
{
    if n <= 0 {
        Seq::empty()
    } else {
        let before = gap_violations(contents, targets, n - 1);
        let (l, c) = targets[n - 1];
        if 1 <= l <= contents.len() && 1 <= c && c - 1 <= contents[l - 1].len() && wide_gap(
            contents[l - 1],
            c - 1,
        ) {
            before.push(
                (
                    ID@,
                    MESSAGE@,
                    Span {
                        line: l,
                        column: (marker_end(contents[l - 1], c - 1) + 2) as usize,
                        length: (gap(contents[l - 1], c - 1) - 1) as usize,
                    },
                ),
            )
        } else {
            before
        }
    }
}

pub open spec fn spec_detect(source: Seq<char>, outline: Seq<Edge>) -> Seq<
    (Seq<char>, Seq<char>, Span),
> {
    let contents = spec_split_lines(source).map_values(|l: (Seq<char>, Seq<char>)| l.0);
    let targets = item_targets(contents, outline);
    gap_violations(contents, targets, targets.len() as int)
}

pub open spec fn spec_fix(source: Seq<char>, outline: Seq<Edge>) -> Seq<char> {
    let lines = spec_split_lines(source);
    let contents = lines.map_values(|l: (Seq<char>, Seq<char>)| l.0);
    let targets = item_targets(contents, outline);
    let fixed = canonicalized(contents, targets, targets.len() as int);
    join_lines(Seq::new(lines.len(), |k: int| (fixed[k], lines[k].1)))
}

proof fn lemma_canonicalized_len(contents: Seq<Seq<char>>, targets: Seq<(usize, usize)>, n: int)
    ensures
        canonicalized(contents, targets, n).len() == contents.len(),
    decreases n,
{
    if n > 0 {
        lemma_canonicalized_len(contents, targets, n - 1);
    }
}

fn collect_items(contents: &Vec<Vec<char>>, outline: &Vec<Edge>) -> (ts: Vec<(usize, usize)>)
    ensures
        ts@ == item_targets(contents@.map_values(|v: Vec<char>| v@), outline@),
{
    let ghost cs = contents@.map_values(|v: Vec<char>| v@);
    let mut ts: Vec<(usize, usize)> = Vec::new();
    let mut i: usize = 0;
    while i < outline.len()
        invariant
            i <= outline@.len(),
            cs == contents@.map_values(|v: Vec<char>| v@),
            ts@ == item_targets(cs, outline@.take(i as int)),
        decreases outline@.len() - i,
    {
        let ghost prefix = outline@.take(i + 1);
        assert(prefix.drop_last() =~= outline@.take(i as int));
        assert(prefix.last() == outline@[i as int]);
        match outline[i] {
            Edge::Open { name, start_line, start_column, end_line, .. } => {
                if kind_from_name(name) == NodeKind::Item && 1 <= start_line && start_line
                    <= contents.len() && 1 <= start_column && start_column
                    <= contents[start_line - 1].len() {
                    assert(cs[start_line - 1] == contents@[start_line - 1]@);
                    ts.push((start_line, start_column));
                }
            },
            Edge::Close => {},
        }
        i += 1;
    }
    assert(outline@.take(i as int) =~= outline@);
    ts
}

/// Where the marker at index `a` of `v` ends, and how wide the gap after it is.
fn marker_and_gap(v: &Vec<char>, a: usize) -> (r: (usize, usize))
    requires
        a <= v@.len(),
    ensures
        r.0 == marker_end(v@, a as int),
        r.1 == gap(v@, a as int),
        r.0 + r.1 <= v@.len(),
{
    let mut m = a;
    if a < v.len() && (v[a] == '-' || v[a] == '*' || v[a] == '+') {
        m = a + 1;
    } else {
        let mut d = a;
        while d < v.len() && '0' <= v[d] && v[d] <= '9'
            invariant
                a <= d <= v@.len(),
                advance(v@, d as int, digit_pred()) == advance(v@, a as int, digit_pred()),
            decreases v@.len() - d,
        {
            d += 1;
        }
        if a < d && d < v.len() && (v[d] == '.' || v[d] == ')') {
            m = d + 1;
        }
    }
    let mut e = m;
    while e < v.len() && v[e] == ' '
        invariant
            m <= e <= v@.len(),
            advance(v@, e as int, space_char_pred()) == advance(v@, m as int, space_char_pred()),
        decreases v@.len() - e,
    {
        e += 1;
    }
    (m, e - m)
}

/// `v` with the gap after the marker at index `a` collapsed to one space.
fn collapsed_of(v: &Vec<char>, a: usize) -> (r: Vec<char>)
    requires
        a <= v@.len(),
    ensures
        r@ == collapsed(v@, a as int),
{
    let (m, g) = marker_and_gap(v, a);
    if m > a && 2 <= g && g <= 4 && g < v.len() - m {
        let mut out = sub_vec(v, 0, m);
        out.push(' ');
        let rest = sub_vec(v, m + g, v.len());
        append(&mut out, &rest);
        assert(out@ =~= collapsed(v@, a as int));
        out
    } else {
        sub_vec_all(v)
    }
}

fn sub_vec_all(v: &Vec<char>) -> (r: Vec<char>)
    ensures
        r@ == v@,
{
    let r = sub_vec(v, 0, v.len());
    assert(v@.subrange(0, v@.len() as int) =~= v@);
    r
}

/// Detect and fix in one pass so the two halves can never disagree.
fn analyze(doc: &Document) -> (r: (Vec<Violation>, String))
    ensures
        violations_view(r.0@) == spec_detect(doc.source@, doc.outline@),
        r.1@ == spec_fix(doc.source@, doc.outline@),
{
    let source = doc.source.as_str();
    let lines = split_lines(source);
    let ghost lv = lines_view(lines@);
    let mut contents: Vec<Vec<char>> = Vec::new();
    let mut terms: Vec<Vec<char>> = Vec::new();
    let mut i: usize = 0;
    while i < lines.len()
        invariant
            i <= lines@.len(),
            lv == lines_view(lines@),
            contents@.len() == i,
            terms@.len() == i,
            forall|k: int| 0 <= k < i ==> lv[k] == (contents@[k]@, terms@[k]@),
        decreases lines@.len() - i,
    {
        contents.push(chars_of(lines[i].content));
        terms.push(chars_of(lines[i].terminator));
        i += 1;
    }
    let ghost cs = lv.map_values(|l: (Seq<char>, Seq<char>)| l.0);
    assert(contents@.map_values(|v: Vec<char>| v@) =~= cs);
    let targets = collect_items(&contents, &doc.outline);
    let mut violations: Vec<Violation> = Vec::new();
    let mut t: usize = 0;
    while t < targets.len()
        invariant
            t <= targets@.len(),
            targets@ == item_targets(cs, doc.outline@),
            contents@.map_values(|v: Vec<char>| v@) == cs,
            violations_view(violations@) == gap_violations(cs, targets@, t as int),
        decreases targets@.len() - t,
    {
        let (l, c) = targets[t];
        if 1 <= l && l <= contents.len() && 1 <= c && c - 1 <= contents[l - 1].len() {
            assert(cs[l - 1] == contents@[l - 1]@);
            let (m, g) = marker_and_gap(&contents[l - 1], c - 1);
            if m > c - 1 && 2 <= g && g <= 4 && m + g < contents[l - 1].len() {
                let v = Violation {
                    rule_id: ID,
                    message: MESSAGE.to_string(),
                    span: Span { line: l, column: m + 2, length: g - 1 },
                };
                proof {
                    lemma_violations_push(violations@, v);
                }
                violations.push(v);
            }
        }
        t += 1;
    }
    let mut t: usize = 0;
    while t < targets.len()
        invariant
            t <= targets@.len(),
            contents@.len() == lv.len(),
            contents@.map_values(|v: Vec<char>| v@) == canonicalized(cs, targets@, t as int),
        decreases targets@.len() - t,
    {
        let (l, c) = targets[t];
        let ghost before = canonicalized(cs, targets@, t as int);
        proof {
            lemma_canonicalized_len(cs, targets@, t as int);
        }
        if 1 <= l && l <= contents.len() && 1 <= c && c - 1 <= contents[l - 1].len() {
            assert(before[l - 1] == contents@[l - 1]@);
            let row = collapsed_of(&contents[l - 1], c - 1);
            contents.set(l - 1, row);
            assert(contents@.map_values(|v: Vec<char>| v@) =~= before.update(
                l - 1,
                collapsed(before[l - 1], c - 1),
            ));
        } else {
            assert(contents@.map_values(|v: Vec<char>| v@) =~= canonicalized(cs, targets@, t + 1));
        }
        t += 1;
    }
    let ghost fixed = canonicalized(cs, targets@, targets@.len() as int);
    let ghost pairs = Seq::new(lv.len(), |k: int| (fixed[k], lv[k].1));
    let mut out: Vec<char> = Vec::new();
    let mut k: usize = 0;
    while k < contents.len()
        invariant
            k <= contents@.len(),
            contents@.len() == lv.len(),
            terms@.len() == lv.len(),
            forall|j: int| 0 <= j < lv.len() ==> lv[j].1 == (#[trigger] terms@[j])@,
            contents@.map_values(|v: Vec<char>| v@) == fixed,
            pairs == Seq::new(lv.len(), |k: int| (fixed[k], lv[k].1)),
            out@ == join_lines(pairs.take(k as int)),
        decreases contents@.len() - k,
    {
        proof {
            lemma_join_lines_take(pairs, k as int);
        }
        assert(fixed[k as int] == contents@[k as int]@);
        append(&mut out, &contents[k]);
        append(&mut out, &terms[k]);
        k += 1;
    }
    assert(pairs.take(k as int) =~= pairs);
    let fixed_text = string_of(&out, 0, out.len());
    assert(out@.subrange(0, out@.len() as int) =~= out@);
    (violations, fixed_text)
}

impl ListMarkerSpace {
    pub fn id(&self) -> (r: &'static str)
        ensures
            r@ == ID@,
    {
        ID
    }

    pub fn short_reason(&self) -> (r: &'static str)
        ensures
            r@ == SHORT_REASON@,
    {
        SHORT_REASON
    }

    pub fn rationale(&self) -> (r: &'static str)
        ensures
            r@ == RATIONALE@,
    {
        RATIONALE
    }

    pub fn detect(&self, doc: &Document) -> (vs: Vec<Violation>)
        ensures
            violations_view(vs@) == spec_detect(doc.source@, doc.outline@),
    {
        analyze(doc).0
    }

    pub fn fix(&self, doc: &Document) -> (r: Option<String>)
        ensures
            r matches Some(fixed) && fixed@ == spec_fix(doc.source@, doc.outline@),
    {
        Some(analyze(doc).1)
    }
}

proof fn lemma_nothing_changes(contents: Seq<Seq<char>>, targets: Seq<(usize, usize)>, n: int)
    requires
        0 <= n <= targets.len(),
        gap_violations(contents, targets, n).len() == 0,
    ensures
        canonicalized(contents, targets, n) == contents,
    decreases n,
{
    if n > 0 {
        let (l, c) = targets[n - 1];
        if 1 <= l <= contents.len() && 1 <= c && c - 1 <= contents[l - 1].len() && wide_gap(
            contents[l - 1],
            c - 1,
        ) {
            assert(gap_violations(contents, targets, n).len() == gap_violations(contents, targets, n - 1).len() + 1);
        } else {
            lemma_nothing_changes(contents, targets, n - 1);
            if 1 <= l <= contents.len() && 1 <= c && c - 1 <= contents[l - 1].len() {
                assert(contents.update(l - 1, contents[l - 1]) =~= contents);
            }
        }
    }
}

/// Lint already reports everything format would change: when no gap is
/// reported, the fix gives back the source exactly.
pub proof fn law_no_violation_means_no_change(source: Seq<char>, outline: Seq<Edge>)
    requires
        spec_detect(source, outline).len() == 0,
    ensures
        spec_fix(source, outline) == source,
{
    let lines = spec_split_lines(source);
    let contents = lines.map_values(|l: (Seq<char>, Seq<char>)| l.0);
    let targets = item_targets(contents, outline);
    lemma_nothing_changes(contents, targets, targets.len() as int);
    assert(Seq::new(lines.len(), |k: int| (contents[k], lines[k].1)) =~= lines);
    lemma_split_lines_rejoin(source);
}

} // verus!
