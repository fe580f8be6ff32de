use vstd::prelude::*;
use crate::ast::{Edge, NodeKind, kind_from_name, kind_of, open_kinds};
use crate::chars::{advance, append, chars_of, string_of, sub_vec};
use crate::document::Document;
use crate::rules::hard_tabs::spaces;
use crate::rules::list_marker_space::{marker_end, space_char_pred};
use crate::rules::ordered_list::open_indices;
use crate::text::{join_lines, lemma_join_lines_take, lemma_split_lines_rejoin, lines_view, spec_split_lines, split_lines};
use crate::violation::{Span, Violation, lemma_violations_push, violations_view};

verus! {

/// A nested list item starts under its parent's text: at the parent's
/// column plus the parent marker's width plus one. An item that starts
/// elsewhere is moved there with all of its lines, which keeps what is inside
/// it where it stands relative to it. Items inside blockquotes are not moved.
pub struct NestedIndent;

pub const ID: &'static str = "nested-indent";

pub const SHORT_REASON: &'static str = "Indent nested list items to their parent's content.";

pub const RATIONALE: &'static str = "Aligning a nested list under the first character of its parent's text keeps the outline readable and matches how the list renders. The indent is the parent's marker width plus one space: two under a bullet, three under `1.`, and so on.";

pub const MESSAGE: &'static str = "indent the nested item to its parent's text";

/// The column a child of the item whose marker starts at index `a` of `c`
/// should start at.
pub open spec fn child_column(c: Seq<char>, a: int) -> int {
    marker_end(c, a) + 2
}

/// The nested items to move, in document order: their first and last lines,
/// their column, whether they move right, and by how much.
pub open spec fn nested_targets(contents: Seq<Seq<char>>, edges: Seq<Edge>) -> Seq<
    (usize, usize, usize, bool, nat),
>
    decreases edges.len(),
{
    if edges.len() == 0 {
        Seq::empty()
    } else {
        let before = nested_targets(contents, edges.drop_last());
        let parents = open_indices(edges.drop_last());
        match edges.last() {
            Edge::Open { name, start_line, start_column, end_line, .. } => {
                if kind_of(name@) == NodeKind::Item && 1 <= start_line && start_line <= end_line
                    && end_line <= contents.len() && !open_kinds(edges.drop_last()).contains(
                    NodeKind::BlockQuote,
                ) && parents.len() >= 2 && parents[parents.len() - 2] < edges.len() - 1 {
                    match edges[parents[parents.len() - 2] as int] {
                        Edge::Open {
                            name: gname,
                            start_line: gl,
                            start_column: gc,
                            end_line: ge,
                            ..
                        } => {
                            if kind_of(gname@) == NodeKind::Item && 1 <= gl && gl <= contents.len()
                                && 1 <= gc && gc <= contents[gl - 1].len() && marker_end(
                                contents[gl - 1],
                                gc - 1,
                            ) > gc - 1 && child_column(contents[gl - 1], gc - 1) <= usize::MAX {
                                let want = child_column(contents[gl - 1], gc - 1);
                                if want > start_column {
                                    before.push(
                                        (
                                            start_line,
                                            end_line,
                                            start_column,
                                            true,
                                            (want - start_column) as nat,
                                        ),
                                    )
                                } else if want < start_column {
                                    before.push(
                                        (
                                            start_line,
                                            end_line,
                                            start_column,
                                            false,
                                            (start_column - want) as nat,
                                        ),
                                    )
                                } else {
                                    before
                                }
                            } else {
                                before
                            }
                        },
                        Edge::Close => before,
                    }
                } else {
                    before
                }
            },
            Edge::Close => before,
        }
    }
}

/// Line `c` moved right by `n` spaces, or left by `n` where it starts with
/// that many; a blank line, or one too little indented to move left, stays.
pub open spec fn reindented(c: Seq<char>, grow: bool, n: nat) -> Seq<char> {
    let lead = advance(c, 0, space_char_pred());
    if lead == c.len() {
        c
    } else if grow {
        spaces(n) + c
    } else if lead >= n {
        c.subrange(n as int, c.len() as int)
    } else {
        c
    }
}

/// `cs` with the lines `from..=to` (1-based) reindented.
pub open spec fn shift_lines(cs: Seq<Seq<char>>, from: int, to: int, grow: bool, n: nat) -> Seq<
    Seq<char>,
> {
    Seq::new(
        cs.len(),
        |i: int|
            if from - 1 <= i < to {
                reindented(cs[i], grow, n)
            } else {
                cs[i]
            },
    )
}

/// The line contents with the first `n` targets moved.
pub open spec fn shifted(contents: Seq<Seq<char>>, targets: Seq<(usize, usize, usize, bool, nat)>, n: int) -> Seq<
    Seq<char>,
>
    decreases n,
{
    if n <= 0 {
        contents
    } else {
        let t = targets[n - 1];
        shift_lines(shifted(contents, targets, n - 1), t.0 as int, t.1 as int, t.3, t.4)
    }
}

/// One violation per target, at its first line and column.
pub open spec fn nested_violations(targets: Seq<(usize, usize, usize, bool, nat)>) -> Seq<
    (Seq<char>, Seq<char>, Span),
> {
    targets.map_values(
        |t: (usize, usize, usize, bool, nat)| (ID@, MESSAGE@, Span { line: t.0, column: t.2, length: 1 }),
    )
}

pub open spec fn spec_detect(source: Seq<char>, outline: Seq<Edge>) -> Seq<
    (Seq<char>, Seq<char>, Span),
> {
    let contents = spec_split_lines(source).map_values(|l: (Seq<char>, Seq<char>)| l.0);
    nested_violations(nested_targets(contents, outline))
}

pub open spec fn spec_fix(source: Seq<char>, outline: Seq<Edge>) -> Seq<char> {
    let lines = spec_split_lines(source);
    let contents = lines.map_values(|l: (Seq<char>, Seq<char>)| l.0);
    let targets = nested_targets(contents, outline);
    let fixed = shifted(contents, targets, targets.len() as int);
    join_lines(Seq::new(lines.len(), |k: int| (fixed[k], lines[k].1)))
}

proof fn lemma_shifted_len(contents: Seq<Seq<char>>, targets: Seq<(usize, usize, usize, bool, nat)>, n: int)
    ensures
        shifted(contents, targets, n).len() == contents.len(),
    decreases n,
{
    if n > 0 {
        lemma_shifted_len(contents, targets, n - 1);
    }
}

/// Where the marker of the item whose marker starts at index `a` of `v` ends.
fn marker_end_of(v: &Vec<char>, a: usize) -> (m: usize)
    requires
        a <= v@.len(),
    ensures
        m == marker_end(v@, a as int),
{
    if a < v.len() && (v[a] == '-' || v[a] == '*' || v[a] == '+') {
        a + 1
    } else {
        let mut d = a;
        while d < v.len() && '0' <= v[d] && v[d] <= '9'
            invariant
                a <= d <= v@.len(),
                advance(v@, d as int, crate::rules::sentence_per_line::digit_pred()) == advance(
                    v@,
                    a as int,
                    crate::rules::sentence_per_line::digit_pred(),
                ),
            decreases v@.len() - d,
        {
            d += 1;
        }
        if a < d && d < v.len() && (v[d] == '.' || v[d] == ')') {
            d + 1
        } else {
            a
        }
    }
}

/// The nested items to move, as `nested_targets` gives them.
fn collect_nested(contents: &Vec<Vec<char>>, outline: &Vec<Edge>) -> (ts: Vec<
    (usize, usize, usize, bool, usize),
>)
    ensures
        ts@.map_values(|t: (usize, usize, usize, bool, usize)| (t.0, t.1, t.2, t.3, t.4 as nat))
            == nested_targets(contents@.map_values(|v: Vec<char>| v@), outline@),
{
    let ghost cs = contents@.map_values(|v: Vec<char>| v@);
    let mut kinds: Vec<NodeKind> = Vec::new();
    let mut stack: Vec<usize> = Vec::new();
    let mut ts: Vec<(usize, usize, usize, bool, usize)> = Vec::new();
    let mut i: usize = 0;
    while i < outline.len()
        invariant
            i <= outline@.len(),
            cs == contents@.map_values(|v: Vec<char>| v@),
            kinds@ == open_kinds(outline@.take(i as int)),
            stack@ == open_indices(outline@.take(i as int)),
            forall|k: int| 0 <= k < stack@.len() ==> #[trigger] stack@[k] < i,
            ts@.map_values(|t: (usize, usize, usize, bool, usize)| (t.0, t.1, t.2, t.3, t.4 as nat))
                == nested_targets(cs, outline@.take(i as int)),
        decreases outline@.len() - i,
    {
        let ghost prefix = outline@.take(i + 1);
        assert(prefix.drop_last() =~= outline@.take(i as int));
        assert(prefix.last() == outline@[i as int]);
        assert(prefix.len() - 1 == i);
        let ghost old_ts = ts@.map_values(
            |t: (usize, usize, usize, bool, usize)| (t.0, t.1, t.2, t.3, t.4 as nat),
        );
        match outline[i] {
            Edge::Open { name, start_line, start_column, end_line, .. } => {
                let kind = kind_from_name(name);
                let mut quoted = false;
                let mut k: usize = 0;
                while k < kinds.len()
                    invariant
                        k <= kinds@.len(),
                        quoted == kinds@.take(k as int).contains(NodeKind::BlockQuote),
                    decreases kinds@.len() - k,
                {
                    let ghost p = kinds@.take(k + 1);
                    assert(p.drop_last() =~= kinds@.take(k as int));
                    if kinds[k] == NodeKind::BlockQuote {
                        assert(p[k as int] == NodeKind::BlockQuote);
                        quoted = true;
                    } else {
                        assert(p.contains(NodeKind::BlockQuote) ==> kinds@.take(k as int).contains(
                            NodeKind::BlockQuote,
                        )) by {
                            if p.contains(NodeKind::BlockQuote) {
                                let m = choose|m: int|
                                    0 <= m < p.len() && p[m] == NodeKind::BlockQuote;
                                assert(kinds@.take(k as int)[m] == NodeKind::BlockQuote);
                            }
                        }
                    }
                    k += 1;
                }
                assert(kinds@.take(k as int) =~= kinds@);
                if kind == NodeKind::Item && 1 <= start_line && start_line <= end_line && end_line
                    <= contents.len() && !quoted && stack.len() >= 2 {
                    let g = stack[stack.len() - 2];
                    assert(prefix[g as int] == outline@[g as int]);
                    match outline[g] {
                        Edge::Open {
                            name: gname,
                            start_line: gl,
                            start_column: gc,
                            end_line: ge,
                            ..
                        } => {
                            if kind_from_name(gname) == NodeKind::Item && 1 <= gl && gl
                                <= contents.len() && 1 <= gc && gc <= contents[gl - 1].len() {
                                assert(cs[gl - 1] == contents@[gl - 1]@);
                                let m = marker_end_of(&contents[gl - 1], gc - 1);
                                if m > gc - 1 && m <= usize::MAX - 2 {
                                    let want = m + 2;
                                    if want > start_column {
                                        ts.push(
                                            (start_line, end_line, start_column, true, want
                                                - start_column),
                                        );
                                    } else if want < start_column {
                                        ts.push(
                                            (start_line, end_line, start_column, false, start_column
                                                - want),
                                        );
                                    }
                                }
                            }
                        },
                        Edge::Close => {},
                    }
                }
                kinds.push(kind);
                stack.push(i);
            },
            Edge::Close => {
                if stack.len() > 0 {
                    stack.pop();
                }
                if kinds.len() > 0 {
                    kinds.pop();
                }
            },
        }
        assert(ts@.map_values(
            |t: (usize, usize, usize, bool, usize)| (t.0, t.1, t.2, t.3, t.4 as nat),
        ) =~= nested_targets(cs, prefix));
        i += 1;
    }
    assert(outline@.take(i as int) =~= outline@);
    ts
}

/// `v` moved right or left by `n`, as `reindented` says.
fn reindent_of(v: &Vec<char>, grow: bool, n: usize) -> (r: Vec<char>)
    ensures
        r@ == reindented(v@, grow, n as nat),
{
    let mut lead: usize = 0;
    while lead < v.len() && v[lead] == ' '
        invariant
            lead <= v@.len(),
            advance(v@, lead as int, space_char_pred()) == advance(v@, 0, space_char_pred()),
        decreases v@.len() - lead,
    {
        lead += 1;
    }
    if lead == v.len() {
        sub_vec(v, 0, v.len())
    } else if grow {
        let mut out: Vec<char> = Vec::new();
        let mut k: usize = 0;
        while k < n
            invariant
                k <= n,
                out@ == spaces(k as nat),
            decreases n - k,
        {
            out.push(' ');
            k += 1;
            assert(out@ =~= spaces(k as nat));
        }
        append(&mut out, v);
        out
    } else if lead >= n {
        sub_vec(v, n, v.len())
    } else {
        let r = sub_vec(v, 0, v.len());
        assert(r@ =~= v@);
        r
    }
}

/// Detect and fix in one pass so the two halves can never disagree.
fn analyze(doc: &Document) -> (r: (Vec<Violation>, String))
    ensures
        violations_view(r.0@) == spec_detect(doc.source@, doc.outline@),
        r.1@ == spec_fix(doc.source@, doc.outline@),
{
    let source = doc.source.as_str();
    let lines = split_lines(source);
    let ghost lv = lines_view(lines@);
    let mut contents: Vec<Vec<char>> = Vec::new();
    let mut terms: Vec<Vec<char>> = Vec::new();
    let mut i: usize = 0;
    while i < lines.len()
        invariant
            i <= lines@.len(),
            lv == lines_view(lines@),
            contents@.len() == i,
            terms@.len() == i,
            forall|k: int| 0 <= k < i ==> lv[k] == (contents@[k]@, terms@[k]@),
        decreases lines@.len() - i,
    {
        contents.push(chars_of(lines[i].content));
        terms.push(chars_of(lines[i].terminator));
        i += 1;
    }
    let ghost cs = lv.map_values(|l: (Seq<char>, Seq<char>)| l.0);
    assert(contents@.map_values(|v: Vec<char>| v@) =~= cs);
    let targets = collect_nested(&contents, &doc.outline);
    let ghost tv = targets@.map_values(
        |t: (usize, usize, usize, bool, usize)| (t.0, t.1, t.2, t.3, t.4 as nat),
    );
    let mut violations: Vec<Violation> = Vec::new();
    let mut t: usize = 0;
    while t < targets.len()
        invariant
            t <= targets@.len(),
            tv == targets@.map_values(
                |t: (usize, usize, usize, bool, usize)| (t.0, t.1, t.2, t.3, t.4 as nat),
            ),
            tv == nested_targets(cs, doc.outline@),
            contents@.len() == cs.len(),
            contents@.map_values(|v: Vec<char>| v@) == shifted(cs, tv, t as int),
            violations_view(violations@) == nested_violations(tv.take(t as int)),
        decreases targets@.len() - t,
    {
        let (from, to, col, grow, n) = targets[t];
        let ghost before = shifted(cs, tv, t as int);
        proof {
            lemma_shifted_len(cs, tv, t as int);
        }
        let stop = if to < contents.len() {
            to
        } else {
            contents.len()
        };
        let mut idx: usize = if from == 0 {
            0
        } else if from - 1 < stop {
            from - 1
        } else {
            stop
        };
        assert(contents@.map_values(|v: Vec<char>| v@) =~= Seq::new(
            before.len(),
            |i: int|
                if from - 1 <= i < idx {
                    reindented(before[i], grow, n as nat)
                } else {
                    before[i]
                },
        ));
        while idx < stop
            invariant
                idx <= stop,
                from - 1 <= idx || idx == stop,
                stop <= contents@.len(),
                stop == to || stop == contents@.len(),
                stop <= to,
                contents@.len() == cs.len(),
                before.len() == cs.len(),
                contents@.map_values(|v: Vec<char>| v@) == Seq::new(
                    before.len(),
                    |i: int|
                        if from - 1 <= i < idx {
                            reindented(before[i], grow, n as nat)
                        } else {
                            before[i]
                        },
                ),
            decreases stop - idx,
        {
            let ghost old_view = contents@.map_values(|v: Vec<char>| v@);
            assert(old_view[idx as int] == contents@[idx as int]@);
            assert(old_view[idx as int] == before[idx as int]);
            let ghost old_contents = contents@;
            let row = reindent_of(&contents[idx], grow, n);
            contents.set(idx, row);
            let ghost target = Seq::new(
                before.len(),
                |i: int|
                    if from - 1 <= i < idx + 1 {
                        reindented(before[i], grow, n as nat)
                    } else {
                        before[i]
                    },
            );
            assert forall|i: int| 0 <= i < before.len() implies contents@.map_values(
                |v: Vec<char>| v@,
            )[i] == target[i] by {
                if i != idx {
                    assert(contents@[i] == old_contents[i]);
                    assert(old_view[i] == old_contents[i]@);
                }
            }
            assert(contents@.map_values(|v: Vec<char>| v@) =~= target);
            idx += 1;
        }
        assert(contents@.map_values(|v: Vec<char>| v@) =~= shift_lines(
            before,
            from as int,
            to as int,
            grow,
            n as nat,
        ));
        let v = Violation {
            rule_id: ID,
            message: MESSAGE.to_string(),
            span: Span { line: from, column: col, length: 1 },
        };
        proof {
            lemma_violations_push(violations@, v);
        }
        violations.push(v);
        assert(nested_violations(tv.take(t + 1)) =~= nested_violations(tv.take(t as int)).push(v@));
        t += 1;
    }
    assert(tv.take(t as int) =~= tv);
    let ghost fixed = shifted(cs, tv, tv.len() as int);
    let ghost pairs = Seq::new(lv.len(), |k: int| (fixed[k], lv[k].1));
    let mut out: Vec<char> = Vec::new();
    let mut k: usize = 0;
    while k < contents.len()
        invariant
            k <= contents@.len(),
            contents@.len() == lv.len(),
            terms@.len() == lv.len(),
            forall|j: int| 0 <= j < lv.len() ==> lv[j].1 == (#[trigger] terms@[j])@,
            contents@.map_values(|v: Vec<char>| v@) == fixed,
            pairs == Seq::new(lv.len(), |k: int| (fixed[k], lv[k].1)),
            out@ == join_lines(pairs.take(k as int)),
        decreases contents@.len() - k,
    {
        proof {
            lemma_join_lines_take(pairs, k as int);
        }
        assert(fixed[k as int] == contents@[k as int]@);
        append(&mut out, &contents[k]);
        append(&mut out, &terms[k]);
        k += 1;
    }
    assert(pairs.take(k as int) =~= pairs);
    let fixed_text = string_of(&out, 0, out.len());
    assert(out@.subrange(0, out@.len() as int) =~= out@);
    (violations, fixed_text)
}

impl NestedIndent {
    pub fn id(&self) -> (r: &'static str)
        ensures
            r@ == ID@,
    {
        ID
    }

    pub fn short_reason(&self) -> (r: &'static str)
        ensures
            r@ == SHORT_REASON@,
    {
        SHORT_REASON
    }

    pub fn rationale(&self) -> (r: &'static str)
        ensures
            r@ == RATIONALE@,
    {
        RATIONALE
    }

    pub fn detect(&self, doc: &Document) -> (vs: Vec<Violation>)
        ensures
            violations_view(vs@) == spec_detect(doc.source@, doc.outline@),
    {
        analyze(doc).0
    }

    pub fn fix(&self, doc: &Document) -> (r: Option<String>)
        ensures
            r matches Some(fixed) && fixed@ == spec_fix(doc.source@, doc.outline@),
    {
        Some(analyze(doc).1)
    }
}

/// Lint already reports everything format would change: when no item is
/// reported, the fix gives back the source exactly.
pub proof fn law_no_violation_means_no_change(source: Seq<char>, outline: Seq<Edge>)
    requires
        spec_detect(source, outline).len() == 0,
    ensures
        spec_fix(source, outline) == source,
{
    let lines = spec_split_lines(source);
    let contents = lines.map_values(|l: (Seq<char>, Seq<char>)| l.0);
    let targets = nested_targets(contents, outline);
    assert(targets.len() == 0);
    assert(Seq::new(lines.len(), |k: int| (shifted(contents, targets, 0)[k], lines[k].1)) =~= lines);
    lemma_split_lines_rejoin(source);
}

} // verus!
