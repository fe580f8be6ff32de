use vstd::prelude::*;
use crate::ast::{Edge, NodeKind, kind_from_name, kind_of};
use crate::chars::{append, chars_of, string_of};
use crate::document::Document;
use crate::rules::sentence_per_line::copy_chars;
use crate::text::{join_lines, lemma_join_lines_take, lemma_split_lines_rejoin, lines_view, spec_split_lines, split_lines};
use crate::violation::{Span, Violation, lemma_violations_push, violations_view};

verus! {

/// Unordered list items use `-`: an item marked with `*` or `+` gets `-` in
/// its place, and nothing else on the line changes.
pub struct ListMarker;

pub const ID: &'static str = "list-marker";

pub const SHORT_REASON: &'static str = "Use `-` for unordered list markers.";

pub const RATIONALE: &'static str = "One unordered list marker throughout keeps lists visually consistent. We use `-`: it is the most common choice and never reads as emphasis the way a leading `*` can.";

pub const MESSAGE: &'static str = "use - as the list marker";

/// The list items of an outline marked with `*` or `+`, as the line and column
/// of the marker, in document order.
pub open spec fn marker_targets(contents: Seq<Seq<char>>, edges: Seq<Edge>) -> Seq<(usize, usize)>
    decreases edges.len(),
{
    if edges.len() == 0 {
        Seq::empty()
    } else {
        let before = marker_targets(contents, edges.drop_last());
        match edges.last() {
            Edge::Open { name, start_line, start_column, end_line, .. } => {
                if kind_of(name@) == NodeKind::Item && 1 <= start_line && start_line
                    <= contents.len() && 1 <= start_column && start_column <= contents[start_line
                    - 1].len() && (contents[start_line - 1][start_column - 1] == '*' || contents[
                start_line - 1][start_column - 1] == '+') {
                    before.push((start_line, start_column))
                } else {
                    before
                }
            },
            Edge::Close => before,
        }
    }
}

/// The line contents with the first `n` targets' markers replaced by `-`.
pub open spec fn remarked(contents: Seq<Seq<char>>, targets: Seq<(usize, usize)>, n: int) -> Seq<
    Seq<char>,
>
    decreases n,
{
    if n <= 0 {
        contents
    } else {
        let before = remarked(contents, targets, n - 1);
        let (l, c) = targets[n - 1];
        if 1 <= l <= before.len() && 1 <= c <= before[l - 1].len() {
            before.update(l - 1, before[l - 1].update(c - 1, '-'))
        } else {
            before
        }
    }
}

/// One violation per target, at its marker.
pub open spec fn marker_violations(targets: Seq<(usize, usize)>) -> Seq<(Seq<char>, Seq<char>, Span)> {
    targets.map_values(|t: (usize, usize)| (ID@, MESSAGE@, Span { line: t.0, column: t.1, length: 1 }))
}

pub open spec fn spec_detect(source: Seq<char>, outline: Seq<Edge>) -> Seq<
    (Seq<char>, Seq<char>, Span),
> {
    let lines = spec_split_lines(source);
    marker_violations(marker_targets(lines.map_values(|l: (Seq<char>, Seq<char>)| l.0), outline))
}

pub open spec fn spec_fix(source: Seq<char>, outline: Seq<Edge>) -> Seq<char> {
    let lines = spec_split_lines(source);
    let contents = lines.map_values(|l: (Seq<char>, Seq<char>)| l.0);
    let targets = marker_targets(contents, outline);
    let fixed = remarked(contents, targets, targets.len() as int);
    join_lines(Seq::new(lines.len(), |k: int| (fixed[k], lines[k].1)))
}

proof fn lemma_remarked_len(contents: Seq<Seq<char>>, targets: Seq<(usize, usize)>, n: int)
    ensures
        remarked(contents, targets, n).len() == contents.len(),
    decreases n,
{
    if n > 0 {
        lemma_remarked_len(contents, targets, n - 1);
    }
}

/// The items of an outline marked with `*` or `+`.
fn collect_markers(contents: &Vec<Vec<char>>, outline: &Vec<Edge>) -> (ts: Vec<(usize, usize)>)
    ensures
        ts@ == marker_targets(contents@.map_values(|v: Vec<char>| v@), outline@),
{
    let ghost cs = contents@.map_values(|v: Vec<char>| v@);
    let mut ts: Vec<(usize, usize)> = Vec::new();
    let mut i: usize = 0;
    while i < outline.len()
        invariant
            i <= outline@.len(),
            cs == contents@.map_values(|v: Vec<char>| v@),
            ts@ == marker_targets(cs, outline@.take(i as int)),
        decreases outline@.len() - i,
    {
        let ghost prefix = outline@.take(i + 1);
        assert(prefix.drop_last() =~= outline@.take(i as int));
        assert(prefix.last() == outline@[i as int]);
        match outline[i] {
            Edge::Open { name, start_line, start_column, end_line, .. } => {
                if kind_from_name(name) == NodeKind::Item && 1 <= start_line && start_line
                    <= contents.len() && 1 <= start_column && start_column <= contents[start_line
                    - 1].len() {
                    assert(cs[start_line - 1] == contents@[start_line - 1]@);
                    let ch = contents[start_line - 1][start_column - 1];
                    if ch == '*' || ch == '+' {
                        ts.push((start_line, start_column));
                    }
                }
            },
            Edge::Close => {},
        }
        i += 1;
    }
    assert(outline@.take(i as int) =~= outline@);
    ts
}

/// Detect and fix in one pass so the two halves can never disagree.
fn analyze(doc: &Document) -> (r: (Vec<Violation>, String))
    ensures
        violations_view(r.0@) == spec_detect(doc.source@, doc.outline@),
        r.1@ == spec_fix(doc.source@, doc.outline@),
{
    let source = doc.source.as_str();
    let lines = split_lines(source);
    let ghost lv = lines_view(lines@);
    let mut contents: Vec<Vec<char>> = Vec::new();
    let mut terms: Vec<Vec<char>> = Vec::new();
    let mut i: usize = 0;
    while i < lines.len()
        invariant
            i <= lines@.len(),
            lv == lines_view(lines@),
            contents@.len() == i,
            terms@.len() == i,
            forall|k: int| 0 <= k < i ==> lv[k] == (contents@[k]@, terms@[k]@),
        decreases lines@.len() - i,
    {
        contents.push(chars_of(lines[i].content));
        terms.push(chars_of(lines[i].terminator));
        i += 1;
    }
    let ghost cs = lv.map_values(|l: (Seq<char>, Seq<char>)| l.0);
    assert(contents@.map_values(|v: Vec<char>| v@) =~= cs);
    let targets = collect_markers(&contents, &doc.outline);
    let mut violations: Vec<Violation> = Vec::new();
    let mut t: usize = 0;
    while t < targets.len()
        invariant
            t <= targets@.len(),
            targets@ == marker_targets(cs, doc.outline@),
            contents@.len() == lv.len(),
            contents@.map_values(|v: Vec<char>| v@) == remarked(cs, targets@, t as int),
            violations_view(violations@) == marker_violations(targets@.take(t as int)),
        decreases targets@.len() - t,
    {
        let (l, c) = targets[t];
        let ghost before = remarked(cs, targets@, t as int);
        proof {
            lemma_remarked_len(cs, targets@, t as int);
        }
        if 1 <= l && l <= contents.len() && 1 <= c && c <= contents[l - 1].len() {
            assert(before[l - 1] == contents@[l - 1]@);
            let mut row = copy_chars(&contents[l - 1]);
            row.set(c - 1, '-');
            contents.set(l - 1, row);
            assert(contents@.map_values(|v: Vec<char>| v@) =~= before.update(
                l - 1,
                before[l - 1].update(c - 1, '-'),
            ));
        }
        let v = Violation {
            rule_id: ID,
            message: MESSAGE.to_string(),
            span: Span { line: l, column: c, length: 1 },
        };
        proof {
            lemma_violations_push(violations@, v);
        }
        violations.push(v);
        assert(marker_violations(targets@.take(t + 1)) =~= marker_violations(
            targets@.take(t as int),
        ).push(v@));
        t += 1;
    }
    assert(targets@.take(t as int) =~= targets@);
    let ghost fixed = remarked(cs, targets@, targets@.len() as int);
    let ghost pairs = Seq::new(lv.len(), |k: int| (fixed[k], lv[k].1));
    let mut out: Vec<char> = Vec::new();
    let mut k: usize = 0;
    while k < contents.len()
        invariant
            k <= contents@.len(),
            contents@.len() == lv.len(),
            terms@.len() == lv.len(),
            forall|j: int| 0 <= j < lv.len() ==> lv[j].1 == (#[trigger] terms@[j])@,
            contents@.map_values(|v: Vec<char>| v@) == fixed,
            pairs == Seq::new(lv.len(), |k: int| (fixed[k], lv[k].1)),
            out@ == join_lines(pairs.take(k as int)),
        decreases contents@.len() - k,
    {
        proof {
            lemma_join_lines_take(pairs, k as int);
        }
        assert(fixed[k as int] == contents@[k as int]@);
        append(&mut out, &contents[k]);
        append(&mut out, &terms[k]);
        k += 1;
    }
    assert(pairs.take(k as int) =~= pairs);
    let fixed_text = string_of(&out, 0, out.len());
    assert(out@.subrange(0, out@.len() as int) =~= out@);
    (violations, fixed_text)
}

impl ListMarker {
    pub fn id(&self) -> (r: &'static str)
        ensures
            r@ == ID@,
    {
        ID
    }

    pub fn short_reason(&self) -> (r: &'static str)
        ensures
            r@ == SHORT_REASON@,
    {
        SHORT_REASON
    }

    pub fn rationale(&self) -> (r: &'static str)
        ensures
            r@ == RATIONALE@,
    {
        RATIONALE
    }

    pub fn detect(&self, doc: &Document) -> (vs: Vec<Violation>)
        ensures
            violations_view(vs@) == spec_detect(doc.source@, doc.outline@),
    {
        analyze(doc).0
    }

    pub fn fix(&self, doc: &Document) -> (r: Option<String>)
        ensures
            r matches Some(fixed) && fixed@ == spec_fix(doc.source@, doc.outline@),
    {
        Some(analyze(doc).1)
    }
}

/// Lint already reports everything format would change: when no marker is
/// reported, the fix gives back the source exactly.
pub proof fn law_no_violation_means_no_change(source: Seq<char>, outline: Seq<Edge>)
    requires
        spec_detect(source, outline).len() == 0,
    ensures
        spec_fix(source, outline) == source,
{
    let lines = spec_split_lines(source);
    let contents = lines.map_values(|l: (Seq<char>, Seq<char>)| l.0);
    let targets = marker_targets(contents, outline);
    assert(targets.len() == 0);
    assert(Seq::new(lines.len(), |k: int| (remarked(contents, targets, 0)[k], lines[k].1)) =~= lines);
    lemma_split_lines_rejoin(source);
}

/// Replacing markers moves nothing: every line keeps its length, and a
/// character that changes becomes `-`.
pub proof fn law_only_markers_change(contents: Seq<Seq<char>>, targets: Seq<(usize, usize)>, n: int)
    requires
        0 <= n <= targets.len(),
    ensures
        remarked(contents, targets, n).len() == contents.len(),
        forall|k: int|
            0 <= k < contents.len() ==> (#[trigger] remarked(contents, targets, n)[k]).len()
                == contents[k].len(),
        forall|k: int, j: int|
            0 <= k < contents.len() && 0 <= j < contents[k].len() && remarked(contents, targets, n)[k][j]
                != contents[k][j] ==> remarked(contents, targets, n)[k][j] == '-',
    decreases n,
{
    if n > 0 {
        law_only_markers_change(contents, targets, n - 1);
    }
}

} // verus!
