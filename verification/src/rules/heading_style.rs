use vstd::prelude::*;
use crate::ast::{Edge, NodeKind, kind_from_name, kind_of, open_kinds};
use crate::chars::{append, chars_of, string_of, trim, trim_range};
use crate::document::Document;
use crate::rules::masking::vecs_view;
use crate::rules::sentence_per_line::{
    assemble, copy_chars, find_replacement, join_group, joined_text, lemma_assemble_identity,
    original, reps_view,
};
use crate::text::{join_lines, lemma_split_lines_rejoin, lines_view, spec_split_lines, split_lines};
use crate::violation::{Span, Violation, lemma_violations_push, violations_view};

verus! {

/// Headings use the ATX form. A setext heading at the top level of the
/// document, its text over a line of `=` or `-`, becomes one line: `#` or
/// `##`, a space, and its text lines trimmed and joined by single spaces.
pub struct HeadingStyle;

pub const ID: &'static str = "heading-style";

pub const SHORT_REASON: &'static str = "Use ATX headings (# Heading), not setext underlines.";

pub const RATIONALE: &'static str = "ATX headings state their level explicitly on the same line and work for all six levels, while setext underlines only reach two and put the level on a separate line. One style throughout keeps headings consistent and easy to scan.";

pub const MESSAGE: &'static str = "use an ATX heading";

/// The top-level headings that span more than one line, as their first and
/// last lines, in document order; only those within the document's
/// `line_count` lines.
pub open spec fn heading_targets(edges: Seq<Edge>, line_count: nat) -> Seq<(usize, usize)>
    decreases edges.len(),
{
    if edges.len() == 0 {
        Seq::empty()
    } else {
        let before = heading_targets(edges.drop_last(), line_count);
        match edges.last() {
            Edge::Open { name, start_line, start_column, end_line, .. } => {
                if kind_of(name@) == NodeKind::Heading && open_kinds(edges.drop_last()).len() <= 1
                    && 1 <= start_line && start_line < end_line && end_line <= line_count {
                    before.push((start_line, end_line))
                } else {
                    before
                }
            },
            Edge::Close => before,
        }
    }
}

/// Whether `t` is one or more copies of `c`.
pub open spec fn all_of(t: Seq<char>, c: char) -> bool {
    t.len() > 0 && forall|k: int| 0 <= k < t.len() ==> t[k] == c
}

/// The level a setext underline gives: 1 for `=`, 2 for `-`, 0 for neither.
pub open spec fn underline_level(u: Seq<char>) -> nat {
    if all_of(trim(u), '=') {
        1
    } else if all_of(trim(u), '-') {
        2
    } else {
        0
    }
}

/// The ATX marker of a level: `#` or `##`.
pub open spec fn marker(level: nat) -> Seq<char> {
    if level == 1 {
        seq!['#']
    } else {
        seq!['#', '#']
    }
}

/// What becomes of one heading: whether it is rewritten, and the text that
/// stands for its lines. A rewritten heading is one line ending in the
/// underline's terminator.
pub open spec fn heading_outcome(lines: Seq<(Seq<char>, Seq<char>)>, t: (usize, usize)) -> (
    bool,
    Seq<char>,
) {
    let slice = lines.subrange(t.0 - 1, t.1 as int);
    let level = underline_level(slice.last().0);
    if level == 0 {
        (false, join_lines(slice))
    } else {
        let contents = slice.drop_last().map_values(|l: (Seq<char>, Seq<char>)| l.0);
        (true, marker(level) + seq![' '] + joined_text(contents) + slice.last().1)
    }
}

/// One violation, at its first line, for each of the first `n` targets that is
/// rewritten.
pub open spec fn heading_violations(
    lines: Seq<(Seq<char>, Seq<char>)>,
    targets: Seq<(usize, usize)>,
    n: int,
) -> Seq<(Seq<char>, Seq<char>, Span)>
    decreases n,
{
    if n <= 0 {
        Seq::empty()
    } else {
        let before = heading_violations(lines, targets, n - 1);
        if heading_outcome(lines, targets[n - 1]).0 {
            before.push((ID@, MESSAGE@, Span { line: targets[n - 1].0, column: 1, length: 1 }))
        } else {
            before
        }
    }
}

/// The violations of the rule and the fixed text, for a source and its outline.
pub open spec fn spec_rewrite(source: Seq<char>, outline: Seq<Edge>) -> (
    Seq<(Seq<char>, Seq<char>, Span)>,
    Seq<char>,
) {
    let lines = spec_split_lines(source);
    let targets = heading_targets(outline, lines.len());
    let reps = Seq::new(
        targets.len(),
        |k: int| (targets[k].0, targets[k].1, heading_outcome(lines, targets[k]).1),
    );
    (heading_violations(lines, targets, targets.len() as int), assemble(lines, reps, 1))
}

/// The top-level multi-line headings of an outline.
fn collect_headings(outline: &Vec<Edge>, line_count: usize) -> (targets: Vec<(usize, usize)>)
    ensures
        targets@ == heading_targets(outline@, line_count as nat),
        forall|k: int|
            0 <= k < targets@.len() ==> 1 <= (#[trigger] targets@[k]).0 < targets@[k].1
                <= line_count,
{
    let mut stack: Vec<NodeKind> = Vec::new();
    let mut targets: Vec<(usize, usize)> = Vec::new();
    let mut i: usize = 0;
    while i < outline.len()
        invariant
            i <= outline@.len(),
            stack@ == open_kinds(outline@.take(i as int)),
            targets@ == heading_targets(outline@.take(i as int), line_count as nat),
            forall|k: int|
                0 <= k < targets@.len() ==> 1 <= (#[trigger] targets@[k]).0 < targets@[k].1
                    <= line_count,
        decreases outline@.len() - i,
    {
        let ghost prefix = outline@.take(i + 1);
        assert(prefix.drop_last() =~= outline@.take(i as int));
        assert(prefix.last() == outline@[i as int]);
        match outline[i] {
            Edge::Open { name, start_line, start_column, end_line, .. } => {
                let kind = kind_from_name(name);
                if kind == NodeKind::Heading && stack.len() <= 1 && 1 <= start_line && start_line
                    < end_line && end_line <= line_count {
                    targets.push((start_line, end_line));
                }
                stack.push(kind);
            },
            Edge::Close => {
                if stack.len() > 0 {
                    stack.pop();
                }
            },
        }
        i += 1;
    }
    assert(outline@.take(i as int) =~= outline@);
    targets
}

/// Whether `v[from..to]` is one or more copies of `c`.
pub(crate) fn is_all_of(v: &Vec<char>, from: usize, to: usize, c: char) -> (b: bool)
    requires
        from <= to <= v@.len(),
    ensures
        b == all_of(v@.subrange(from as int, to as int), c),
{
    if from == to {
        return false;
    }
    let mut k = from;
    while k < to
        invariant
            from <= k <= to <= v@.len(),
            forall|j: int| from <= j < k ==> v@[j] == c,
        decreases to - k,
    {
        if v[k] != c {
            assert(v@.subrange(from as int, to as int)[k - from] != c);
            return false;
        }
        k += 1;
    }
    true
}

/// The level an underline gives.
fn level_of(u: &Vec<char>) -> (level: usize)
    ensures
        level == underline_level(u@),
{
    let (a, b) = trim_range(u, 0, u.len());
    assert(u@.subrange(0, u@.len() as int) =~= u@);
    if is_all_of(u, a, b, '=') {
        1
    } else if is_all_of(u, a, b, '-') {
        2
    } else {
        0
    }
}

/// Detect and fix in one pass so the two halves can never disagree.
fn rewrite(doc: &Document) -> (r: (Vec<Violation>, String))
    ensures
        violations_view(r.0@) == spec_rewrite(doc.source@, doc.outline@).0,
        r.1@ == spec_rewrite(doc.source@, doc.outline@).1,
{
    let source = doc.source.as_str();
    let lines = split_lines(source);
    let ghost lv = lines_view(lines@);
    let targets = collect_headings(&doc.outline, lines.len());
    let mut contents: Vec<Vec<char>> = Vec::new();
    let mut terms: Vec<Vec<char>> = Vec::new();
    let mut i: usize = 0;
    while i < lines.len()
        invariant
            i <= lines@.len(),
            lv == lines_view(lines@),
            contents@.len() == i,
            terms@.len() == i,
            forall|k: int| 0 <= k < i ==> lv[k] == (contents@[k]@, terms@[k]@),
        decreases lines@.len() - i,
    {
        contents.push(chars_of(lines[i].content));
        terms.push(chars_of(lines[i].terminator));
        i += 1;
    }
    let ghost all = Seq::new(contents@.len(), |k: int| (contents@[k]@, terms@[k]@));
    assert(all =~= lv);
    let ghost outcomes = targets@.map_values(|t: (usize, usize)| heading_outcome(lv, t));
    let mut reps: Vec<(usize, usize, Vec<char>)> = Vec::new();
    let mut violations: Vec<Violation> = Vec::new();
    let mut t: usize = 0;
    while t < targets.len()
        invariant
            t <= targets@.len(),
            lv == spec_split_lines(source@),
            all == lv,
            all == Seq::new(contents@.len(), |k: int| (contents@[k]@, terms@[k]@)),
            contents@.len() == lv.len(),
            terms@.len() == lv.len(),
            targets@ == heading_targets(doc.outline@, lv.len()),
            forall|k: int|
                0 <= k < targets@.len() ==> 1 <= (#[trigger] targets@[k]).0 < targets@[k].1
                    <= lv.len(),
            outcomes == targets@.map_values(|t: (usize, usize)| heading_outcome(lv, t)),
            reps@.len() == t,
            forall|k: int|
                0 <= k < t ==> (#[trigger] reps@[k]).0 == targets@[k].0 && reps@[k].1
                    == targets@[k].1 && reps@[k].2@ == outcomes[k].1,
            violations_view(violations@) == heading_violations(lv, targets@, t as int),
        decreases targets@.len() - t,
    {
        let (start, end) = targets[t];
        let ghost slice = lv.subrange(start - 1, end as int);
        assert(slice.last() == all[end - 1]);
        let level = level_of(&contents[end - 1]);
        if level == 0 {
            let kept = original(&contents, &terms, start, end);
            reps.push((start, end, kept));
        } else {
            let ghost texts = slice.drop_last().map_values(|l: (Seq<char>, Seq<char>)| l.0);
            let mut group: Vec<Vec<char>> = Vec::new();
            let mut k = start - 1;
            while k < end - 1
                invariant
                    start - 1 <= k <= end - 1,
                    end <= contents@.len(),
                    1 <= start < end,
                    all == Seq::new(contents@.len(), |k: int| (contents@[k]@, terms@[k]@)),
                    slice == all.subrange(start - 1, end as int),
                    texts == slice.drop_last().map_values(|l: (Seq<char>, Seq<char>)| l.0),
                    vecs_view(group@) == texts.take(k - (start - 1)),
                decreases end - 1 - k,
            {
                let c = copy_chars(&contents[k]);
                let ghost old_view = vecs_view(group@);
                group.push(c);
                assert(vecs_view(group@) =~= old_view.push(c@));
                assert(texts.take(k + 1 - (start - 1)) =~= texts.take(k - (start - 1)).push(
                    texts[k - (start - 1)],
                ));
                k += 1;
            }
            assert(texts.take(k - (start - 1)) =~= texts);
            let mut line: Vec<char> = Vec::new();
            line.push('#');
            if level == 2 {
                line.push('#');
            }
            line.push(' ');
            let text = join_group(&group);
            append(&mut line, &text);
            append(&mut line, &terms[end - 1]);
            assert(line@ =~= marker(level as nat) + seq![' '] + joined_text(texts) + slice.last().1);
            reps.push((start, end, line));
            let v = Violation {
                rule_id: ID,
                message: MESSAGE.to_string(),
                span: Span { line: start, column: 1, length: 1 },
            };
            proof {
                lemma_violations_push(violations@, v);
            }
            violations.push(v);
        }
        assert(outcomes[t as int] == heading_outcome(lv, targets@[t as int]));
        t += 1;
    }
    let ghost reps_spec = Seq::new(
        targets@.len(),
        |k: int| (targets@[k].0, targets@[k].1, outcomes[k].1),
    );
    assert(reps_view(reps@) =~= reps_spec);
    assert(reps_spec =~= Seq::new(
        targets@.len(),
        |k: int| (targets@[k].0, targets@[k].1, heading_outcome(lv, targets@[k]).1),
    ));
    let mut out: Vec<char> = Vec::new();
    let mut index: usize = 0;
    while index < lines.len()
        invariant
            index <= lv.len(),
            lv.len() == lines@.len(),
            all == lv,
            all == Seq::new(contents@.len(), |k: int| (contents@[k]@, terms@[k]@)),
            contents@.len() == lv.len(),
            terms@.len() == lv.len(),
            reps_view(reps@) == reps_spec,
            forall|k: int|
                0 <= k < reps@.len() ==> 1 <= (#[trigger] reps@[k]).0 <= reps@[k].1 <= lv.len(),
            out@ + assemble(lv, reps_spec, index + 1) == assemble(lv, reps_spec, 1),
        decreases lv.len() - index,
    {
        match find_replacement(&reps, index + 1) {
            Some(k) => {
                let end = reps[k].1;
                let ghost before = out@;
                append(&mut out, &reps[k].2);
                assert(out@ + assemble(lv, reps_spec, end + 1) =~= before + assemble(
                    lv,
                    reps_spec,
                    index + 1,
                ));
                index = end;
            },
            None => {
                let ghost before = out@;
                append(&mut out, &contents[index]);
                append(&mut out, &terms[index]);
                assert(out@ + assemble(lv, reps_spec, index + 2) =~= before + assemble(
                    lv,
                    reps_spec,
                    index + 1,
                ));
                index += 1;
            },
        }
    }
    assert(out@ =~= out@ + assemble(lv, reps_spec, index + 1));
    let fixed = string_of(&out, 0, out.len());
    assert(out@.subrange(0, out@.len() as int) =~= out@);
    (violations, fixed)
}

impl HeadingStyle {
    pub fn id(&self) -> (r: &'static str)
        ensures
            r@ == ID@,
    {
        ID
    }

    pub fn short_reason(&self) -> (r: &'static str)
        ensures
            r@ == SHORT_REASON@,
    {
        SHORT_REASON
    }

    pub fn rationale(&self) -> (r: &'static str)
        ensures
            r@ == RATIONALE@,
    {
        RATIONALE
    }

    pub fn detect(&self, doc: &Document) -> (vs: Vec<Violation>)
        ensures
            violations_view(vs@) == spec_rewrite(doc.source@, doc.outline@).0,
    {
        rewrite(doc).0
    }

    pub fn fix(&self, doc: &Document) -> (r: Option<String>)
        ensures
            r matches Some(fixed) && fixed@ == spec_rewrite(doc.source@, doc.outline@).1,
    {
        Some(rewrite(doc).1)
    }
}

proof fn lemma_targets_valid(edges: Seq<Edge>, line_count: nat)
    ensures
        forall|k: int|
            0 <= k < heading_targets(edges, line_count).len() ==> 1 <= (#[trigger] heading_targets(
                edges,
                line_count,
            )[k]).0 < heading_targets(edges, line_count)[k].1 <= line_count,
    decreases edges.len(),
{
    if edges.len() > 0 {
        let before = heading_targets(edges.drop_last(), line_count);
        lemma_targets_valid(edges.drop_last(), line_count);
        let all = heading_targets(edges, line_count);
        assert forall|k: int| 0 <= k < all.len() implies 1 <= (#[trigger] all[k]).0 < all[k].1
            <= line_count by {
            if k < before.len() {
                assert(all[k] == before[k]);
            }
        }
    }
}

proof fn lemma_nothing_rewritten(
    lines: Seq<(Seq<char>, Seq<char>)>,
    targets: Seq<(usize, usize)>,
    n: int,
)
    requires
        0 <= n <= targets.len(),
        heading_violations(lines, targets, n).len() == 0,
    ensures
        forall|k: int| 0 <= k < n ==> !heading_outcome(lines, #[trigger] targets[k]).0,
    decreases n,
{
    if n > 0 {
        if !heading_outcome(lines, targets[n - 1]).0 {
            lemma_nothing_rewritten(lines, targets, n - 1);
        }
    }
}

/// Lint already reports everything format would change: when no heading is
/// reported, the fix gives back the source exactly.
pub proof fn law_no_violation_means_no_change(source: Seq<char>, outline: Seq<Edge>)
    requires
        spec_rewrite(source, outline).0.len() == 0,
    ensures
        spec_rewrite(source, outline).1 == source,
{
    let lines = spec_split_lines(source);
    let targets = heading_targets(outline, lines.len());
    let reps = Seq::new(
        targets.len(),
        |k: int| (targets[k].0, targets[k].1, heading_outcome(lines, targets[k]).1),
    );
    lemma_nothing_rewritten(lines, targets, targets.len() as int);
    lemma_targets_valid(outline, lines.len());
    assert forall|k: int| 0 <= k < reps.len() implies 1 <= (#[trigger] reps[k]).0 <= reps[k].1
        <= lines.len() && reps[k].2 == join_lines(lines.subrange(reps[k].0 - 1, reps[k].1 as int)) by {
        assert(targets[k] == heading_targets(outline, lines.len())[k]);
        assert(!heading_outcome(lines, targets[k]).0);
    }
    lemma_assemble_identity(lines, reps, 1);
    assert(lines.subrange(0, lines.len() as int) =~= lines);
    lemma_split_lines_rejoin(source);
}

/// Every rewritten heading is reported at its first line, as an ATX heading
/// of the level its underline gives.
pub proof fn law_rewritten_headings_are_reported(
    lines: Seq<(Seq<char>, Seq<char>)>,
    targets: Seq<(usize, usize)>,
    n: int,
)
    requires
        0 <= n <= targets.len(),
    ensures
        heading_violations(lines, targets, n).len() <= n,
        forall|k: int|
            0 <= k < heading_violations(lines, targets, n).len() ==> {
                let v = #[trigger] heading_violations(lines, targets, n)[k];
                &&& v.0 == ID@
                &&& v.1 == MESSAGE@
                &&& v.2.column == 1
                &&& v.2.length == 1
                &&& exists|j: int|
                    0 <= j < n && targets[j].0 == v.2.line && heading_outcome(lines, #[trigger] targets[j]).0
            },
    decreases n,
{
    if n > 0 {
        law_rewritten_headings_are_reported(lines, targets, n - 1);
        let before = heading_violations(lines, targets, n - 1);
        let all = heading_violations(lines, targets, n);
        assert forall|k: int| 0 <= k < all.len() implies {
            let v = #[trigger] all[k];
            &&& v.0 == ID@
            &&& v.1 == MESSAGE@
            &&& v.2.column == 1
            &&& v.2.length == 1
            &&& exists|j: int|
                0 <= j < n && targets[j].0 == v.2.line && heading_outcome(lines, #[trigger] targets[j]).0
        } by {
            if k < before.len() {
                assert(all[k] == before[k]);
                let j = choose|j: int|
                    0 <= j < n - 1 && targets[j].0 == before[k].2.line && heading_outcome(
                        lines,
                        #[trigger] targets[j],
                    ).0;
                assert(0 <= j < n);
            } else {
                assert(heading_outcome(lines, targets[n - 1]).0);
            }
        }
    }
}

} // verus!
