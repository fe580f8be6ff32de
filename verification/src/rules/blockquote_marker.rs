use vstd::prelude::*;
use crate::ast::{Edge, NodeKind, kind_from_name, kind_of};
use crate::chars::{advance, append, chars_of, string_of, sub_vec};
use crate::document::Document;
use crate::rules::list_marker_space::space_char_pred;
use crate::text::{join_lines, lemma_join_lines_take, lemma_split_lines_rejoin, lines_view, spec_split_lines, split_lines};
use crate::violation::{Span, Violation, lemma_violations_push, succ, violations_view};

verus! {

/// One space after each blockquote marker: a `>` at the start of a line,
/// followed by neither a space nor a tab, gets a space after it. Only as many
/// leading markers as the line has enclosing blockquotes are touched, and
/// what follows them is left as written.
pub struct BlockquoteMarker;

pub const ID: &'static str = "blockquote-marker";

pub const SHORT_REASON: &'static str = "Put one space after each blockquote marker.";

pub const RATIONALE: &'static str = "A single space after `>` keeps quotes readable in the source and consistent between authors. Only the marker spacing changes. Deeper indentation is content and is left as written.";

pub const MESSAGE: &'static str = "put a space after the blockquote marker";

/// The first and last lines of every blockquote of an outline.
pub open spec fn quote_ranges(edges: Seq<Edge>) -> Seq<(usize, usize)>
    decreases edges.len(),
{
    if edges.len() == 0 {
        Seq::empty()
    } else {
        let before = quote_ranges(edges.drop_last());
        match edges.last() {
            Edge::Open { name, start_line, start_column, end_line, .. } => {
                if kind_of(name@) == NodeKind::BlockQuote {
                    before.push((start_line, end_line))
                } else {
                    before
                }
            },
            Edge::Close => before,
        }
    }
}

/// How many of the first `n` ranges hold line `line`.
pub open spec fn depth(ranges: Seq<(usize, usize)>, n: int, line: int) -> nat
    decreases n,
{
    if n <= 0 {
        0
    } else {
        depth(ranges, n - 1, line) + if ranges[n - 1].0 <= line <= ranges[n - 1].1 {
            1nat
        } else {
            0nat
        }
    }
}

/// `c` from index `i` on, with a space put after each of up to `d` leading
/// markers that lacks one. A marker is a `>` after at most three spaces.
pub open spec fn spaced_markers(c: Seq<char>, i: int, d: nat) -> Seq<char>
    decreases d,
{
    let j = advance(c, i, space_char_pred());
    if d == 0 || !(0 <= i <= c.len()) || j - i > 3 || j >= c.len() || c[j] != '>' {
        c.subrange(i, c.len() as int)
    } else if j + 1 < c.len() && c[j + 1] != ' ' && c[j + 1] != '\t' {
        c.subrange(i, j + 1) + seq![' '] + spaced_markers(c, j + 1, (d - 1) as nat)
    } else if j + 1 < c.len() {
        c.subrange(i, j + 2) + spaced_markers(c, j + 2, (d - 1) as nat)
    } else {
        c.subrange(i, c.len() as int)
    }
}

/// Line `k` as fixed.
pub open spec fn fixed_content(
    lines: Seq<(Seq<char>, Seq<char>)>,
    ranges: Seq<(usize, usize)>,
    k: int,
) -> Seq<char> {
    spaced_markers(lines[k].0, 0, depth(ranges, ranges.len() as int, k + 1))
}

/// One violation for each of the first `n` lines the fix changes.
pub open spec fn marker_violations(
    lines: Seq<(Seq<char>, Seq<char>)>,
    ranges: Seq<(usize, usize)>,
    n: int,
) -> Seq<(Seq<char>, Seq<char>, Span)>
    decreases n,
{
    if n <= 0 {
        Seq::empty()
    } else {
        let before = marker_violations(lines, ranges, n - 1);
        if fixed_content(lines, ranges, n - 1) != lines[n - 1].0 {
            before.push((ID@, MESSAGE@, Span { line: succ((n - 1) as nat), column: 1, length: 1 }))
        } else {
            before
        }
    }
}

pub open spec fn spec_detect(source: Seq<char>, outline: Seq<Edge>) -> Seq<
    (Seq<char>, Seq<char>, Span),
> {
    let lines = spec_split_lines(source);
    marker_violations(lines, quote_ranges(outline), lines.len() as int)
}

pub open spec fn spec_fix(source: Seq<char>, outline: Seq<Edge>) -> Seq<char> {
    let lines = spec_split_lines(source);
    let ranges = quote_ranges(outline);
    join_lines(Seq::new(lines.len(), |k: int| (fixed_content(lines, ranges, k), lines[k].1)))
}

fn collect_quotes(outline: &Vec<Edge>) -> (ranges: Vec<(usize, usize)>)
    ensures
        ranges@ == quote_ranges(outline@),
{
    let mut ranges: Vec<(usize, usize)> = Vec::new();
    let mut i: usize = 0;
    while i < outline.len()
        invariant
            i <= outline@.len(),
            ranges@ == quote_ranges(outline@.take(i as int)),
        decreases outline@.len() - i,
    {
        let ghost prefix = outline@.take(i + 1);
        assert(prefix.drop_last() =~= outline@.take(i as int));
        assert(prefix.last() == outline@[i as int]);
        match outline[i] {
            Edge::Open { name, start_line, start_column, end_line, .. } => {
                if kind_from_name(name) == NodeKind::BlockQuote {
                    ranges.push((start_line, end_line));
                }
            },
            Edge::Close => {},
        }
        i += 1;
    }
    assert(outline@.take(i as int) =~= outline@);
    ranges
}

fn depth_of(ranges: &Vec<(usize, usize)>, line: usize) -> (d: usize)
    ensures
        d == depth(ranges@, ranges@.len() as int, line as int),
{
    let mut d: usize = 0;
    let mut k: usize = 0;
    while k < ranges.len()
        invariant
            k <= ranges@.len(),
            d == depth(ranges@, k as int, line as int),
            d <= k,
        decreases ranges@.len() - k,
    {
        if ranges[k].0 <= line && line <= ranges[k].1 {
            d += 1;
        }
        k += 1;
    }
    d
}

/// `c` from index `i` on, with a space put after each of up to `d` leading
/// markers that lacks one.
fn spaced_markers_of(c: &Vec<char>, i: usize, d: usize) -> (r: Vec<char>)
    requires
        i <= c@.len(),
    ensures
        r@ == spaced_markers(c@, i as int, d as nat),
    decreases d,
{
    let mut j = i;
    while j < c.len() && c[j] == ' '
        invariant
            i <= j <= c@.len(),
            advance(c@, j as int, space_char_pred()) == advance(c@, i as int, space_char_pred()),
        decreases c@.len() - j,
    {
        j += 1;
    }
    if d == 0 || j - i > 3 || j >= c.len() || c[j] != '>' {
        sub_vec(c, i, c.len())
    } else if j + 1 < c.len() && c[j + 1] != ' ' && c[j + 1] != '\t' {
        let mut out = sub_vec(c, i, j + 1);
        out.push(' ');
        let rest = spaced_markers_of(c, j + 1, d - 1);
        append(&mut out, &rest);
        out
    } else if j + 1 < c.len() {
        let mut out = sub_vec(c, i, j + 2);
        let rest = spaced_markers_of(c, j + 2, d - 1);
        append(&mut out, &rest);
        out
    } else {
        sub_vec(c, i, c.len())
    }
}

/// Whether two character vectors hold the same characters.
fn same(a: &Vec<char>, b: &Vec<char>) -> (r: bool)
    ensures
        r == (a@ == b@),
{
    if a.len() != b.len() {
        return false;
    }
    let mut k: usize = 0;
    while k < a.len()
        invariant
            k <= a@.len(),
            a@.len() == b@.len(),
            forall|j: int| 0 <= j < k ==> a@[j] == b@[j],
        decreases a@.len() - k,
    {
        if a[k] != b[k] {
            return false;
        }
        k += 1;
    }
    assert(a@ =~= b@);
    true
}

/// Detect and fix in one pass so the two halves can never disagree.
fn analyze(doc: &Document) -> (r: (Vec<Violation>, String))
    ensures
        violations_view(r.0@) == spec_detect(doc.source@, doc.outline@),
        r.1@ == spec_fix(doc.source@, doc.outline@),
{
    let source = doc.source.as_str();
    let lines = split_lines(source);
    let ghost lv = lines_view(lines@);
    let ranges = collect_quotes(&doc.outline);
    let ghost fixed = Seq::new(lv.len(), |k: int| (fixed_content(lv, ranges@, k), lv[k].1));
    let mut violations: Vec<Violation> = Vec::new();
    let mut out: Vec<char> = Vec::new();
    let mut i: usize = 0;
    while i < lines.len()
        invariant
            i <= lines@.len(),
            lv == lines_view(lines@),
            lv == spec_split_lines(source@),
            ranges@ == quote_ranges(doc.outline@),
            fixed == Seq::new(lv.len(), |k: int| (fixed_content(lv, ranges@, k), lv[k].1)),
            out@ == join_lines(fixed.take(i as int)),
            violations_view(violations@) == marker_violations(lv, ranges@, i as int),
        decreases lines@.len() - i,
    {
        let content = chars_of(lines[i].content);
        let terminator = chars_of(lines[i].terminator);
        assert(content@ == lv[i as int].0);
        proof {
            lemma_join_lines_take(fixed, i as int);
        }
        let d = depth_of(&ranges, i + 1);
        let line = spaced_markers_of(&content, 0, d);
        assert(line@ == fixed_content(lv, ranges@, i as int));
        if !same(&line, &content) {
            let v = Violation {
                rule_id: ID,
                message: MESSAGE.to_string(),
                span: Span { line: i + 1, column: 1, length: 1 },
            };
            proof {
                lemma_violations_push(violations@, v);
            }
            violations.push(v);
        }
        append(&mut out, &line);
        append(&mut out, &terminator);
        i += 1;
    }
    assert(fixed.take(i as int) =~= fixed);
    let fixed_text = string_of(&out, 0, out.len());
    assert(out@.subrange(0, out@.len() as int) =~= out@);
    (violations, fixed_text)
}

impl BlockquoteMarker {
    pub fn id(&self) -> (r: &'static str)
        ensures
            r@ == ID@,
    {
        ID
    }

    pub fn short_reason(&self) -> (r: &'static str)
        ensures
            r@ == SHORT_REASON@,
    {
        SHORT_REASON
    }

    pub fn rationale(&self) -> (r: &'static str)
        ensures
            r@ == RATIONALE@,
    {
        RATIONALE
    }

    pub fn detect(&self, doc: &Document) -> (vs: Vec<Violation>)
        ensures
            violations_view(vs@) == spec_detect(doc.source@, doc.outline@),
    {
        analyze(doc).0
    }

    pub fn fix(&self, doc: &Document) -> (r: Option<String>)
        ensures
            r matches Some(fixed) && fixed@ == spec_fix(doc.source@, doc.outline@),
    {
        Some(analyze(doc).1)
    }
}

proof fn lemma_nothing_changes(
    lines: Seq<(Seq<char>, Seq<char>)>,
    ranges: Seq<(usize, usize)>,
    n: int,
)
    requires
        0 <= n <= lines.len(),
        marker_violations(lines, ranges, n).len() == 0,
    ensures
        forall|k: int| 0 <= k < n ==> fixed_content(lines, ranges, k) == #[trigger] lines[k].0,
    decreases n,
{
    if n > 0 {
        if fixed_content(lines, ranges, n - 1) != lines[n - 1].0 {
            assert(marker_violations(lines, ranges, n).len() == marker_violations(lines, ranges, n - 1).len() + 1);
        } else {
            lemma_nothing_changes(lines, ranges, n - 1);
        }
    }
}

/// Lint already reports everything format would change: when no line is
/// reported, the fix gives back the source exactly.
pub proof fn law_no_violation_means_no_change(source: Seq<char>, outline: Seq<Edge>)
    requires
        spec_detect(source, outline).len() == 0,
    ensures
        spec_fix(source, outline) == source,
{
    let lines = spec_split_lines(source);
    let ranges = quote_ranges(outline);
    lemma_nothing_changes(lines, ranges, lines.len() as int);
    assert(Seq::new(lines.len(), |k: int| (fixed_content(lines, ranges, k), lines[k].1)) =~= lines);
    lemma_split_lines_rejoin(source);
}

} // verus!
