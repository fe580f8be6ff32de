use vstd::prelude::*;
use crate::ast::{Edge, NodeKind, kind_from_name, kind_of, open_kinds};
use crate::chars::{
    append,chars_of, is_blank, string_of, trim};
use crate::document::Document;
use crate::rules::sentence_per_line::repeat;
use crate::text::{
    crlf, dominant_newline, ends_in_cr, join_lines, lemma_join_lines_concat, lemma_join_lines_push,
    lemma_join_lines_take, lemma_split_join, lemma_split_lines_rejoin,
    lemma_split_lines_terminators, lemma_split_lines_well_formed, lf, lines_view,
    spec_dominant_newline, spec_split_lines, split_lines, well_formed_lines,
};
use crate::violation::{Span, Violation, lemma_violations_push, violations_view};

verus! {

/// Blank lines between top-level blocks are normalised: two before a heading
/// that follows text, one before a heading that follows another heading, one
/// after any heading, one between other blocks, and none at the top of the file.
///
/// Only all-blank gaps of the wrong size are touched, and each one is reported,
/// so lint and format agree. A gap holding something with no block of its own
/// (a link reference definition, say) is left exactly as written, so nothing is
/// ever lost; so is a blank gap that already has the right size. Blank lines inside a block, such as within a code block, are
/// left alone too.
pub struct BlockSpacing;

pub const ID: &'static str = "block-spacing";

pub const SHORT_REASON: &'static str = "Blank lines around blocks and headings are kept consistent.";

pub const RATIONALE: &'static str = "Consistent spacing makes structure scannable: at most one blank line between blocks, two before a heading that follows text so sections stand out, one before a heading that directly follows another and one after any heading, and no blank lines at the very top of the file.";

pub const REMOVE_LEADING: &'static str = "remove the blank lines before the first line";

pub const ONE_BEFORE_HEADING: &'static str = "use one blank line before this heading";

pub const TWO_BEFORE_HEADING: &'static str = "use two blank lines before this heading";

pub const ONE_AFTER_HEADING: &'static str = "use one blank line after a heading";

pub const ONE_BETWEEN: &'static str = "use one blank line between blocks";

/// A top-level block: its kind and its first and last line.
pub type Block = (NodeKind, usize, usize);

/// The top-level blocks of a document with `line_count` lines: the nodes
/// opened directly under the root, in order, that lie within the document.
pub open spec fn top_blocks(edges: Seq<Edge>, line_count: nat) -> Seq<Block>
    decreases edges.len(),
{
    if edges.len() == 0 {
        Seq::empty()
    } else {
        let before = top_blocks(edges.drop_last(), line_count);
        match edges.last() {
            Edge::Open { name, start_line, end_line, .. } => {
                if open_kinds(edges.drop_last()).len() == 1 && 1 <= start_line && start_line
                    <= end_line && end_line <= line_count {
                    before.push((kind_of(name@), start_line, end_line))
                } else {
                    before
                }
            },
            Edge::Close => before,
        }
    }
}

/// Whether every line with 0-based index in `from..to` is blank.
pub open spec fn blank_range(lines: Seq<(Seq<char>, Seq<char>)>, from: int, to: int) -> bool {
    forall|i: int| from <= i < to && 0 <= i < lines.len() ==> trim(#[trigger] lines[i].0).len() == 0
}

/// The lines with 0-based index in `from..to`, as written.
pub open spec fn emit_range(lines: Seq<(Seq<char>, Seq<char>)>, from: int, to: int) -> Seq<char> {
    let end = if to < lines.len() {
        to
    } else {
        lines.len() as int
    };
    if from < 0 || from >= end {
        Seq::empty()
    } else {
        join_lines(lines.subrange(from, end))
    }
}

pub open spec fn desired_gap(before: NodeKind, after: NodeKind) -> nat {
    if after == NodeKind::Heading {
        if before == NodeKind::Heading || before == NodeKind::FrontMatter {
            1
        } else {
            2
        }
    } else {
        1
    }
}

pub open spec fn spec_gap_message(before: NodeKind, after: NodeKind) -> Seq<char> {
    if after == NodeKind::Heading {
        if before == NodeKind::Heading || before == NodeKind::FrontMatter {
            ONE_BEFORE_HEADING@
        } else {
            TWO_BEFORE_HEADING@
        }
    } else if before == NodeKind::Heading {
        ONE_AFTER_HEADING@
    } else {
        ONE_BETWEEN@
    }
}

/// How many lines lie between two blocks.
pub open spec fn gap_size(before: Block, after: Block) -> int {
    let from = before.2 as int;
    let to = after.1 - 1;
    if to > from {
        to - from
    } else {
        0
    }
}

/// Whether the gap between two blocks is copied as written: it holds
/// something other than blank lines, or it already has the desired size.
pub open spec fn gap_kept(lines: Seq<(Seq<char>, Seq<char>)>, before: Block, after: Block) -> bool {
    !blank_range(lines, before.2 as int, after.1 - 1) || gap_size(before, after) == desired_gap(
        before.0,
        after.0,
    )
}

/// The gap between two blocks: copied as written when it holds more than
/// blank lines or already has the desired size; otherwise the desired number
/// of newlines, with a violation on the later block.
pub open spec fn gap_outcome(
    lines: Seq<(Seq<char>, Seq<char>)>,
    newline: Seq<char>,
    before: Block,
    after: Block,
) -> (Seq<(Seq<char>, Seq<char>, Span)>, Seq<char>) {
    let from = before.2 as int;
    let to = after.1 - 1;
    if gap_kept(lines, before, after) {
        (Seq::empty(), emit_range(lines, from, to))
    } else {
        (
            seq![
                (
                    ID@,
                    spec_gap_message(before.0, after.0),
                    Span { line: after.1, column: 1, length: 1 },
                ),
            ],
            repeat(newline, desired_gap(before.0, after.0)),
        )
    }
}

/// The blank gap before a heading: one blank line where it follows another
/// heading or the front matter, two where it follows any other block. A gap of
/// that size is kept and reports nothing; any other blank gap is reported on
/// the heading, with the message naming the wanted count, and replaced by that
/// many empty lines.
pub proof fn law_blank_lines_before_a_heading(
    lines: Seq<(Seq<char>, Seq<char>)>,
    newline: Seq<char>,
    before: Block,
    after: Block,
)
    requires
        after.0 == NodeKind::Heading,
        blank_range(lines, before.2 as int, after.1 - 1),
    ensures
        ({
            let want: int = if before.0 == NodeKind::Heading || before.0 == NodeKind::FrontMatter {
                1
            } else {
                2
            };
            let out = gap_outcome(lines, newline, before, after);
            &&& gap_size(before, after) == want ==> out == (
                Seq::<(Seq<char>, Seq<char>, Span)>::empty(),
                emit_range(lines, before.2 as int, after.1 - 1),
            )
            &&& gap_size(before, after) != want ==> out == (
                seq![
                    (
                        ID@,
                        if want == 1 {
                            ONE_BEFORE_HEADING@
                        } else {
                            TWO_BEFORE_HEADING@
                        },
                        Span { line: after.1, column: 1, length: 1 },
                    ),
                ],
                repeat(newline, want as nat),
            )
        }),
{
}

/// The blank gap before anything but a heading is one blank line: a gap of one
/// line is kept and reports nothing; any other blank gap is reported, after a
/// heading as missing the one line after it and elsewhere as missing the one
/// line between blocks, and replaced by one empty line.
pub proof fn law_blank_line_between_blocks(
    lines: Seq<(Seq<char>, Seq<char>)>,
    newline: Seq<char>,
    before: Block,
    after: Block,
)
    requires
        after.0 != NodeKind::Heading,
        blank_range(lines, before.2 as int, after.1 - 1),
    ensures
        ({
            let out = gap_outcome(lines, newline, before, after);
            &&& gap_size(before, after) == 1 ==> out == (
                Seq::<(Seq<char>, Seq<char>, Span)>::empty(),
                emit_range(lines, before.2 as int, after.1 - 1),
            )
            &&& gap_size(before, after) != 1 ==> out == (
                seq![
                    (
                        ID@,
                        if before.0 == NodeKind::Heading {
                            ONE_AFTER_HEADING@
                        } else {
                            ONE_BETWEEN@
                        },
                        Span { line: after.1, column: 1, length: 1 },
                    ),
                ],
                repeat(newline, 1),
            )
        }),
{
}

/// The violations and output for the first `k` blocks and the gaps between them.
pub open spec fn blocks_outcome(
    lines: Seq<(Seq<char>, Seq<char>)>,
    newline: Seq<char>,
    blocks: Seq<Block>,
    k: int,
) -> (Seq<(Seq<char>, Seq<char>, Span)>, Seq<char>)
    decreases k,
{
    if k <= 0 {
        (Seq::empty(), Seq::empty())
    } else if k == 1 {
        (Seq::empty(), emit_range(lines, blocks[0].1 - 1, blocks[0].2 as int))
    } else {
        let prev = blocks_outcome(lines, newline, blocks, k - 1);
        let gap = gap_outcome(lines, newline, blocks[k - 2], blocks[k - 1]);
        (
            prev.0 + gap.0,
            prev.1 + gap.1 + emit_range(lines, blocks[k - 1].1 - 1, blocks[k - 1].2 as int),
        )
    }
}

/// The violations and fixed text for a source and its outline.
pub open spec fn spec_rewrite(source: Seq<char>, outline: Seq<Edge>) -> (
    Seq<(Seq<char>, Seq<char>, Span)>,
    Seq<char>,
) {
    let lines = spec_split_lines(source);
    let blocks = top_blocks(outline, lines.len());
    if blocks.len() == 0 {
        (Seq::empty(), source)
    } else {
        let newline = spec_dominant_newline(source);
        let lead_end = blocks[0].1 - 1;
        let lead: (Seq<(Seq<char>, Seq<char>, Span)>, Seq<char>) = if lead_end >= 1 {
            if blank_range(lines, 0, lead_end) {
                (
                    seq![(ID@, REMOVE_LEADING@, Span { line: 1, column: 1, length: 1 })],
                    Seq::empty(),
                )
            } else {
                (Seq::empty(), emit_range(lines, 0, lead_end))
            }
        } else {
            (Seq::empty(), Seq::empty())
        };
        let body = blocks_outcome(lines, newline, blocks, blocks.len() as int);
        let tail = emit_range(lines, blocks.last().2 as int, lines.len() as int);
        (lead.0 + body.0, lead.1 + body.1 + tail)
    }
}

fn top_level_blocks(outline: &Vec<Edge>, line_count: usize) -> (blocks: Vec<Block>)
    ensures
        blocks@ == top_blocks(outline@, line_count as nat),
        forall|k: int|
            0 <= k < blocks@.len() ==> 1 <= (#[trigger] blocks@[k]).1 <= blocks@[k].2
                <= line_count,
{
    let mut depth: usize = 0;
    let mut blocks: Vec<Block> = Vec::new();
    let mut i: usize = 0;
    while i < outline.len()
        invariant
            i <= outline@.len(),
            depth == open_kinds(outline@.take(i as int)).len(),
            depth <= i,
            blocks@ == top_blocks(outline@.take(i as int), line_count as nat),
            forall|k: int|
                0 <= k < blocks@.len() ==> 1 <= (#[trigger] blocks@[k]).1 <= blocks@[k].2
                    <= line_count,
        decreases outline@.len() - i,
    {
        let ghost prefix = outline@.take(i + 1);
        assert(prefix.drop_last() =~= outline@.take(i as int));
        assert(prefix.last() == outline@[i as int]);
        match outline[i] {
            Edge::Open { name, start_line, end_line, .. } => {
                if depth == 1 && 1 <= start_line && start_line <= end_line && end_line
                    <= line_count {
                    blocks.push((kind_from_name(name), start_line, end_line));
                }
                depth += 1;
            },
            Edge::Close => {
                if depth > 0 {
                    depth -= 1;
                }
            },
        }
        i += 1;
    }
    assert(outline@.take(i as int) =~= outline@);
    blocks
}

/// The line views of split source, as character vectors.
struct SourceLines {
    contents: Vec<Vec<char>>,
    terms: Vec<Vec<char>>,
}

impl SourceLines {
    spec fn view_lines(&self) -> Seq<(Seq<char>, Seq<char>)> {
        Seq::new(self.contents@.len(), |k: int| (self.contents@[k]@, self.terms@[k]@))
    }

    spec fn wf(&self) -> bool {
        self.contents@.len() == self.terms@.len()
    }
}

fn source_lines(source: &str) -> (r: SourceLines)
    ensures
        r.wf(),
        r.view_lines() == spec_split_lines(source@),
{
    let lines = split_lines(source);
    let ghost lv = lines_view(lines@);
    let mut contents: Vec<Vec<char>> = Vec::new();
    let mut terms: Vec<Vec<char>> = Vec::new();
    let mut i: usize = 0;
    while i < lines.len()
        invariant
            i <= lines@.len(),
            lv == lines_view(lines@),
            contents@.len() == i,
            terms@.len() == i,
            forall|k: int| 0 <= k < i ==> lv[k] == (contents@[k]@, terms@[k]@),
        decreases lines@.len() - i,
    {
        contents.push(chars_of(lines[i].content));
        terms.push(chars_of(lines[i].terminator));
        i += 1;
    }
    let r = SourceLines { contents, terms };
    assert(r.view_lines() =~= lv);
    r
}


/// Appends the lines with 0-based index in `from..to`.
fn emit(out: &mut Vec<char>, lines: &SourceLines, from: usize, to: usize)
    requires
        lines.wf(),
    ensures
        final(out)@ == old(out)@ + emit_range(lines.view_lines(), from as int, to as int),
{
    let ghost lv = lines.view_lines();
    let end = if to < lines.contents.len() {
        to
    } else {
        lines.contents.len()
    };
    if from >= end {
        assert(old(out)@ =~= old(out)@ + emit_range(lv, from as int, to as int));
        return;
    }
    let ghost slice = lv.subrange(from as int, end as int);
    let mut k = from;
    while k < end
        invariant
            from <= k <= end <= lines.contents@.len(),
            lines.wf(),
            lv == lines.view_lines(),
            slice == lv.subrange(from as int, end as int),
            out@ == old(out)@ + join_lines(slice.take(k - from)),
        decreases end - k,
    {
        proof {
            lemma_join_lines_take(slice, k - from);
        }
        append(out, &lines.contents[k]);
        append(out, &lines.terms[k]);
        k += 1;
    }
    assert(slice.take(k - from) =~= slice);
}

fn all_blank(lines: &SourceLines, from: usize, to: usize) -> (b: bool)
    requires
        lines.wf(),
    ensures
        b == blank_range(lines.view_lines(), from as int, to as int),
{
    let ghost lv = lines.view_lines();
    let mut i = from;
    while i < to && i < lines.contents.len()
        invariant
            from <= i,
            lines.wf(),
            lv == lines.view_lines(),
            forall|k: int| from <= k < i && 0 <= k < lv.len() ==> trim(#[trigger] lv[k].0).len() == 0,
        decreases to - i,
    {
        let line = &lines.contents[i];
        assert(line@.subrange(0, line@.len() as int) =~= line@);
        if !is_blank(line, 0, line.len()) {
            assert(trim(lv[i as int].0).len() != 0);
            return false;
        }
        i += 1;
    }
    true
}

/// How many blank lines belong between two blocks.
fn desired_gap_of(before: NodeKind, after: NodeKind) -> (n: usize)
    ensures
        n == desired_gap(before, after),
{
    if after == NodeKind::Heading {
        if before == NodeKind::Heading || before == NodeKind::FrontMatter {
            1
        } else {
            2
        }
    } else {
        1
    }
}

fn gap_message(before: NodeKind, after: NodeKind) -> (m: &'static str)
    ensures
        m@ == spec_gap_message(before, after),
{
    if after == NodeKind::Heading {
        if before == NodeKind::Heading || before == NodeKind::FrontMatter {
            ONE_BEFORE_HEADING
        } else {
            TWO_BEFORE_HEADING
        }
    } else if before == NodeKind::Heading {
        ONE_AFTER_HEADING
    } else {
        ONE_BETWEEN
    }
}

fn violation(line: usize, message: &'static str) -> (v: Violation)
    ensures
        v@ == (ID@, message@, Span { line, column: 1, length: 1 }),
{
    Violation { rule_id: ID, message: message.to_string(), span: Span { line, column: 1, length: 1 } }
}

fn gap(
    out: &mut Vec<char>,
    violations: &mut Vec<Violation>,
    lines: &SourceLines,
    newline: &Vec<char>,
    before: Block,
    after: Block,
)
    requires
        lines.wf(),
        1 <= after.1,
    ensures
        final(out)@ == old(out)@ + gap_outcome(lines.view_lines(), newline@, before, after).1,
        violations_view(final(violations)@) == violations_view(old(violations)@) + gap_outcome(
            lines.view_lines(),
            newline@,
            before,
            after,
        ).0,
{
    let start = before.2;
    let end = after.1 - 1;
    let actual = if end > start {
        end - start
    } else {
        0
    };
    let desired = desired_gap_of(before.0, after.0);
    if !all_blank(lines, start, end) || actual == desired {
        emit(out, lines, start, end);
        assert(violations_view(violations@) =~= violations_view(old(violations)@)
            + Seq::<(Seq<char>, Seq<char>, Span)>::empty());
        return;
    }
    let v = violation(after.1, gap_message(before.0, after.0));
    proof {
        lemma_violations_push(violations@, v);
    }
    violations.push(v);
    assert(violations_view(violations@) =~= violations_view(old(violations)@) + gap_outcome(
        lines.view_lines(),
        newline@,
        before,
        after,
    ).0);
    let ghost base = out@;
    let mut k: usize = 0;
    while k < desired
        invariant
            k <= desired,
            out@ == base + repeat(newline@, k as nat),
        decreases desired - k,
    {
        append(out, newline);
        k += 1;
    }
}

/// Detect and fix in one pass so the two halves can never disagree.
fn rewrite(doc: &Document) -> (r: (Vec<Violation>, String))
    ensures
        violations_view(r.0@) == spec_rewrite(doc.source@, doc.outline@).0,
        r.1@ == spec_rewrite(doc.source@, doc.outline@).1,
{
    let source = doc.source.as_str();
    let lines = source_lines(source);
    let ghost lv = lines.view_lines();
    let blocks = top_level_blocks(&doc.outline, lines.contents.len());
    let mut violations: Vec<Violation> = Vec::new();
    if blocks.len() == 0 {
        assert(violations_view(violations@) =~= Seq::<(Seq<char>, Seq<char>, Span)>::empty());
        return (violations, doc.source.clone());
    }
    let newline = chars_of(dominant_newline(source));
    let mut out: Vec<char> = Vec::new();
    let lead_end = blocks[0].1 - 1;
    if lead_end >= 1 {
        if all_blank(&lines, 0, lead_end) {
            let v = violation(1, REMOVE_LEADING);
            violations.push(v);
            assert(violations_view(violations@) =~= seq![v@]);
        } else {
            emit(&mut out, &lines, 0, lead_end);
        }
    }
    let ghost lead_out = out@;
    let ghost lead_violations = violations_view(violations@);
    emit(&mut out, &lines, blocks[0].1 - 1, blocks[0].2);
    let mut k: usize = 1;
    assert(out@ == lead_out + blocks_outcome(lv, newline@, blocks@, 1).1);
    assert(violations_view(violations@) =~= lead_violations + blocks_outcome(lv, newline@, blocks@, 1).0);
    while k < blocks.len()
        invariant
            1 <= k <= blocks@.len(),
            lines.wf(),
            lv == lines.view_lines(),
            forall|j: int|
                0 <= j < blocks@.len() ==> 1 <= (#[trigger] blocks@[j]).1 <= blocks@[j].2
                    <= lv.len(),
            out@ == lead_out + blocks_outcome(lv, newline@, blocks@, k as int).1,
            violations_view(violations@) == lead_violations + blocks_outcome(
                lv,
                newline@,
                blocks@,
                k as int,
            ).0,
        decreases blocks@.len() - k,
    {
        gap(&mut out, &mut violations, &lines, &newline, blocks[k - 1], blocks[k]);
        emit(&mut out, &lines, blocks[k].1 - 1, blocks[k].2);
        k += 1;
    }
    let last_end = blocks[blocks.len() - 1].2;
    emit(&mut out, &lines, last_end, lines.contents.len());
    let fixed = string_of(&out, 0, out.len());
    assert(out@.subrange(0, out@.len() as int) =~= out@);
    (violations, fixed)
}

impl BlockSpacing {
    pub fn id(&self) -> (r: &'static str)
        ensures
            r@ == ID@,
    {
        ID
    }

    pub fn short_reason(&self) -> (r: &'static str)
        ensures
            r@ == SHORT_REASON@,
    {
        SHORT_REASON
    }

    pub fn rationale(&self) -> (r: &'static str)
        ensures
            r@ == RATIONALE@,
    {
        RATIONALE
    }

    pub fn detect(&self, doc: &Document) -> (vs: Vec<Violation>)
        ensures
            violations_view(vs@) == spec_rewrite(doc.source@, doc.outline@).0,
    {
        rewrite(doc).0
    }

    pub fn fix(&self, doc: &Document) -> (r: Option<String>)
        ensures
            r matches Some(fixed) && fixed@ == spec_rewrite(doc.source@, doc.outline@).1,
    {
        Some(rewrite(doc).1)
    }
}

/// Whether the blocks come one after another: each ends before any later one begins.
pub open spec fn blocks_in_order(blocks: Seq<Block>) -> bool {
    forall|j: int, k: int|
        0 <= j < k < blocks.len() ==> (#[trigger] blocks[j]).2 < (#[trigger] blocks[k]).1
}

proof fn lemma_top_blocks_valid(edges: Seq<Edge>, line_count: nat)
    ensures
        forall|k: int|
            0 <= k < top_blocks(edges, line_count).len() ==> 1 <= (#[trigger] top_blocks(
                edges,
                line_count,
            )[k]).1 <= top_blocks(edges, line_count)[k].2 <= line_count,
    decreases edges.len(),
{
    if edges.len() > 0 {
        let before = top_blocks(edges.drop_last(), line_count);
        lemma_top_blocks_valid(edges.drop_last(), line_count);
        let all = top_blocks(edges, line_count);
        assert forall|k: int| 0 <= k < all.len() implies 1 <= (#[trigger] all[k]).1 <= all[k].2
            <= line_count by {
            if k < before.len() {
                assert(all[k] == before[k]);
            }
        }
    }
}

/// Lines that are all empty and end in `newline` join to that many newlines.
proof fn lemma_join_bare(lines: Seq<(Seq<char>, Seq<char>)>, newline: Seq<char>)
    requires
        forall|i: int|
            0 <= i < lines.len() ==> (#[trigger] lines[i]).0.len() == 0 && lines[i].1 == newline,
    ensures
        join_lines(lines) == repeat(newline, lines.len()),
    decreases lines.len(),
{
    if lines.len() > 0 {
        let init = lines.drop_last();
        assert forall|i: int| 0 <= i < init.len() implies (#[trigger] init[i]).0.len() == 0
            && init[i].1 == newline by {
            assert(init[i] == lines[i]);
        }
        lemma_join_bare(init, newline);
        assert(init.push(lines.last()) =~= lines);
        lemma_join_lines_push(init, lines.last());
        assert(lines.last().0 =~= Seq::<char>::empty());
        assert(join_lines(lines) =~= repeat(newline, lines.len()));
    }
}

/// The lines from 0-based `from` to `to` as written, when that range lies in the lines.
proof fn lemma_emit_range(lines: Seq<(Seq<char>, Seq<char>)>, from: int, to: int)
    requires
        0 <= from <= to <= lines.len(),
    ensures
        emit_range(lines, from, to) == join_lines(lines.subrange(from, to)),
{
    if from >= to {
        assert(lines.subrange(from, to) =~= Seq::<(Seq<char>, Seq<char>)>::empty());
    }
}

/// Three adjacent runs of lines join to the run that spans them.
proof fn lemma_join_three(lines: Seq<(Seq<char>, Seq<char>)>, a: int, b: int, c: int, d: int)
    requires
        0 <= a <= b <= c <= d <= lines.len(),
    ensures
        join_lines(lines.subrange(a, b)) + join_lines(lines.subrange(b, c)) + join_lines(
            lines.subrange(c, d),
        ) == join_lines(lines.subrange(a, d)),
{
    lemma_join_lines_concat(lines.subrange(a, b), lines.subrange(b, c));
    assert(lines.subrange(a, b) + lines.subrange(b, c) =~= lines.subrange(a, c));
    lemma_join_lines_concat(lines.subrange(a, c), lines.subrange(c, d));
    assert(lines.subrange(a, c) + lines.subrange(c, d) =~= lines.subrange(a, d));
}

proof fn lemma_blocks_unchanged(
    lines: Seq<(Seq<char>, Seq<char>)>,
    newline: Seq<char>,
    blocks: Seq<Block>,
    k: int,
)
    requires
        1 <= k <= blocks.len(),
        forall|j: int|
            0 <= j < blocks.len() ==> 1 <= (#[trigger] blocks[j]).1 <= blocks[j].2 <= lines.len(),
        blocks_in_order(blocks),
        blocks_outcome(lines, newline, blocks, k).0.len() == 0,
    ensures
        blocks_outcome(lines, newline, blocks, k).1 == join_lines(
            lines.subrange(blocks[0].1 - 1, blocks[k - 1].2 as int),
        ),
    decreases k,
{
    let last = blocks[k - 1];
    lemma_emit_range(lines, last.1 - 1, last.2 as int);
    if k > 1 {
        let before = blocks[k - 2];
        let prev = blocks_outcome(lines, newline, blocks, k - 1);
        let g = gap_outcome(lines, newline, before, last);
        assert(prev.0.len() + g.0.len() == 0);
        lemma_blocks_unchanged(lines, newline, blocks, k - 1);
        let from = before.2 as int;
        let to = last.1 - 1;
        assert(from <= to);
        assert(gap_kept(lines, before, last));
        lemma_emit_range(lines, from, to);
        assert(g.1 == join_lines(lines.subrange(from, to)));
        lemma_join_three(lines, blocks[0].1 - 1, from, to, last.2 as int);
    }
}

/// Lint reports everything this rule would change: in a document whose
/// top-level blocks come in order, a source on which the rule reports nothing
/// is given back exactly by its fix.
pub proof fn law_no_violation_means_no_change(source: Seq<char>, outline: Seq<Edge>)
    requires
        spec_rewrite(source, outline).0.len() == 0,
        blocks_in_order(top_blocks(outline, spec_split_lines(source).len())),
    ensures
        spec_rewrite(source, outline).1 == source,
{
    let lines = spec_split_lines(source);
    let blocks = top_blocks(outline, lines.len());
    lemma_split_lines_rejoin(source);
    if blocks.len() > 0 {
        let newline = spec_dominant_newline(source);
        lemma_top_blocks_valid(outline, lines.len());
        let first = blocks[0];
        let last = blocks.last();
        let body = blocks_outcome(lines, newline, blocks, blocks.len() as int);
        lemma_blocks_unchanged(lines, newline, blocks, blocks.len() as int);
        lemma_emit_range(lines, 0, first.1 - 1);
        lemma_emit_range(lines, last.2 as int, lines.len() as int);
        lemma_join_three(lines, 0, first.1 - 1, last.2 as int, lines.len() as int);
        assert(lines.subrange(0, lines.len() as int) =~= lines);
        if first.1 - 1 < 1 {
            assert(lines.subrange(0, first.1 - 1) =~= Seq::<(Seq<char>, Seq<char>)>::empty());
        }
    }
}

/// The lines with 0-based index in `from..to`, as written.
pub open spec fn emit_lines(lines: Seq<(Seq<char>, Seq<char>)>, from: int, to: int) -> Seq<
    (Seq<char>, Seq<char>),
> {
    let end = if to < lines.len() {
        to
    } else {
        lines.len() as int
    };
    if from < 0 || from >= end {
        Seq::empty()
    } else {
        lines.subrange(from, end)
    }
}

/// `n` empty lines ending in `newline`.
pub open spec fn blank_lines(newline: Seq<char>, n: nat) -> Seq<(Seq<char>, Seq<char>)> {
    Seq::new(n, |i: int| (Seq::<char>::empty(), newline))
}

/// The lines written for the gap between two blocks.
pub open spec fn gap_lines(
    lines: Seq<(Seq<char>, Seq<char>)>,
    newline: Seq<char>,
    before: Block,
    after: Block,
) -> Seq<(Seq<char>, Seq<char>)> {
    let from = before.2 as int;
    let to = after.1 - 1;
    if gap_kept(lines, before, after) {
        emit_lines(lines, from, to)
    } else {
        blank_lines(newline, desired_gap(before.0, after.0))
    }
}

/// The lines written for the first `k` blocks and the gaps between them.
pub open spec fn blocks_lines(
    lines: Seq<(Seq<char>, Seq<char>)>,
    newline: Seq<char>,
    blocks: Seq<Block>,
    k: int,
) -> Seq<(Seq<char>, Seq<char>)>
    decreases k,
{
    if k <= 0 {
        Seq::empty()
    } else if k == 1 {
        emit_lines(lines, blocks[0].1 - 1, blocks[0].2 as int)
    } else {
        blocks_lines(lines, newline, blocks, k - 1) + gap_lines(
            lines,
            newline,
            blocks[k - 2],
            blocks[k - 1],
        ) + emit_lines(lines, blocks[k - 1].1 - 1, blocks[k - 1].2 as int)
    }
}

/// The lines of the fixed text, as the fix writes them.
pub open spec fn rewrite_lines(source: Seq<char>, outline: Seq<Edge>) -> Seq<
    (Seq<char>, Seq<char>),
> {
    let lines = spec_split_lines(source);
    let blocks = top_blocks(outline, lines.len());
    if blocks.len() == 0 {
        lines
    } else {
        let newline = spec_dominant_newline(source);
        lead_lines(lines, blocks) + blocks_lines(lines, newline, blocks, blocks.len() as int)
            + emit_lines(lines, blocks.last().2 as int, lines.len() as int)
    }
}

proof fn lemma_join_gap(
    lines: Seq<(Seq<char>, Seq<char>)>,
    newline: Seq<char>,
    before: Block,
    after: Block,
)
    ensures
        join_lines(gap_lines(lines, newline, before, after)) == gap_outcome(
            lines,
            newline,
            before,
            after,
        ).1,
{
    if !gap_kept(lines, before, after) {
        let n = desired_gap(before.0, after.0);
        lemma_join_bare(blank_lines(newline, n), newline);
    }
}

proof fn lemma_join_blocks_lines(
    lines: Seq<(Seq<char>, Seq<char>)>,
    newline: Seq<char>,
    blocks: Seq<Block>,
    k: int,
)
    requires
        k <= blocks.len(),
    ensures
        join_lines(blocks_lines(lines, newline, blocks, k)) == blocks_outcome(
            lines,
            newline,
            blocks,
            k,
        ).1,
    decreases k,
{
    if k > 1 {
        lemma_join_blocks_lines(lines, newline, blocks, k - 1);
        let a = blocks_lines(lines, newline, blocks, k - 1);
        let g = gap_lines(lines, newline, blocks[k - 2], blocks[k - 1]);
        let e = emit_lines(lines, blocks[k - 1].1 - 1, blocks[k - 1].2 as int);
        lemma_join_gap(lines, newline, blocks[k - 2], blocks[k - 1]);
        lemma_join_lines_concat(a, g);
        lemma_join_lines_concat(a + g, e);
    }
}

/// The fixed text spells out the lines the fix writes.
proof fn lemma_join_rewrite_lines(source: Seq<char>, outline: Seq<Edge>)
    ensures
        join_lines(rewrite_lines(source, outline)) == spec_rewrite(source, outline).1,
{
    let lines = spec_split_lines(source);
    let blocks = top_blocks(outline, lines.len());
    if blocks.len() == 0 {
        lemma_split_lines_rejoin(source);
    } else {
        let newline = spec_dominant_newline(source);
        let lead = lead_lines(lines, blocks);
        let body = blocks_lines(lines, newline, blocks, blocks.len() as int);
        let tail = emit_lines(lines, blocks.last().2 as int, lines.len() as int);
        lemma_join_blocks_lines(lines, newline, blocks, blocks.len() as int);
        lemma_join_lines_concat(lead, body);
        lemma_join_lines_concat(lead + body, tail);
    }
}

/// The lines that hold text, in order.
pub open spec fn lines_with_text(lines: Seq<(Seq<char>, Seq<char>)>) -> Seq<(Seq<char>, Seq<char>)>
    decreases lines.len(),
{
    if lines.len() == 0 {
        Seq::empty()
    } else if trim(lines.last().0).len() == 0 {
        lines_with_text(lines.drop_last())
    } else {
        lines_with_text(lines.drop_last()).push(lines.last())
    }
}

proof fn lemma_with_text_concat(a: Seq<(Seq<char>, Seq<char>)>, b: Seq<(Seq<char>, Seq<char>)>)
    ensures
        lines_with_text(a + b) == lines_with_text(a) + lines_with_text(b),
    decreases b.len(),
{
    if b.len() == 0 {
        assert(a + b =~= a);
        assert(lines_with_text(a) + lines_with_text(b) =~= lines_with_text(a));
    } else {
        lemma_with_text_concat(a, b.drop_last());
        assert((a + b).drop_last() =~= a + b.drop_last());
        assert((a + b).last() == b.last());
        assert(lines_with_text(a + b) =~= lines_with_text(a) + lines_with_text(b));
    }
}

proof fn lemma_with_text_blank(a: Seq<(Seq<char>, Seq<char>)>)
    requires
        forall|i: int| 0 <= i < a.len() ==> trim((#[trigger] a[i]).0).len() == 0,
    ensures
        lines_with_text(a).len() == 0,
    decreases a.len(),
{
    if a.len() > 0 {
        assert forall|i: int| 0 <= i < a.drop_last().len() implies trim(
            (#[trigger] a.drop_last()[i]).0,
        ).len() == 0 by {
            assert(a.drop_last()[i] == a[i]);
        }
        lemma_with_text_blank(a.drop_last());
        assert(trim(a[a.len() - 1].0).len() == 0);
    }
}

/// A line that may stand before another: no `\n` in it, ended by `\n` or
/// `\r\n`, and no `\r` before a bare `\n`.
pub open spec fn inner_line(l: (Seq<char>, Seq<char>)) -> bool {
    &&& !l.0.contains('\n')
    &&& (l.1 == lf() || l.1 == crlf())
    &&& (l.1 == lf() ==> !ends_in_cr(l.0))
}

/// Writing the blocks loses no line with text, and every line written but the
/// last may stand before another; the last is the last line of the last block.
proof fn lemma_blocks_lines_shape(
    lines: Seq<(Seq<char>, Seq<char>)>,
    newline: Seq<char>,
    blocks: Seq<Block>,
    k: int,
)
    requires
        1 <= k <= blocks.len(),
        newline == lf() || newline == crlf(),
        forall|j: int|
            0 <= j < blocks.len() ==> 1 <= (#[trigger] blocks[j]).1 <= blocks[j].2 <= lines.len(),
        blocks_in_order(blocks),
        forall|i: int| 0 <= i < lines.len() - 1 ==> inner_line(#[trigger] lines[i]),
    ensures
        lines_with_text(blocks_lines(lines, newline, blocks, k)) == lines_with_text(
            lines.subrange(blocks[0].1 - 1, blocks[k - 1].2 as int),
        ),
        blocks_lines(lines, newline, blocks, k).len() > 0,
        blocks_lines(lines, newline, blocks, k).last() == lines[blocks[k - 1].2 - 1],
        forall|p: int|
            0 <= p < blocks_lines(lines, newline, blocks, k).len() - 1 ==> inner_line(
                #[trigger] blocks_lines(lines, newline, blocks, k)[p],
            ),
    decreases k,
{
    let last = blocks[k - 1];
    let e = emit_lines(lines, last.1 - 1, last.2 as int);
    assert(e == lines.subrange(last.1 - 1, last.2 as int));
    assert forall|p: int| 0 <= p < e.len() - 1 implies inner_line(#[trigger] e[p]) by {
        assert(e[p] == lines[last.1 - 1 + p]);
    }
    if k > 1 {
        let before = blocks[k - 2];
        lemma_blocks_lines_shape(lines, newline, blocks, k - 1);
        let prev = blocks_lines(lines, newline, blocks, k - 1);
        let g = gap_lines(lines, newline, before, last);
        let from = before.2 as int;
        let to = last.1 - 1;
        assert(from <= to);
        assert(from - 1 < lines.len() - 1);
        assert(inner_line(prev.last()));
        if !gap_kept(lines, before, last) {
            let n = desired_gap(before.0, last.0);
            assert forall|p: int| 0 <= p < g.len() implies inner_line(#[trigger] g[p]) by {
                assert(g[p] == (Seq::<char>::empty(), newline));
            }
            lemma_with_text_blank(g);
            let run = lines.subrange(from, to);
            assert forall|i: int| 0 <= i < run.len() implies trim((#[trigger] run[i]).0).len()
                == 0 by {
                assert(run[i] == lines[from + i]);
            }
            lemma_with_text_blank(run);
            assert(lines_with_text(g) =~= lines_with_text(run));
        } else {
            if from < to {
                assert(g == lines.subrange(from, to));
            } else {
                assert(g =~= lines.subrange(from, to));
            }
            assert forall|p: int| 0 <= p < g.len() implies inner_line(#[trigger] g[p]) by {
                assert(g[p] == lines[from + p]);
            }
        }
        let all = prev + g + e;
        assert(all == blocks_lines(lines, newline, blocks, k));
        assert forall|p: int| 0 <= p < all.len() - 1 implies inner_line(#[trigger] all[p]) by {
            if p < prev.len() - 1 {
                assert(all[p] == prev[p]);
            } else if p == prev.len() - 1 {
                assert(all[p] == prev.last());
            } else if p < prev.len() + g.len() {
                assert(all[p] == g[p - prev.len()]);
            } else {
                assert(all[p] == e[p - prev.len() - g.len()]);
            }
        }
        assert(all.last() == e.last());
        let a = blocks[0].1 - 1;
        lemma_with_text_concat(prev, g);
        lemma_with_text_concat(prev + g, e);
        lemma_with_text_concat(lines.subrange(a, from), lines.subrange(from, to));
        lemma_with_text_concat(
            lines.subrange(a, from) + lines.subrange(from, to),
            lines.subrange(to, last.2 as int),
        );
        assert(lines.subrange(a, from) + lines.subrange(from, to) + lines.subrange(
            to,
            last.2 as int,
        ) =~= lines.subrange(a, last.2 as int));
    }
}

/// The pieces the fix writes around the blocks: what stands before the first
/// block (kept unless blank) and what follows the last.
pub open spec fn lead_lines(lines: Seq<(Seq<char>, Seq<char>)>, blocks: Seq<Block>) -> Seq<
    (Seq<char>, Seq<char>),
> {
    let lead_end = blocks[0].1 - 1;
    if lead_end >= 1 && !blank_range(lines, 0, lead_end) {
        emit_lines(lines, 0, lead_end)
    } else {
        Seq::empty()
    }
}

proof fn lemma_rewrite_lines_text(source: Seq<char>, outline: Seq<Edge>)
    requires
        top_blocks(outline, spec_split_lines(source).len()).len() > 0,
        blocks_in_order(top_blocks(outline, spec_split_lines(source).len())),
    ensures
        lines_with_text(rewrite_lines(source, outline)) == lines_with_text(
            spec_split_lines(source),
        ),
{
    let lines = spec_split_lines(source);
    let blocks = top_blocks(outline, lines.len());
    let newline = spec_dominant_newline(source);
    lemma_split_lines_well_formed(source);
    lemma_split_lines_terminators(source);
    lemma_top_blocks_valid(outline, lines.len());
    assert forall|i: int| 0 <= i < lines.len() - 1 implies inner_line(#[trigger] lines[i]) by {}
    let n = blocks.len() as int;
    lemma_blocks_lines_shape(lines, newline, blocks, n);
    let last = blocks.last();
    let lead_end = blocks[0].1 - 1;
    let lead = lead_lines(lines, blocks);
    let body = blocks_lines(lines, newline, blocks, n);
    let tail = emit_lines(lines, last.2 as int, lines.len() as int);
    assert(rewrite_lines(source, outline) == lead + body + tail);
    let head = lines.subrange(0, lead_end);
    assert(lines_with_text(lead) == lines_with_text(head)) by {
        if lead_end >= 1 && !blank_range(lines, 0, lead_end) {
            assert(lead == head);
        } else {
            if lead_end >= 1 {
                assert forall|i: int| 0 <= i < head.len() implies trim(
                    (#[trigger] head[i]).0,
                ).len() == 0 by {
                    assert(head[i] == lines[i]);
                }
            }
            lemma_with_text_blank(head);
            assert(lines_with_text(lead) =~= lines_with_text(head));
        }
    }
    assert(tail == lines.subrange(last.2 as int, lines.len() as int)) by {
        if last.2 >= lines.len() {
            assert(tail =~= lines.subrange(last.2 as int, lines.len() as int));
        }
    }
    lemma_with_text_concat(lead, body);
    lemma_with_text_concat(lead + body, tail);
    lemma_with_text_concat(head, lines.subrange(lead_end, last.2 as int));
    lemma_with_text_concat(
        head + lines.subrange(lead_end, last.2 as int),
        lines.subrange(last.2 as int, lines.len() as int),
    );
    assert(head + lines.subrange(lead_end, last.2 as int) + lines.subrange(
        last.2 as int,
        lines.len() as int,
    ) =~= lines);
}

proof fn lemma_rewrite_lines_well_formed(source: Seq<char>, outline: Seq<Edge>)
    requires
        top_blocks(outline, spec_split_lines(source).len()).len() > 0,
        blocks_in_order(top_blocks(outline, spec_split_lines(source).len())),
    ensures
        well_formed_lines(rewrite_lines(source, outline)),
{
    let lines = spec_split_lines(source);
    let blocks = top_blocks(outline, lines.len());
    let newline = spec_dominant_newline(source);
    lemma_split_lines_well_formed(source);
    lemma_split_lines_terminators(source);
    lemma_top_blocks_valid(outline, lines.len());
    assert forall|i: int| 0 <= i < lines.len() - 1 implies inner_line(#[trigger] lines[i]) by {}
    let n = blocks.len() as int;
    lemma_blocks_lines_shape(lines, newline, blocks, n);
    let last = blocks.last();
    let lead = lead_lines(lines, blocks);
    let body = blocks_lines(lines, newline, blocks, n);
    let tail = emit_lines(lines, last.2 as int, lines.len() as int);
    let f = lead + body + tail;
    assert(rewrite_lines(source, outline) == f);
    assert forall|p: int| 0 <= p < lead.len() implies inner_line(#[trigger] lead[p]) by {
        assert(lead[p] == lines[p]);
    }
    assert forall|p: int| 0 <= p < f.len() - 1 implies inner_line(#[trigger] f[p]) by {
        if p < lead.len() {
            assert(f[p] == lead[p]);
        } else if p < lead.len() + body.len() - 1 {
            assert(f[p] == body[p - lead.len()]);
        } else if p == lead.len() + body.len() - 1 {
            assert(f[p] == body.last());
            assert(last.2 < lines.len());
        } else {
            assert(f[p] == tail[p - lead.len() - body.len()]);
            assert(tail[p - lead.len() - body.len()] == lines[last.2 + p - lead.len()
                - body.len()]);
        }
    }
    assert(f.last() == lines.last()) by {
        if tail.len() > 0 {
            assert(f.last() == tail.last());
        } else {
            assert(f.last() == body.last());
        }
    }
    if lines.len() == 1 {
        if n > 1 {
            assert(blocks[0].2 < blocks[1].1);
        }
        assert(f.len() == 1);
    }
    assert forall|i: int| 0 <= i < f.len() implies !(#[trigger] f[i]).0.contains('\n') by {
        if i < f.len() - 1 {
            assert(inner_line(f[i]));
        }
    }
    assert forall|i: int| 0 <= i < f.len() implies (#[trigger] f[i]).1 == lf() || f[i].1 == crlf()
        || (f[i].1.len() == 0 && i == f.len() - 1) by {
        if i < f.len() - 1 {
            assert(inner_line(f[i]));
        }
    }
    assert forall|i: int| 0 <= i < f.len() && (#[trigger] f[i]).1 == lf() implies !ends_in_cr(
        f[i].0,
    ) by {
        if i < f.len() - 1 {
            assert(inner_line(f[i]));
        }
    }
}

/// Whether `x` is a line of `lines`, or an empty line ending in `newline`.
pub open spec fn source_or_added(
    lines: Seq<(Seq<char>, Seq<char>)>,
    newline: Seq<char>,
    x: (Seq<char>, Seq<char>),
) -> bool {
    x == (Seq::<char>::empty(), newline) || exists|i: int| 0 <= i < lines.len() && x == #[trigger] lines[i]
}

proof fn lemma_emit_provenance(
    lines: Seq<(Seq<char>, Seq<char>)>,
    newline: Seq<char>,
    from: int,
    to: int,
)
    ensures
        forall|p: int|
            0 <= p < emit_lines(lines, from, to).len() ==> source_or_added(
                lines,
                newline,
                #[trigger] emit_lines(lines, from, to)[p],
            ),
{
    let e = emit_lines(lines, from, to);
    assert forall|p: int| 0 <= p < e.len() implies source_or_added(lines, newline, #[trigger] e[p]) by {
        assert(e[p] == lines[from + p]);
    }
}

proof fn lemma_blocks_lines_provenance(
    lines: Seq<(Seq<char>, Seq<char>)>,
    newline: Seq<char>,
    blocks: Seq<Block>,
    k: int,
)
    requires
        k <= blocks.len(),
    ensures
        forall|p: int|
            0 <= p < blocks_lines(lines, newline, blocks, k).len() ==> source_or_added(
                lines,
                newline,
                #[trigger] blocks_lines(lines, newline, blocks, k)[p],
            ),
    decreases k,
{
    if k >= 1 {
        let last = blocks[k - 1];
        let e = emit_lines(lines, last.1 - 1, last.2 as int);
        lemma_emit_provenance(lines, newline, last.1 - 1, last.2 as int);
        if k > 1 {
            lemma_blocks_lines_provenance(lines, newline, blocks, k - 1);
            let prev = blocks_lines(lines, newline, blocks, k - 1);
            let g = gap_lines(lines, newline, blocks[k - 2], last);
            lemma_emit_provenance(lines, newline, blocks[k - 2].2 as int, last.1 - 1);
            assert forall|p: int| 0 <= p < g.len() implies source_or_added(
                lines,
                newline,
                #[trigger] g[p],
            ) by {
                if !gap_kept(lines, blocks[k - 2], last) {
                    assert(g[p] == (Seq::<char>::empty(), newline));
                } else {
                    assert(g[p] == emit_lines(lines, blocks[k - 2].2 as int, last.1 - 1)[p]);
                }
            }
            let all = prev + g + e;
            assert(all == blocks_lines(lines, newline, blocks, k));
            assert forall|p: int| 0 <= p < all.len() implies source_or_added(
                lines,
                newline,
                #[trigger] all[p],
            ) by {
                if p < prev.len() {
                    assert(all[p] == prev[p]);
                } else if p < prev.len() + g.len() {
                    assert(all[p] == g[p - prev.len()]);
                } else {
                    assert(all[p] == e[p - prev.len() - g.len()]);
                }
            }
        }
    }
}

proof fn lemma_rewrite_lines_provenance(source: Seq<char>, outline: Seq<Edge>)
    requires
        top_blocks(outline, spec_split_lines(source).len()).len() > 0,
    ensures
        forall|p: int|
            0 <= p < rewrite_lines(source, outline).len() ==> source_or_added(
                spec_split_lines(source),
                spec_dominant_newline(source),
                #[trigger] rewrite_lines(source, outline)[p],
            ),
{
    let lines = spec_split_lines(source);
    let blocks = top_blocks(outline, lines.len());
    let newline = spec_dominant_newline(source);
    let lead = lead_lines(lines, blocks);
    let body = blocks_lines(lines, newline, blocks, blocks.len() as int);
    let tail = emit_lines(lines, blocks.last().2 as int, lines.len() as int);
    lemma_blocks_lines_provenance(lines, newline, blocks, blocks.len() as int);
    lemma_emit_provenance(lines, newline, 0, blocks[0].1 - 1);
    lemma_emit_provenance(lines, newline, blocks.last().2 as int, lines.len() as int);
    let f = lead + body + tail;
    assert(f == rewrite_lines(source, outline));
    assert forall|p: int| 0 <= p < f.len() implies source_or_added(lines, newline, #[trigger] f[p]) by {
        if p < lead.len() {
            assert(f[p] == lead[p]);
            assert(lead[p] == emit_lines(lines, 0, blocks[0].1 - 1)[p]);
        } else if p < lead.len() + body.len() {
            assert(f[p] == body[p - lead.len()]);
        } else {
            assert(f[p] == tail[p - lead.len() - body.len()]);
        }
    }
}

/// Nothing is ever lost: in a document whose top-level blocks come in order,
/// the lines with text in the fixed file are exactly those of the source, in
/// order, so the fix only adds or takes away blank lines; and every line of the
/// fixed file is a line of the source or an added empty line that ends with
/// the file's own newline.
pub proof fn law_only_blank_lines_change(source: Seq<char>, outline: Seq<Edge>)
    requires
        blocks_in_order(top_blocks(outline, spec_split_lines(source).len())),
    ensures
        lines_with_text(spec_split_lines(spec_rewrite(source, outline).1)) == lines_with_text(
            spec_split_lines(source),
        ),
        forall|p: int|
            0 <= p < spec_split_lines(spec_rewrite(source, outline).1).len() ==> source_or_added(
                spec_split_lines(source),
                spec_dominant_newline(source),
                #[trigger] spec_split_lines(spec_rewrite(source, outline).1)[p],
            ),
{
    let lines = spec_split_lines(source);
    lemma_join_rewrite_lines(source, outline);
    if top_blocks(outline, lines.len()).len() == 0 {
        lemma_split_lines_rejoin(source);
        assert forall|p: int| 0 <= p < lines.len() implies source_or_added(
            lines,
            spec_dominant_newline(source),
            #[trigger] lines[p],
        ) by {}
    } else {
        lemma_rewrite_lines_text(source, outline);
        lemma_rewrite_lines_well_formed(source, outline);
        lemma_split_join(rewrite_lines(source, outline));
        lemma_rewrite_lines_provenance(source, outline);
    }
}

} // verus!
