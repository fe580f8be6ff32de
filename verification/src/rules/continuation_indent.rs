use vstd::prelude::*;
use crate::ast::{Edge, NodeKind, kind_from_name, kind_of, open_kinds};
use crate::chars::advance;
use crate::document::Document;
use crate::rules::headings::{contents_of, line_contents};
use crate::rules::list_marker_space::space_char_pred;
use crate::rules::sentence_per_line::count_kind;
use crate::violation::{Span, Violation, lemma_violations_push, violations_view};

verus! {

/// A paragraph inside a list item or a blockquote continues on lines that
/// reach its text: indented to the paragraph's column in a list item, or
/// carrying every `>` of its blockquotes. A line that falls short is reported,
/// not rewritten. Paragraphs both quoted and listed are not checked.
pub struct ContinuationIndent;

pub const ID: &'static str = "continuation-indent";

pub const SHORT_REASON: &'static str = "Indent continuation lines to reach the text they continue.";

pub const RATIONALE: &'static str = "When a paragraph continues onto another line inside a list item or blockquote, that line has to reach the text it continues, by indentation in a list or a `>` prefix in a quote. A line that falls short is silently folded into the block above it by Markdown's lazy-continuation rule, so it renders as part of an item it does not appear to belong to. Indent it to line up, or add a blank line to make it a separate block. This is reported but never fixed, because only you know which you meant.";

pub const MESSAGE: &'static str = "continuation line does not reach the text it continues";

/// A paragraph to check: its first and last lines, the column its text
/// starts at, and its blockquote depth (0 for a paragraph in a list item).
pub open spec fn paragraph_targets(edges: Seq<Edge>) -> Seq<(usize, usize, usize, nat)>
    decreases edges.len(),
{
    if edges.len() == 0 {
        Seq::empty()
    } else {
        let before = paragraph_targets(edges.drop_last());
        let ancestors = open_kinds(edges.drop_last());
        let depth = count_kind(ancestors, NodeKind::BlockQuote);
        let listed = ancestors.contains(NodeKind::Item);
        match edges.last() {
            Edge::Open { name, start_line, start_column, end_line, .. } => {
                if kind_of(name@) == NodeKind::Paragraph && start_line < end_line && (listed
                    != (depth > 0)) {
                    before.push((start_line, end_line, start_column, if listed {
                        0nat
                    } else {
                        depth
                    }))
                } else {
                    before
                }
            },
            Edge::Close => before,
        }
    }
}

/// How many leading `>` markers, each after at most three spaces, `c` has from
/// index `i` on, counting up to `d`.
pub open spec fn quote_markers(c: Seq<char>, i: int, d: nat) -> nat
    decreases d,
{
    let j = advance(c, i, space_char_pred());
    if d == 0 || !(0 <= i <= c.len()) || j - i > 3 || j >= c.len() || c[j] != '>' {
        0
    } else {
        1 + quote_markers(c, j + 1, (d - 1) as nat)
    }
}

/// Whether line `c` falls short as a continuation of the paragraph `t`.
pub open spec fn short(c: Seq<char>, t: (usize, usize, usize, nat)) -> bool {
    if t.3 == 0 {
        advance(c, 0, space_char_pred()) + 1 < t.2
    } else {
        quote_markers(c, 0, t.3) < t.3
    }
}

/// One violation for each of the lines `t.0 + 1 ..= upto` of the paragraph
/// `t` that falls short.
pub open spec fn line_violations(
    contents: Seq<Seq<char>>,
    t: (usize, usize, usize, nat),
    upto: int,
) -> Seq<(Seq<char>, Seq<char>, Span)>
    decreases upto,
{
    if upto <= t.0 {
        Seq::empty()
    } else {
        let before = line_violations(contents, t, upto - 1);
        if 1 <= upto <= contents.len() && short(contents[upto - 1], t) {
            before.push((ID@, MESSAGE@, Span { line: upto as usize, column: 1, length: 1 }))
        } else {
            before
        }
    }
}

/// The violations of the first `n` paragraphs.
pub open spec fn paragraph_violations(
    contents: Seq<Seq<char>>,
    targets: Seq<(usize, usize, usize, nat)>,
    n: int,
) -> Seq<(Seq<char>, Seq<char>, Span)>
    decreases n,
{
    if n <= 0 {
        Seq::empty()
    } else {
        paragraph_violations(contents, targets, n - 1) + line_violations(
            contents,
            targets[n - 1],
            targets[n - 1].1 as int,
        )
    }
}

pub open spec fn spec_detect(source: Seq<char>, outline: Seq<Edge>) -> Seq<
    (Seq<char>, Seq<char>, Span),
> {
    let targets = paragraph_targets(outline);
    paragraph_violations(contents_of(source), targets, targets.len() as int)
}

proof fn lemma_targets_span_lines(edges: Seq<Edge>)
    ensures
        forall|k: int|
            0 <= k < paragraph_targets(edges).len() ==> (#[trigger] paragraph_targets(edges)[k]).0
                < paragraph_targets(edges)[k].1,
    decreases edges.len(),
{
    if edges.len() > 0 {
        lemma_targets_span_lines(edges.drop_last());
        let before = paragraph_targets(edges.drop_last());
        let all = paragraph_targets(edges);
        assert forall|k: int| 0 <= k < all.len() implies (#[trigger] all[k]).0 < all[k].1 by {
            if k < before.len() {
                assert(all[k] == before[k]);
            }
        }
    }
}

fn collect_paragraphs(outline: &Vec<Edge>) -> (ts: Vec<(usize, usize, usize, usize)>)
    ensures
        ts@.map_values(|t: (usize, usize, usize, usize)| (t.0, t.1, t.2, t.3 as nat))
            == paragraph_targets(outline@),
{
    let mut stack: Vec<NodeKind> = Vec::new();
    let mut ts: Vec<(usize, usize, usize, usize)> = Vec::new();
    let mut i: usize = 0;
    while i < outline.len()
        invariant
            i <= outline@.len(),
            stack@ == open_kinds(outline@.take(i as int)),
            ts@.map_values(|t: (usize, usize, usize, usize)| (t.0, t.1, t.2, t.3 as nat))
                == paragraph_targets(outline@.take(i as int)),
        decreases outline@.len() - i,
    {
        let ghost prefix = outline@.take(i + 1);
        assert(prefix.drop_last() =~= outline@.take(i as int));
        assert(prefix.last() == outline@[i as int]);
        match outline[i] {
            Edge::Open { name, start_line, start_column, end_line, .. } => {
                let kind = kind_from_name(name);
                if kind == NodeKind::Paragraph && start_line < end_line {
                    let mut depth: usize = 0;
                    let mut listed = false;
                    let mut k: usize = 0;
                    while k < stack.len()
                        invariant
                            k <= stack@.len(),
                            depth == count_kind(stack@.take(k as int), NodeKind::BlockQuote),
                            depth <= k,
                            listed == stack@.take(k as int).contains(NodeKind::Item),
                        decreases stack@.len() - k,
                    {
                        let ghost p = stack@.take(k + 1);
                        assert(p.drop_last() =~= stack@.take(k as int));
                        assert(p.last() == stack@[k as int]);
                        if stack[k] == NodeKind::BlockQuote {
                            depth += 1;
                        }
                        if stack[k] == NodeKind::Item {
                            assert(p[k as int] == NodeKind::Item);
                            listed = true;
                        } else {
                            assert(p.contains(NodeKind::Item) ==> stack@.take(k as int).contains(
                                NodeKind::Item,
                            )) by {
                                if p.contains(NodeKind::Item) {
                                    let m = choose|m: int| 0 <= m < p.len() && p[m] == NodeKind::Item;
                                    assert(stack@.take(k as int)[m] == NodeKind::Item);
                                }
                            }
                        }
                        k += 1;
                    }
                    assert(stack@.take(k as int) =~= stack@);
                    if listed != (depth > 0) {
                        let ghost before = ts@.map_values(
                            |t: (usize, usize, usize, usize)| (t.0, t.1, t.2, t.3 as nat),
                        );
                        let d = if listed {
                            0
                        } else {
                            depth
                        };
                        ts.push((start_line, end_line, start_column, d));
                        assert(ts@.map_values(
                            |t: (usize, usize, usize, usize)| (t.0, t.1, t.2, t.3 as nat),
                        ) =~= before.push((start_line, end_line, start_column, d as nat)));
                    }
                }
                stack.push(kind);
            },
            Edge::Close => {
                if stack.len() > 0 {
                    stack.pop();
                }
            },
        }
        i += 1;
    }
    assert(outline@.take(i as int) =~= outline@);
    ts
}

/// How many leading markers `c` has from index `i` on, up to `d`.
fn quote_markers_of(c: &Vec<char>, i: usize, d: usize) -> (n: usize)
    requires
        i <= c@.len(),
    ensures
        n == quote_markers(c@, i as int, d as nat),
        n <= d,
    decreases d,
{
    let mut j = i;
    while j < c.len() && c[j] == ' '
        invariant
            i <= j <= c@.len(),
            advance(c@, j as int, space_char_pred()) == advance(c@, i as int, space_char_pred()),
        decreases c@.len() - j,
    {
        j += 1;
    }
    if d == 0 || j - i > 3 || j >= c.len() || c[j] != '>' {
        0
    } else {
        1 + quote_markers_of(c, j + 1, d - 1)
    }
}

/// Whether line `c` falls short as a continuation of the paragraph `t`.
fn is_short(c: &Vec<char>, t: (usize, usize, usize, usize)) -> (b: bool)
    ensures
        b == short(c@, (t.0, t.1, t.2, t.3 as nat)),
{
    if t.3 == 0 {
        let mut j: usize = 0;
        while j < c.len() && c[j] == ' '
            invariant
                j <= c@.len(),
                advance(c@, j as int, space_char_pred()) == advance(c@, 0, space_char_pred()),
            decreases c@.len() - j,
        {
            j += 1;
        }
        j < t.2 && t.2 - j > 1
    } else {
        quote_markers_of(c, 0, t.3) < t.3
    }
}

impl ContinuationIndent {
    pub fn id(&self) -> (r: &'static str)
        ensures
            r@ == ID@,
    {
        ID
    }

    pub fn short_reason(&self) -> (r: &'static str)
        ensures
            r@ == SHORT_REASON@,
    {
        SHORT_REASON
    }

    pub fn rationale(&self) -> (r: &'static str)
        ensures
            r@ == RATIONALE@,
    {
        RATIONALE
    }

    pub fn detect(&self, doc: &Document) -> (vs: Vec<Violation>)
        ensures
            violations_view(vs@) == spec_detect(doc.source@, doc.outline@),
    {
        let contents = line_contents(doc.source.as_str());
        let ghost cs = contents_of(doc.source@);
        let targets = collect_paragraphs(&doc.outline);
        let ghost tv = targets@.map_values(
            |t: (usize, usize, usize, usize)| (t.0, t.1, t.2, t.3 as nat),
        );
        proof {
            lemma_targets_span_lines(doc.outline@);
        }
        let mut vs: Vec<Violation> = Vec::new();
        let mut n: usize = 0;
        while n < targets.len()
            invariant
                n <= targets@.len(),
                tv == paragraph_targets(doc.outline@),
                forall|k: int| 0 <= k < tv.len() ==> (#[trigger] tv[k]).0 < tv[k].1,
                tv == targets@.map_values(
                    |t: (usize, usize, usize, usize)| (t.0, t.1, t.2, t.3 as nat),
                ),
                cs == contents@.map_values(|v: Vec<char>| v@),
                violations_view(vs@) == paragraph_violations(cs, tv, n as int),
            decreases targets@.len() - n,
        {
            let t = targets[n];
            let ghost tt = tv[n as int];
            assert(tt.0 < tt.1);
            let ghost base = violations_view(vs@);
            let mut line = t.0;
            while line < t.1
                invariant
                    t.0 <= line <= t.1,
                    tt == (t.0, t.1, t.2, t.3 as nat),
                    cs == contents@.map_values(|v: Vec<char>| v@),
                    violations_view(vs@) == base + line_violations(cs, tt, line as int),
                decreases t.1 - line,
            {
                line += 1;
                if 1 <= line && line <= contents.len() {
                    assert(cs[line - 1] == contents@[line - 1]@);
                    if is_short(&contents[line - 1], t) {
                        let v = Violation {
                            rule_id: ID,
                            message: MESSAGE.to_string(),
                            span: Span { line, column: 1, length: 1 },
                        };
                        proof {
                            lemma_violations_push(vs@, v);
                        }
                        vs.push(v);
                        assert(violations_view(vs@) =~= base + line_violations(cs, tt, line as int));
                    }
                }
            }
            assert(paragraph_violations(cs, tv, n + 1) == paragraph_violations(cs, tv, n as int)
                + line_violations(cs, tt, tt.1 as int));
            n += 1;
        }
        vs
    }

    /// The rule only flags: it never rewrites.
    pub fn fix(&self, doc: &Document) -> (r: Option<String>)
        ensures
            r is None,
    {
        None
    }
}

} // verus!
