pub mod ast;
pub mod chars;
pub mod document;
pub mod rule;
pub mod rules;
pub mod sentence;
pub mod text;
pub mod report;
pub mod violation;

pub use document::Document;
pub use rule::Rule;
pub use violation::{Span, Violation};

use vstd::prelude::*;
use crate::ast::Edge;
use crate::document::markdown_outline;
use crate::rules::block_spacing::{BlockSpacing, blocks_in_order, top_blocks};
use crate::rules::byte_order_mark::ByteOrderMark;
use crate::rules::emphasis::Emphasis;
use crate::rules::nested_indent::NestedIndent;
use crate::rules::continuation_indent::ContinuationIndent;
use crate::rules::ordered_list::OrderedList;
use crate::rules::blockquote_marker::BlockquoteMarker;
use crate::rules::code_fence::CodeFence;
use crate::rules::list_marker_space::ListMarkerSpace;
use crate::rules::atx_heading::AtxHeading;
use crate::rules::hard_tabs::HardTabs;
use crate::rules::list_marker::ListMarker;
use crate::rules::final_newline::FinalNewline;
use crate::rules::heading_increment::HeadingIncrement;
use crate::rules::heading_style::HeadingStyle;
use crate::rules::single_h1::SingleH1;
use crate::rules::line_endings::LineEndings;
use crate::rules::sentence_per_line::SentencePerLine;
use crate::rules::trailing_whitespace::TrailingWhitespace;
use crate::rules::byte_order_mark::starts_with_bom;
use crate::rules::line_endings::normalized;
use crate::text::{
    crlf, join_lines, lemma_split_lines_rejoin, lemma_split_lines_well_formed, lemma_without_trailing_cr,
    lf, spec_dominant_newline, spec_split_lines, without_trailing_cr,
};
use crate::violation::violations_view;

verus! {

/// The rule set, in the order the fixers run.
pub open spec fn spec_default_rules() -> Seq<Rule> {
    seq![
        Rule::ByteOrderMark(ByteOrderMark),
        Rule::LineEndings(LineEndings),
        Rule::TrailingWhitespace(TrailingWhitespace),
        Rule::HardTabs(HardTabs),
        Rule::FinalNewline(FinalNewline),
        Rule::HeadingIncrement(HeadingIncrement),
        Rule::HeadingStyle(HeadingStyle),
        Rule::AtxHeading(AtxHeading),
        Rule::CodeFence(CodeFence),
        Rule::ListMarker(ListMarker),
        Rule::ListMarkerSpace(ListMarkerSpace),
        Rule::OrderedList(OrderedList),
        Rule::BlockquoteMarker(BlockquoteMarker),
        Rule::NestedIndent(NestedIndent),
        Rule::Emphasis(Emphasis),
        Rule::SentencePerLine(SentencePerLine),
        Rule::BlockSpacing(BlockSpacing),
        Rule::SingleH1(SingleH1),
        Rule::ContinuationIndent(ContinuationIndent),
    ]
}

/// The built-in, opinionated rule set. Every rule is always on.
pub fn default_rules() -> (rules: Vec<Rule>)
    ensures
        rules@ == spec_default_rules(),
{
    let mut rules: Vec<Rule> = Vec::new();
    // These two come first, so every later fixer works on a document whose
    // bytes are already normalised. The byte order mark in particular has to go
    // before any rule can rewrite the first line and carry it into the text.
    rules.push(Rule::ByteOrderMark(ByteOrderMark));
    rules.push(Rule::LineEndings(LineEndings));
    rules.push(Rule::TrailingWhitespace(TrailingWhitespace));
    rules.push(Rule::HardTabs(HardTabs));
    rules.push(Rule::FinalNewline(FinalNewline));
    rules.push(Rule::HeadingIncrement(HeadingIncrement));
    rules.push(Rule::HeadingStyle(HeadingStyle));
    rules.push(Rule::AtxHeading(AtxHeading));
    rules.push(Rule::CodeFence(CodeFence));
    rules.push(Rule::ListMarker(ListMarker));
    rules.push(Rule::ListMarkerSpace(ListMarkerSpace));
    rules.push(Rule::OrderedList(OrderedList));
    rules.push(Rule::BlockquoteMarker(BlockquoteMarker));
    rules.push(Rule::NestedIndent(NestedIndent));
    rules.push(Rule::Emphasis(Emphasis));
    rules.push(Rule::SentencePerLine(SentencePerLine));
    rules.push(Rule::BlockSpacing(BlockSpacing));
    rules.push(Rule::SingleH1(SingleH1));
    rules.push(Rule::ContinuationIndent(ContinuationIndent));
    assert(rules@ =~= spec_default_rules());
    rules
}

/// Every rule's violations on one document, rule after rule.
pub open spec fn spec_lint(source: Seq<char>, outline: Seq<Edge>, rules: Seq<Rule>) -> Seq<
    (Seq<char>, Seq<char>, Span),
>
    decreases rules.len(),
{
    if rules.len() == 0 {
        Seq::empty()
    } else {
        spec_lint(source, outline, rules.drop_last()) + rules.last().spec_detect(source, outline)
    }
}

/// Run every rule's detector against a document and collect the violations.
pub fn lint(doc: &Document, rules: &[Rule]) -> (vs: Vec<Violation>)
    ensures
        violations_view(vs@) == spec_lint(doc.source@, doc.outline@, rules@),
{
    let mut vs: Vec<Violation> = Vec::new();
    let mut i: usize = 0;
    assert(violations_view(vs@) =~= spec_lint(doc.source@, doc.outline@, rules@.take(0)));
    while i < rules.len()
        invariant
            i <= rules@.len(),
            violations_view(vs@) == spec_lint(doc.source@, doc.outline@, rules@.take(i as int)),
        decreases rules@.len() - i,
    {
        assert(rules@.take(i + 1).drop_last() =~= rules@.take(i as int));
        let mut found = rules[i].detect(doc);
        let ghost before = vs@;
        let ghost found_view = found@;
        vs.append(&mut found);
        assert(violations_view(vs@) =~= violations_view(before) + violations_view(found_view));
        i += 1;
    }
    assert(rules@.take(i as int) =~= rules@);
    vs
}

/// The text after the first `n` fixers have run, each on the previous one's
/// output as parsed afresh.
pub open spec fn spec_format_upto(source: Seq<char>, rules: Seq<Rule>, n: int) -> Seq<char>
    decreases n,
{
    if n <= 0 {
        source
    } else {
        let current = spec_format_upto(source, rules, n - 1);
        rules[n - 1].spec_fix(current, markdown_outline(current))
    }
}

/// Apply every rule's fixer in order, each seeing the previous fixer's output.
///
/// A fresh `Document` per rule means each fixer parses the current source, so
/// structural fixers work against up-to-date structure. What is proved of the
/// result is stated beside it: a lint-clean source comes out unchanged, and
/// three of the fixers that work on lines alone leave their own output as it is.
pub fn format(source: &str, rules: &[Rule]) -> (out: String)
    ensures
        out@ == spec_format_upto(source@, rules@, rules@.len() as int),
{
    let mut current = source.to_string();
    let mut i: usize = 0;
    while i < rules.len()
        invariant
            i <= rules@.len(),
            current@ == spec_format_upto(source@, rules@, i as int),
        decreases rules@.len() - i,
    {
        if let Some(fixed) = rules[i].fix(&Document::new(current.as_str())) {
            current = fixed;
        }
        i += 1;
    }
    current
}

/// Formatting with more rules after the first ones leaves what the first ones
/// made as it was up to them.
proof fn lemma_format_prefix(source: Seq<char>, rules: Seq<Rule>, more: Seq<Rule>, n: int)
    requires
        n <= rules.len(),
    ensures
        spec_format_upto(source, rules + more, n) == spec_format_upto(source, rules, n),
    decreases n,
{
    if n > 0 {
        lemma_format_prefix(source, rules, more, n - 1);
        assert((rules + more)[n - 1] == rules[n - 1]);
    }
}

/// Format applies every rule's fixer in turn, whatever its kind: formatting
/// with one rule more is that rule's fix of what the rules before it made,
/// taken with a fresh parse of that text. A rule that only flags has the text
/// itself as its fix, so it changes nothing.
pub proof fn law_format_applies_each_fixer(source: Seq<char>, rules: Seq<Rule>, r: Rule)
    ensures
        ({
            let before = spec_format_upto(source, rules, rules.len() as int);
            &&& spec_format_upto(source, rules.push(r), rules.len() + 1int) == r.spec_fix(
                before,
                markdown_outline(before),
            )
            &&& r.spec_kind() == crate::rule::RuleKind::Flag ==> spec_format_upto(
                source,
                rules.push(r),
                rules.len() + 1int,
            ) == before
        }),
{
    lemma_format_prefix(source, rules, seq![r], rules.len() as int);
    assert(rules.push(r) =~= rules + seq![r]);
    assert(rules.push(r)[rules.len() as int] == r);
}

/// Formatting with a single rule is that rule's fix.
pub proof fn law_format_with_one_rule(source: Seq<char>, r: Rule)
    ensures
        spec_format_upto(source, seq![r], 1) == r.spec_fix(source, markdown_outline(source)),
{
    law_format_applies_each_fixer(source, Seq::empty(), r);
    assert(Seq::<Rule>::empty().push(r) =~= seq![r]);
}

proof fn lemma_lint_clean(source: Seq<char>, outline: Seq<Edge>, rules: Seq<Rule>)
    requires
        spec_lint(source, outline, rules).len() == 0,
    ensures
        forall|k: int|
            0 <= k < rules.len() ==> (#[trigger] rules[k]).spec_detect(source, outline).len() == 0,
    decreases rules.len(),
{
    if rules.len() > 0 {
        lemma_lint_clean(source, outline, rules.drop_last());
        assert forall|k: int| 0 <= k < rules.len() implies (#[trigger] rules[k]).spec_detect(
            source,
            outline,
        ).len() == 0 by {
            if k < rules.len() - 1 {
                assert(rules[k] == rules.drop_last()[k]);
            }
        }
    }
}

proof fn lemma_format_fixed_point(source: Seq<char>, rules: Seq<Rule>, n: int)
    requires
        0 <= n <= rules.len(),
        forall|k: int|
            0 <= k < rules.len() ==> (#[trigger] rules[k]).spec_fix(source, markdown_outline(source))
                == source,
    ensures
        spec_format_upto(source, rules, n) == source,
    decreases n,
{
    if n > 0 {
        lemma_format_fixed_point(source, rules, n - 1);
    }
}

/// There is no separate check mode: lint already reports everything format
/// would change. With the default rules, a source on which lint reports nothing
/// comes out of format exactly as it went in, given that its top-level blocks
/// come in order.
pub proof fn law_lint_clean_means_format_unchanged(source: Seq<char>)
    requires
        spec_lint(source, markdown_outline(source), spec_default_rules()).len() == 0,
        blocks_in_order(top_blocks(markdown_outline(source), spec_split_lines(source).len())),
    ensures
        spec_format_upto(source, spec_default_rules(), spec_default_rules().len() as int)
            == source,
{
    let outline = markdown_outline(source);
    let rules = spec_default_rules();
    lemma_lint_clean(source, outline, rules);
    assert(rules[0].spec_detect(source, outline).len() == 0);
    assert(rules[1].spec_detect(source, outline).len() == 0);
    assert(rules[2].spec_detect(source, outline).len() == 0);
    assert(rules[3].spec_detect(source, outline).len() == 0);
    assert(rules[4].spec_detect(source, outline).len() == 0);
    assert(rules[5].spec_detect(source, outline).len() == 0);
    assert(rules[6].spec_detect(source, outline).len() == 0);
    assert(rules[7].spec_detect(source, outline).len() == 0);
    assert(rules[8].spec_detect(source, outline).len() == 0);
    assert(rules[9].spec_detect(source, outline).len() == 0);
    assert(rules[10].spec_detect(source, outline).len() == 0);
    assert(rules[11].spec_detect(source, outline).len() == 0);
    assert(rules[12].spec_detect(source, outline).len() == 0);
    assert(rules[13].spec_detect(source, outline).len() == 0);
    assert(rules[14].spec_detect(source, outline).len() == 0);
    assert(rules[15].spec_detect(source, outline).len() == 0);
    assert(rules[16].spec_detect(source, outline).len() == 0);
    assert(rules[17].spec_detect(source, outline).len() == 0);
    assert(rules[18].spec_detect(source, outline).len() == 0);
    crate::rules::byte_order_mark::law_detect_iff_fix_changes(source);
    crate::rules::line_endings::law_consistent_file_untouched(source);
    crate::rules::trailing_whitespace::law_no_violation_means_no_change(source);
    crate::rules::final_newline::law_detect_iff_fix_changes(source);
    crate::rules::heading_style::law_no_violation_means_no_change(source, outline);
    crate::rules::sentence_per_line::law_no_violation_means_no_change(source, outline);
    crate::rules::block_spacing::law_no_violation_means_no_change(source, outline);
    crate::rules::list_marker::law_no_violation_means_no_change(source, outline);
    crate::rules::hard_tabs::law_no_violation_means_no_change(source, outline);
    crate::rules::atx_heading::law_no_violation_means_no_change(source, outline);
    crate::rules::list_marker_space::law_no_violation_means_no_change(source, outline);
    crate::rules::code_fence::law_no_violation_means_no_change(source, outline);
    crate::rules::blockquote_marker::law_no_violation_means_no_change(source, outline);
    crate::rules::ordered_list::law_no_violation_means_no_change(source, outline);
    crate::rules::nested_indent::law_no_violation_means_no_change(source, outline);
    crate::rules::emphasis::law_no_violation_means_no_change(source, outline);
    assert forall|k: int| 0 <= k < rules.len() implies (#[trigger] rules[k]).spec_fix(
        source,
        markdown_outline(source),
    ) == source by {}
    lemma_format_fixed_point(source, rules, rules.len() as int);
}

/// What three of the fixers that work on lines alone (byte order mark, line
/// endings, final newline) make of a source, one after another in the order
/// format runs them.
pub open spec fn spec_line_fixes(source: Seq<char>) -> Seq<char> {
    crate::rules::final_newline::spec_fixed_source(
        crate::rules::line_endings::spec_fix(crate::rules::byte_order_mark::spec_fix(source)),
    )
}

proof fn lemma_join_first(ls: Seq<(Seq<char>, Seq<char>)>)
    requires
        ls.len() > 0,
        (ls[0].0 + ls[0].1).len() > 0,
    ensures
        join_lines(ls).len() > 0,
        join_lines(ls)[0] == (ls[0].0 + ls[0].1)[0],
{
    assert(join_lines(ls) == ls[0].0 + ls[0].1 + join_lines(ls.drop_first()));
}

/// Fixing line endings keeps the first character, or makes it a line ending.
proof fn lemma_line_endings_first(a: Seq<char>)
    ensures
        crate::rules::line_endings::spec_fix(a).len() > 0 ==> a.len() > 0 && (
        crate::rules::line_endings::spec_fix(a)[0] == a[0]
            || crate::rules::line_endings::spec_fix(a)[0] == '\r'
            || crate::rules::line_endings::spec_fix(a)[0] == '\n'),
{
    let ls = spec_split_lines(a);
    let nl = spec_dominant_newline(a);
    let f = ls.map_values(|l: (Seq<char>, Seq<char>)| normalized(l, nl));
    lemma_split_lines_well_formed(a);
    lemma_split_lines_rejoin(a);
    let b = crate::rules::line_endings::spec_fix(a);
    assert(b == join_lines(f));
    let first = ls[0];
    let f0 = f[0];
    assert(f0 == normalized(first, nl));
    lemma_without_trailing_cr(first.0);
    if b.len() > 0 {
        if (f0.0 + f0.1).len() == 0 {
            assert(ls.len() == 1);
            assert(f.drop_first().len() == 0);
            assert(join_lines(f) == f0.0 + f0.1 + join_lines(f.drop_first()));
        } else {
            lemma_join_first(f);
            if f0.0.len() > 0 {
                assert(f0.0[0] == first.0[0]);
                lemma_join_first(ls);
                assert((first.0 + first.1)[0] == first.0[0]);
                assert((f0.0 + f0.1)[0] == f0.0[0]);
            } else {
                assert((f0.0 + f0.1)[0] == f0.1[0]);
                assert(f0.1 == lf() || f0.1 == crlf());
                if first.0.len() + first.1.len() > 0 {
                    lemma_join_first(ls);
                }
            }
        }
    }
}

/// Fixing the final newline keeps the first character, or makes it a line ending.
proof fn lemma_final_newline_first(b: Seq<char>)
    ensures
        crate::rules::final_newline::spec_fixed_source(b).len() > 0 ==> b.len() > 0 && (
        crate::rules::final_newline::spec_fixed_source(b)[0] == b[0]
            || crate::rules::final_newline::spec_fixed_source(b)[0] == '\r'
            || crate::rules::final_newline::spec_fixed_source(b)[0] == '\n'),
{
    let lb = spec_split_lines(b);
    let content = crate::rules::final_newline::content_lines(lb);
    let nl = spec_dominant_newline(b);
    let c = crate::rules::final_newline::spec_fixed_source(b);
    lemma_split_lines_well_formed(b);
    lemma_split_lines_rejoin(b);
    crate::rules::final_newline::lemma_trailing_blanks_bound(lb);
    if content.len() > 0 {
        let m = content.len() as int;
        let last = content.last();
        assert(content[0] == lb[0]);
        assert(last == lb[m - 1]);
        if last.1.len() > 0 || m >= 2 {
            let pre = if last.1.len() > 0 {
                content
            } else {
                content.drop_last()
            };
            assert(pre[0] == lb[0]);
            assert(lb[0].1.len() > 0);
            lemma_join_first(pre);
            lemma_join_first(lb);
            assert(c[0] == join_lines(pre)[0]);
        } else {
            let w = if nl == lf() {
                without_trailing_cr(last.0)
            } else {
                last.0
            };
            lemma_without_trailing_cr(last.0);
            assert(content.drop_last().len() == 0);
            assert(join_lines(content.drop_last()) == Seq::<char>::empty());
            assert(nl == lf() || nl == crlf());
            if w.len() > 0 {
                assert(w[0] == lb[0].0[0]);
                lemma_join_first(lb);
                assert(c[0] == w[0]);
            } else {
                assert(c[0] == nl[0]);
            }
        }
    }
}

/// Running the byte order mark, line endings and final newline fixers twice,
/// one after another in format's order, is running them once: they leave their
/// own output as it is. The one
/// exception is a source that starts with two marks, whose second is text
/// until the first is gone.
pub proof fn law_line_fixes_are_idempotent(source: Seq<char>)
    requires
        !(starts_with_bom(source) && starts_with_bom(source.drop_first())),
    ensures
        spec_line_fixes(spec_line_fixes(source)) == spec_line_fixes(source),
{
    let a = crate::rules::byte_order_mark::spec_fix(source);
    let b = crate::rules::line_endings::spec_fix(a);
    let c = crate::rules::final_newline::spec_fixed_source(b);
    assert(!starts_with_bom(a));
    crate::rules::line_endings::law_fixed_file_is_consistent(a);
    crate::rules::final_newline::law_fix_is_stable(b);
    lemma_line_endings_first(a);
    lemma_final_newline_first(b);
    assert(!starts_with_bom(b));
    assert(!starts_with_bom(c));
    assert(crate::rules::byte_order_mark::spec_fix(c) == c);
    crate::rules::line_endings::law_consistent_file_untouched(c);
}

} // verus!
