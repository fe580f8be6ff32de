//! The rule registry: every rule is one definition with a detector and a fixer.
use vstd::prelude::*;
use crate::ast::Edge;
use crate::document::Document;
use crate::rules::emphasis::{self, Emphasis};
use crate::rules::nested_indent::{self, NestedIndent};
use crate::rules::continuation_indent::{self, ContinuationIndent};
use crate::rules::ordered_list::{self, OrderedList};
use crate::rules::blockquote_marker::{self, BlockquoteMarker};
use crate::rules::code_fence::{self, CodeFence};
use crate::rules::list_marker_space::{self, ListMarkerSpace};
use crate::rules::atx_heading::{self, AtxHeading};
use crate::rules::hard_tabs::{self, HardTabs};
use crate::rules::list_marker::{self, ListMarker};
use crate::rules::block_spacing::{self, BlockSpacing};
use crate::rules::byte_order_mark::{self, ByteOrderMark};
use crate::rules::final_newline::{self, FinalNewline};
use crate::rules::heading_increment::{self, HeadingIncrement};
use crate::rules::heading_style::{self, HeadingStyle};
use crate::rules::line_endings::{self, LineEndings};
use crate::rules::sentence_per_line::{self, SentencePerLine};
use crate::rules::single_h1::{self, SingleH1};
use crate::rules::trailing_whitespace::{self, TrailingWhitespace};
use crate::violation::{Span, Violation, violations_view};

verus! {

/// Whether a rule fixes what it finds, only flags it, or does both.
#[derive(Clone, Copy, Debug, PartialEq, Eq, Structural)]
pub enum RuleKind {
    Fix,
    Flag,
    Both,
}

/// One of the built-in rules.
pub enum Rule {
    ByteOrderMark(ByteOrderMark),
    LineEndings(LineEndings),
    TrailingWhitespace(TrailingWhitespace),
    HardTabs(HardTabs),
    FinalNewline(FinalNewline),
    HeadingIncrement(HeadingIncrement),
    HeadingStyle(HeadingStyle),
    AtxHeading(AtxHeading),
    CodeFence(CodeFence),
    ListMarker(ListMarker),
    ListMarkerSpace(ListMarkerSpace),
    OrderedList(OrderedList),
    BlockquoteMarker(BlockquoteMarker),
    NestedIndent(NestedIndent),
    Emphasis(Emphasis),
    SentencePerLine(SentencePerLine),
    BlockSpacing(BlockSpacing),
    SingleH1(SingleH1),
    ContinuationIndent(ContinuationIndent),
}

impl Rule {
    /// The rule's id.
    pub open spec fn spec_id(self) -> Seq<char> {
        match self {
            Rule::ByteOrderMark(_) => byte_order_mark::ID@,
            Rule::LineEndings(_) => line_endings::ID@,
            Rule::TrailingWhitespace(_) => trailing_whitespace::ID@,
            Rule::HardTabs(_) => hard_tabs::ID@,
            Rule::FinalNewline(_) => final_newline::ID@,
            Rule::HeadingIncrement(_) => heading_increment::ID@,
            Rule::HeadingStyle(_) => heading_style::ID@,
            Rule::AtxHeading(_) => atx_heading::ID@,
            Rule::CodeFence(_) => code_fence::ID@,
            Rule::ListMarker(_) => list_marker::ID@,
            Rule::ListMarkerSpace(_) => list_marker_space::ID@,
            Rule::OrderedList(_) => ordered_list::ID@,
            Rule::BlockquoteMarker(_) => blockquote_marker::ID@,
            Rule::NestedIndent(_) => nested_indent::ID@,
            Rule::Emphasis(_) => emphasis::ID@,
            Rule::SentencePerLine(_) => sentence_per_line::ID@,
            Rule::BlockSpacing(_) => block_spacing::ID@,
            Rule::SingleH1(_) => single_h1::ID@,
            Rule::ContinuationIndent(_) => continuation_indent::ID@,
        }
    }

    /// The rule's one-line reason.
    pub open spec fn spec_short_reason(self) -> Seq<char> {
        match self {
            Rule::ByteOrderMark(_) => byte_order_mark::SHORT_REASON@,
            Rule::LineEndings(_) => line_endings::SHORT_REASON@,
            Rule::TrailingWhitespace(_) => trailing_whitespace::SHORT_REASON@,
            Rule::HardTabs(_) => hard_tabs::SHORT_REASON@,
            Rule::FinalNewline(_) => final_newline::SHORT_REASON@,
            Rule::HeadingIncrement(_) => heading_increment::SHORT_REASON@,
            Rule::HeadingStyle(_) => heading_style::SHORT_REASON@,
            Rule::AtxHeading(_) => atx_heading::SHORT_REASON@,
            Rule::CodeFence(_) => code_fence::SHORT_REASON@,
            Rule::ListMarker(_) => list_marker::SHORT_REASON@,
            Rule::ListMarkerSpace(_) => list_marker_space::SHORT_REASON@,
            Rule::OrderedList(_) => ordered_list::SHORT_REASON@,
            Rule::BlockquoteMarker(_) => blockquote_marker::SHORT_REASON@,
            Rule::NestedIndent(_) => nested_indent::SHORT_REASON@,
            Rule::Emphasis(_) => emphasis::SHORT_REASON@,
            Rule::SentencePerLine(_) => sentence_per_line::SHORT_REASON@,
            Rule::BlockSpacing(_) => block_spacing::SHORT_REASON@,
            Rule::SingleH1(_) => single_h1::SHORT_REASON@,
            Rule::ContinuationIndent(_) => continuation_indent::SHORT_REASON@,
        }
    }

    /// The rule's full rationale.
    pub open spec fn spec_rationale(self) -> Seq<char> {
        match self {
            Rule::ByteOrderMark(_) => byte_order_mark::RATIONALE@,
            Rule::LineEndings(_) => line_endings::RATIONALE@,
            Rule::TrailingWhitespace(_) => trailing_whitespace::RATIONALE@,
            Rule::HardTabs(_) => hard_tabs::RATIONALE@,
            Rule::FinalNewline(_) => final_newline::RATIONALE@,
            Rule::HeadingIncrement(_) => heading_increment::RATIONALE@,
            Rule::HeadingStyle(_) => heading_style::RATIONALE@,
            Rule::AtxHeading(_) => atx_heading::RATIONALE@,
            Rule::CodeFence(_) => code_fence::RATIONALE@,
            Rule::ListMarker(_) => list_marker::RATIONALE@,
            Rule::ListMarkerSpace(_) => list_marker_space::RATIONALE@,
            Rule::OrderedList(_) => ordered_list::RATIONALE@,
            Rule::BlockquoteMarker(_) => blockquote_marker::RATIONALE@,
            Rule::NestedIndent(_) => nested_indent::RATIONALE@,
            Rule::Emphasis(_) => emphasis::RATIONALE@,
            Rule::SentencePerLine(_) => sentence_per_line::RATIONALE@,
            Rule::BlockSpacing(_) => block_spacing::RATIONALE@,
            Rule::SingleH1(_) => single_h1::RATIONALE@,
            Rule::ContinuationIndent(_) => continuation_indent::RATIONALE@,
        }
    }

    /// What the rule reports on a source with the given outline.
    pub open spec fn spec_detect(self, source: Seq<char>, outline: Seq<Edge>) -> Seq<
        (Seq<char>, Seq<char>, Span),
    > {
        match self {
            Rule::ByteOrderMark(_) => byte_order_mark::spec_detect(source),
            Rule::LineEndings(_) => line_endings::spec_detect(source),
            Rule::TrailingWhitespace(_) => trailing_whitespace::spec_detect(source),
            Rule::HardTabs(_) => hard_tabs::spec_detect(source, outline),
            Rule::FinalNewline(_) => final_newline::spec_detect(source),
            Rule::HeadingIncrement(_) => heading_increment::spec_detect(source, outline),
            Rule::HeadingStyle(_) => heading_style::spec_rewrite(source, outline).0,
            Rule::AtxHeading(_) => atx_heading::spec_detect(source, outline),
            Rule::CodeFence(_) => code_fence::spec_detect(source, outline),
            Rule::ListMarker(_) => list_marker::spec_detect(source, outline),
            Rule::ListMarkerSpace(_) => list_marker_space::spec_detect(source, outline),
            Rule::OrderedList(_) => ordered_list::spec_detect(source, outline),
            Rule::BlockquoteMarker(_) => blockquote_marker::spec_detect(source, outline),
            Rule::NestedIndent(_) => nested_indent::spec_detect(source, outline),
            Rule::Emphasis(_) => emphasis::spec_detect(source, outline),
            Rule::SentencePerLine(_) => sentence_per_line::spec_rewrite(source, outline).0,
            Rule::BlockSpacing(_) => block_spacing::spec_rewrite(source, outline).0,
            Rule::SingleH1(_) => single_h1::spec_detect(source, outline),
            Rule::ContinuationIndent(_) => continuation_indent::spec_detect(source, outline),
        }
    }

    /// What the rule's fixer makes of a source with the given outline.
    pub open spec fn spec_fix(self, source: Seq<char>, outline: Seq<Edge>) -> Seq<char> {
        match self {
            Rule::ByteOrderMark(_) => byte_order_mark::spec_fix(source),
            Rule::LineEndings(_) => line_endings::spec_fix(source),
            Rule::TrailingWhitespace(_) => trailing_whitespace::spec_fix(source),
            Rule::HardTabs(_) => hard_tabs::spec_fix(source, outline),
            Rule::FinalNewline(_) => final_newline::spec_fixed_source(source),
            Rule::HeadingIncrement(_) => source,
            Rule::HeadingStyle(_) => heading_style::spec_rewrite(source, outline).1,
            Rule::AtxHeading(_) => atx_heading::spec_fix(source, outline),
            Rule::CodeFence(_) => code_fence::spec_fix(source, outline),
            Rule::ListMarker(_) => list_marker::spec_fix(source, outline),
            Rule::ListMarkerSpace(_) => list_marker_space::spec_fix(source, outline),
            Rule::OrderedList(_) => ordered_list::spec_fix(source, outline),
            Rule::BlockquoteMarker(_) => blockquote_marker::spec_fix(source, outline),
            Rule::NestedIndent(_) => nested_indent::spec_fix(source, outline),
            Rule::Emphasis(_) => emphasis::spec_fix(source, outline),
            Rule::SentencePerLine(_) => sentence_per_line::spec_rewrite(source, outline).1,
            Rule::BlockSpacing(_) => block_spacing::spec_rewrite(source, outline).1,
            Rule::SingleH1(_) => source,
            Rule::ContinuationIndent(_) => source,
        }
    }

    pub fn id(&self) -> (r: &'static str)
        ensures
            r@ == self.spec_id(),
    {
        match self {
            Rule::ByteOrderMark(r) => r.id(),
            Rule::LineEndings(r) => r.id(),
            Rule::TrailingWhitespace(r) => r.id(),
            Rule::HardTabs(r) => r.id(),
            Rule::FinalNewline(r) => r.id(),
            Rule::HeadingIncrement(r) => r.id(),
            Rule::HeadingStyle(r) => r.id(),
            Rule::AtxHeading(r) => r.id(),
            Rule::CodeFence(r) => r.id(),
            Rule::ListMarker(r) => r.id(),
            Rule::ListMarkerSpace(r) => r.id(),
            Rule::OrderedList(r) => r.id(),
            Rule::BlockquoteMarker(r) => r.id(),
            Rule::NestedIndent(r) => r.id(),
            Rule::Emphasis(r) => r.id(),
            Rule::SentencePerLine(r) => r.id(),
            Rule::BlockSpacing(r) => r.id(),
            Rule::SingleH1(r) => r.id(),
            Rule::ContinuationIndent(r) => r.id(),
        }
    }

    pub fn short_reason(&self) -> (r: &'static str)
        ensures
            r@ == self.spec_short_reason(),
    {
        match self {
            Rule::ByteOrderMark(r) => r.short_reason(),
            Rule::LineEndings(r) => r.short_reason(),
            Rule::TrailingWhitespace(r) => r.short_reason(),
            Rule::HardTabs(r) => r.short_reason(),
            Rule::FinalNewline(r) => r.short_reason(),
            Rule::HeadingIncrement(r) => r.short_reason(),
            Rule::HeadingStyle(r) => r.short_reason(),
            Rule::AtxHeading(r) => r.short_reason(),
            Rule::CodeFence(r) => r.short_reason(),
            Rule::ListMarker(r) => r.short_reason(),
            Rule::ListMarkerSpace(r) => r.short_reason(),
            Rule::OrderedList(r) => r.short_reason(),
            Rule::BlockquoteMarker(r) => r.short_reason(),
            Rule::NestedIndent(r) => r.short_reason(),
            Rule::Emphasis(r) => r.short_reason(),
            Rule::SentencePerLine(r) => r.short_reason(),
            Rule::BlockSpacing(r) => r.short_reason(),
            Rule::SingleH1(r) => r.short_reason(),
            Rule::ContinuationIndent(r) => r.short_reason(),
        }
    }

    pub fn rationale(&self) -> (r: &'static str)
        ensures
            r@ == self.spec_rationale(),
    {
        match self {
            Rule::ByteOrderMark(r) => r.rationale(),
            Rule::LineEndings(r) => r.rationale(),
            Rule::TrailingWhitespace(r) => r.rationale(),
            Rule::HardTabs(r) => r.rationale(),
            Rule::FinalNewline(r) => r.rationale(),
            Rule::HeadingIncrement(r) => r.rationale(),
            Rule::HeadingStyle(r) => r.rationale(),
            Rule::AtxHeading(r) => r.rationale(),
            Rule::CodeFence(r) => r.rationale(),
            Rule::ListMarker(r) => r.rationale(),
            Rule::ListMarkerSpace(r) => r.rationale(),
            Rule::OrderedList(r) => r.rationale(),
            Rule::BlockquoteMarker(r) => r.rationale(),
            Rule::NestedIndent(r) => r.rationale(),
            Rule::Emphasis(r) => r.rationale(),
            Rule::SentencePerLine(r) => r.rationale(),
            Rule::BlockSpacing(r) => r.rationale(),
            Rule::SingleH1(r) => r.rationale(),
            Rule::ContinuationIndent(r) => r.rationale(),
        }
    }

    /// Whether the rule fixes what it finds or only flags it.
    pub open spec fn spec_kind(self) -> RuleKind {
        match self {
            Rule::HeadingIncrement(_) | Rule::SingleH1(_) | Rule::ContinuationIndent(_) => RuleKind::Flag,
            Rule::CodeFence(_) => RuleKind::Both,
            _ => RuleKind::Fix,
        }
    }

    pub fn kind(&self) -> (k: RuleKind)
        ensures
            k == self.spec_kind(),
    {
        match self {
            Rule::HeadingIncrement(_) | Rule::SingleH1(_) | Rule::ContinuationIndent(_) => RuleKind::Flag,
            Rule::CodeFence(_) => RuleKind::Both,
            _ => RuleKind::Fix,
        }
    }

    pub fn detect(&self, doc: &Document) -> (vs: Vec<Violation>)
        ensures
            violations_view(vs@) == self.spec_detect(doc.source@, doc.outline@),
    {
        match self {
            Rule::ByteOrderMark(r) => r.detect(doc),
            Rule::LineEndings(r) => r.detect(doc),
            Rule::TrailingWhitespace(r) => r.detect(doc),
            Rule::HardTabs(r) => r.detect(doc),
            Rule::FinalNewline(r) => r.detect(doc),
            Rule::HeadingIncrement(r) => r.detect(doc),
            Rule::HeadingStyle(r) => r.detect(doc),
            Rule::AtxHeading(r) => r.detect(doc),
            Rule::CodeFence(r) => r.detect(doc),
            Rule::ListMarker(r) => r.detect(doc),
            Rule::ListMarkerSpace(r) => r.detect(doc),
            Rule::OrderedList(r) => r.detect(doc),
            Rule::BlockquoteMarker(r) => r.detect(doc),
            Rule::NestedIndent(r) => r.detect(doc),
            Rule::Emphasis(r) => r.detect(doc),
            Rule::SentencePerLine(r) => r.detect(doc),
            Rule::BlockSpacing(r) => r.detect(doc),
            Rule::SingleH1(r) => r.detect(doc),
            Rule::ContinuationIndent(r) => r.detect(doc),
        }
    }

    /// The fixed source, or nothing from a rule that only flags; the fix of
    /// such a rule is the source itself.
    pub fn fix(&self, doc: &Document) -> (r: Option<String>)
        ensures
            self.spec_kind() == RuleKind::Flag ==> r is None,
            self.spec_kind() != RuleKind::Flag ==> (r matches Some(fixed) && fixed@
                == self.spec_fix(doc.source@, doc.outline@)),
            self.spec_kind() == RuleKind::Flag ==> self.spec_fix(doc.source@, doc.outline@)
                == doc.source@,
    {
        match self {
            Rule::ByteOrderMark(r) => r.fix(doc),
            Rule::LineEndings(r) => r.fix(doc),
            Rule::TrailingWhitespace(r) => r.fix(doc),
            Rule::HardTabs(r) => r.fix(doc),
            Rule::FinalNewline(r) => r.fix(doc),
            Rule::HeadingIncrement(r) => r.fix(doc),
            Rule::HeadingStyle(r) => r.fix(doc),
            Rule::AtxHeading(r) => r.fix(doc),
            Rule::CodeFence(r) => r.fix(doc),
            Rule::ListMarker(r) => r.fix(doc),
            Rule::ListMarkerSpace(r) => r.fix(doc),
            Rule::OrderedList(r) => r.fix(doc),
            Rule::BlockquoteMarker(r) => r.fix(doc),
            Rule::NestedIndent(r) => r.fix(doc),
            Rule::Emphasis(r) => r.fix(doc),
            Rule::SentencePerLine(r) => r.fix(doc),
            Rule::BlockSpacing(r) => r.fix(doc),
            Rule::SingleH1(r) => r.fix(doc),
            Rule::ContinuationIndent(r) => r.fix(doc),
        }
    }
}

} // verus!
