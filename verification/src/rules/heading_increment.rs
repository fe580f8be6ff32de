use vstd::prelude::*;
use crate::ast::Edge;
use crate::document::Document;
use crate::rules::headings::{collect_headings, contents_of, headings_of, headings_view, line_contents};
use crate::violation::{Span, Violation, lemma_violations_push, violations_view};

verus! {

/// Heading levels go up one at a time: a heading more than one level deeper
/// than the heading before it is reported. Nothing is rewritten.
pub struct HeadingIncrement;

pub const ID: &'static str = "heading-increment";

pub const SHORT_REASON: &'static str = "Heading levels should increase one at a time.";

pub const RATIONALE: &'static str = "Skipping a heading level, for example jumping from # straight to ###, breaks the document outline that screen readers and tables of contents rely on. Increase depth one level at a time. This is reported but never fixed automatically, because only you know which level a heading was meant to be.";

pub const MESSAGE: &'static str = "heading level skips a level";

/// One violation for each of the first `n` headings that is more than one
/// level deeper than the heading before it, at the heading's start.
pub open spec fn skips(hs: Seq<(usize, usize, nat)>, n: int) -> Seq<(Seq<char>, Seq<char>, Span)>
    decreases n,
{
    if n <= 1 {
        Seq::empty()
    } else {
        let before = skips(hs, n - 1);
        if hs[n - 1].2 > hs[n - 2].2 + 1 {
            before.push((ID@, MESSAGE@, Span { line: hs[n - 1].0, column: hs[n - 1].1, length: 1 }))
        } else {
            before
        }
    }
}

pub open spec fn spec_detect(source: Seq<char>, outline: Seq<Edge>) -> Seq<
    (Seq<char>, Seq<char>, Span),
> {
    let hs = headings_of(contents_of(source), outline);
    skips(hs, hs.len() as int)
}

impl HeadingIncrement {
    pub fn id(&self) -> (r: &'static str)
        ensures
            r@ == ID@,
    {
        ID
    }

    pub fn short_reason(&self) -> (r: &'static str)
        ensures
            r@ == SHORT_REASON@,
    {
        SHORT_REASON
    }

    pub fn rationale(&self) -> (r: &'static str)
        ensures
            r@ == RATIONALE@,
    {
        RATIONALE
    }

    pub fn detect(&self, doc: &Document) -> (vs: Vec<Violation>)
        ensures
            violations_view(vs@) == spec_detect(doc.source@, doc.outline@),
    {
        let contents = line_contents(doc.source.as_str());
        let hs = collect_headings(&contents, &doc.outline);
        let ghost hv = headings_view(hs@);
        let mut vs: Vec<Violation> = Vec::new();
        let mut i: usize = 1;
        while i < hs.len()
            invariant
                1 <= i,
                i <= hs@.len() || i == 1,
                hv == headings_view(hs@),
                hv.len() == hs@.len(),
                violations_view(vs@) == skips(hv, i as int),
            decreases hs@.len() - i,
        {
            if hs[i].2 > hs[i - 1].2 && hs[i].2 - hs[i - 1].2 > 1 {
                let v = Violation {
                    rule_id: ID,
                    message: MESSAGE.to_string(),
                    span: Span { line: hs[i].0, column: hs[i].1, length: 1 },
                };
                proof {
                    lemma_violations_push(vs@, v);
                }
                vs.push(v);
            }
            i += 1;
        }
        proof {
            if hs@.len() == 0 {
                assert(skips(hv, 1) =~= skips(hv, 0));
            }
        }
        vs
    }

    /// The rule only flags: it never rewrites.
    pub fn fix(&self, doc: &Document) -> (r: Option<String>)
        ensures
            r is None,
    {
        None
    }
}

} // verus!
