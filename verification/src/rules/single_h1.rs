use vstd::prelude::*;
use crate::ast::Edge;
use crate::document::Document;
use crate::rules::headings::{collect_headings, contents_of, headings_of, headings_view, line_contents};
use crate::violation::{Span, Violation, lemma_violations_push, violations_view};

verus! {

/// A document has one top-level heading: every level-one heading after the
/// first is reported. Nothing is rewritten.
pub struct SingleH1;

pub const ID: &'static str = "single-h1";

pub const SHORT_REASON: &'static str = "Use a single top-level heading per document.";

pub const RATIONALE: &'static str = "A document should have exactly one # heading, its title. Several top-level headings usually mean the file is really two documents, or that a heading should sit a level deeper. This is reported but never fixed, because only you know which it is.";

pub const MESSAGE: &'static str = "more than one top-level heading";

/// Whether one of the first `n` headings is at level one.
pub open spec fn seen_h1(hs: Seq<(usize, usize, nat)>, n: int) -> bool
    decreases n,
{
    n > 0 && (hs[n - 1].2 == 1 || seen_h1(hs, n - 1))
}

/// One violation for each of the first `n` headings that is at level one with
/// a level-one heading before it, at the heading's start.
pub open spec fn extra_h1s(hs: Seq<(usize, usize, nat)>, n: int) -> Seq<(Seq<char>, Seq<char>, Span)>
    decreases n,
{
    if n <= 0 {
        Seq::empty()
    } else {
        let before = extra_h1s(hs, n - 1);
        if hs[n - 1].2 == 1 && seen_h1(hs, n - 1) {
            before.push((ID@, MESSAGE@, Span { line: hs[n - 1].0, column: hs[n - 1].1, length: 1 }))
        } else {
            before
        }
    }
}

pub open spec fn spec_detect(source: Seq<char>, outline: Seq<Edge>) -> Seq<
    (Seq<char>, Seq<char>, Span),
> {
    let hs = headings_of(contents_of(source), outline);
    extra_h1s(hs, hs.len() as int)
}

impl SingleH1 {
    pub fn id(&self) -> (r: &'static str)
        ensures
            r@ == ID@,
    {
        ID
    }

    pub fn short_reason(&self) -> (r: &'static str)
        ensures
            r@ == SHORT_REASON@,
    {
        SHORT_REASON
    }

    pub fn rationale(&self) -> (r: &'static str)
        ensures
            r@ == RATIONALE@,
    {
        RATIONALE
    }

    pub fn detect(&self, doc: &Document) -> (vs: Vec<Violation>)
        ensures
            violations_view(vs@) == spec_detect(doc.source@, doc.outline@),
    {
        let contents = line_contents(doc.source.as_str());
        let hs = collect_headings(&contents, &doc.outline);
        let ghost hv = headings_view(hs@);
        let mut vs: Vec<Violation> = Vec::new();
        let mut seen = false;
        let mut i: usize = 0;
        while i < hs.len()
            invariant
                i <= hs@.len(),
                hv == headings_view(hs@),
                seen == seen_h1(hv, i as int),
                violations_view(vs@) == extra_h1s(hv, i as int),
            decreases hs@.len() - i,
        {
            if hs[i].2 == 1 {
                if seen {
                    let v = Violation {
                        rule_id: ID,
                        message: MESSAGE.to_string(),
                        span: Span { line: hs[i].0, column: hs[i].1, length: 1 },
                    };
                    proof {
                        lemma_violations_push(vs@, v);
                    }
                    vs.push(v);
                }
                seen = true;
            }
            i += 1;
        }
        vs
    }

    /// The rule only flags: it never rewrites.
    pub fn fix(&self, doc: &Document) -> (r: Option<String>)
        ensures
            r is None,
    {
        None
    }
}

} // verus!
