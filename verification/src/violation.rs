//! What a rule reports: which rule, a message, and where.
use vstd::prelude::*;

verus! {

/// A place in the source: 1-based line and column (in characters) and a length.
#[derive(Clone, Copy, Debug, PartialEq, Eq, Structural)]
pub struct Span {
    pub line: usize,
    pub column: usize,
    pub length: usize,
}

/// One finding of one rule.
#[derive(Debug)]
pub struct Violation {
    pub rule_id: &'static str,
    pub message: String,
    pub span: Span,
}

impl View for Violation {
    type V = (Seq<char>, Seq<char>, Span);

    open spec fn view(&self) -> (Seq<char>, Seq<char>, Span) {
        (self.rule_id@, self.message@, self.span)
    }
}

/// The views of a sequence of violations.
pub open spec fn violations_view(vs: Seq<Violation>) -> Seq<(Seq<char>, Seq<char>, Span)> {
    vs.map_values(|v: Violation| v@)
}

/// `n + 1`, or `usize::MAX` where that does not fit: a column just past `n`
/// characters, or the 1-based number of the item at index `n`.
pub open spec fn succ(n: nat) -> usize {
    if n < usize::MAX {
        (n + 1) as usize
    } else {
        usize::MAX
    }
}

/// `n + 1`, saturating at `usize::MAX`.
pub fn succ_of(n: usize) -> (m: usize)
    ensures
        m == succ(n as nat),
{
    if n < usize::MAX {
        n + 1
    } else {
        usize::MAX
    }
}

/// Appends one violation's worth of view to a vector while keeping the views in step.
pub proof fn lemma_violations_push(vs: Seq<Violation>, v: Violation)
    ensures
        violations_view(vs.push(v)) == violations_view(vs).push(v@),
{
    assert(violations_view(vs.push(v)) =~= violations_view(vs).push(v@));
}

} // verus!
