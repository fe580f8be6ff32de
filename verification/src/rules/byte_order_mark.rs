use vstd::prelude::*;
use crate::chars::chars_of;
use crate::document::Document;
use crate::violation::{Span, Violation, violations_view};

verus! {

/// A file does not start with a byte order mark.
///
/// Only a leading mark is a byte order mark. The same character elsewhere in
/// the document is a zero width no-break space, which is content, so it is left
/// alone.
pub struct ByteOrderMark;

pub const ID: &'static str = "byte-order-mark";

pub const SHORT_REASON: &'static str = "A leading byte order mark is invisible and travels into your text.";

pub const RATIONALE: &'static str = "Some tools, notably Windows PowerShell, write a byte order mark at the start of a UTF-8 file. Markdown is read as UTF-8 everywhere, so the mark carries no information, but it is a real character sitting in front of the first one you wrote. Nothing renders it, so it survives every review, and any fix that rewrites the first line carries it along into the middle of the text: a title that reads `# Title` actually begins with an invisible character. Removing it leaves a file that is still valid UTF-8 and says exactly what it appears to say.";

pub const MESSAGE: &'static str = "file starts with a byte order mark";

/// Whether `s` begins with U+FEFF.
pub open spec fn starts_with_bom(s: Seq<char>) -> bool {
    s.len() > 0 && s[0] == '\u{feff}'
}

/// The violations of the rule in `s`: one at 1:1 if it starts with a mark.
pub open spec fn spec_detect(s: Seq<char>) -> Seq<(Seq<char>, Seq<char>, Span)> {
    if starts_with_bom(s) {
        seq![(ID@, MESSAGE@, Span { line: 1, column: 1, length: 1 })]
    } else {
        Seq::empty()
    }
}

/// `s` without its leading mark, if it has one.
pub open spec fn spec_fix(s: Seq<char>) -> Seq<char> {
    if starts_with_bom(s) {
        s.drop_first()
    } else {
        s
    }
}

impl ByteOrderMark {
    pub fn id(&self) -> (r: &'static str)
        ensures
            r@ == ID@,
    {
        ID
    }

    pub fn short_reason(&self) -> (r: &'static str)
        ensures
            r@ == SHORT_REASON@,
    {
        SHORT_REASON
    }

    pub fn rationale(&self) -> (r: &'static str)
        ensures
            r@ == RATIONALE@,
    {
        RATIONALE
    }

    pub fn detect(&self, doc: &Document) -> (vs: Vec<Violation>)
        ensures
            violations_view(vs@) == spec_detect(doc.source@),
    {
        let chars = chars_of(doc.source.as_str());
        let mut vs: Vec<Violation> = Vec::new();
        if chars.len() > 0 && chars[0] == '\u{feff}' {
            vs.push(
                Violation {
                    rule_id: ID,
                    message: MESSAGE.to_string(),
                    span: Span { line: 1, column: 1, length: 1 },
                },
            );
        }
        assert(violations_view(vs@) =~= spec_detect(doc.source@));
        vs
    }

    pub fn fix(&self, doc: &Document) -> (r: Option<String>)
        ensures
            r matches Some(fixed) && fixed@ == spec_fix(doc.source@),
    {
        let chars = chars_of(doc.source.as_str());
        if chars.len() > 0 && chars[0] == '\u{feff}' {
            let fixed = crate::chars::string_of(&chars, 1, chars.len());
            assert(fixed@ =~= spec_fix(doc.source@));
            Some(fixed)
        } else {
            Some(doc.source.clone())
        }
    }
}

/// Only the mark goes: the fix changes the source exactly when a violation is
/// reported, and then it removes one leading character and nothing else.
pub proof fn law_detect_iff_fix_changes(s: Seq<char>)
    ensures
        (spec_detect(s).len() == 0) == (spec_fix(s) == s),
        spec_fix(s) != s ==> s == seq!['\u{feff}'] + spec_fix(s),
{
    if starts_with_bom(s) {
        assert(spec_fix(s).len() < s.len());
        assert(s =~= seq!['\u{feff}'] + spec_fix(s));
    }
}

/// Fixing twice is fixing once, except for a file that starts with two marks:
/// the second is content until the first is removed, and then it leads.
pub proof fn law_fix_is_stable(s: Seq<char>)
    requires
        !(starts_with_bom(s) && starts_with_bom(s.drop_first())),
    ensures
        spec_fix(spec_fix(s)) == spec_fix(s),
{
}

} // verus!
