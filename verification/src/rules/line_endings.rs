use vstd::prelude::*;
use crate::chars::{push_chars, push_str};
use crate::document::Document;
use crate::text::{
    Line, count_terminators, crlf, dominant_newline, ends_in_cr, join_lines,
    lemma_join_lines_take, lemma_split_join, lemma_split_lines_rejoin,
    lemma_split_lines_terminators, lemma_split_lines_well_formed, lf, lines_view,
    spec_dominant_newline, spec_split_lines, split_lines, trailing_cr_dropped, well_formed_lines,
    without_trailing_cr, lemma_without_trailing_cr,
};
use crate::violation::{Span, Violation, lemma_violations_push, succ, succ_of, violations_view};

verus! {

/// Every line ending in a file matches the file's own majority style.
///
/// The rule takes no side between LF and CRLF. A wholly CRLF file stays CRLF
/// and a wholly LF file stays LF, so only the odd line out is ever reported.
pub struct LineEndings;

pub const ID: &'static str = "line-endings";

pub const SHORT_REASON: &'static str = "Mixed line endings in one file show up as whole-file diffs.";

pub const RATIONALE: &'static str = "A file that mixes LF and CRLF line endings is invisible to read but noisy to work with: editors and version control disagree about where lines end, and a tool that rewrites the file can flip every line at once, burying a one-line change in a whole-file diff. The fix is the file's own majority style rather than a fixed choice, because CRLF is the normal convention on Windows and LF elsewhere, and neither is wrong. Only the minority endings are rewritten, so a file that is already consistent is left exactly as it is. LF settles a tie.";

pub const MOSTLY_USES: &'static str = " line ending in a file that mostly uses ";

/// The name of a line ending.
pub open spec fn spec_label(newline: Seq<char>) -> Seq<char> {
    if newline == crlf() {
        "CRLF"@
    } else {
        "LF"@
    }
}

/// Whether a line's terminator stays as it is: it is missing or already `newline`.
pub open spec fn keeps(l: (Seq<char>, Seq<char>), newline: Seq<char>) -> bool {
    l.1.len() == 0 || l.1 == newline
}

/// A line with its terminator rewritten to `newline` where it is the odd one
/// out. A `\r\n` line rewritten to `\n` also loses any carriage returns at the
/// end of its text, which would otherwise read as a `\r\n` once more.
pub open spec fn normalized(l: (Seq<char>, Seq<char>), newline: Seq<char>) -> (Seq<char>, Seq<char>) {
    if keeps(l, newline) {
        l
    } else if newline == lf() {
        (without_trailing_cr(l.0), newline)
    } else {
        (l.0, newline)
    }
}

/// The message for a line ending `t` in a file that mostly uses `newline`.
pub open spec fn spec_message(t: Seq<char>, newline: Seq<char>) -> Seq<char> {
    spec_label(t) + MOSTLY_USES@ + spec_label(newline)
}

/// One violation per line whose ending is neither missing nor `newline`, at
/// the column just past its last character.
pub open spec fn violations_of(lines: Seq<(Seq<char>, Seq<char>)>, newline: Seq<char>) -> Seq<
    (Seq<char>, Seq<char>, Span),
>
    decreases lines.len(),
{
    if lines.len() == 0 {
        Seq::empty()
    } else {
        let before = violations_of(lines.drop_last(), newline);
        let l = lines.last();
        if keeps(l, newline) {
            before
        } else {
            before.push(
                (
                    ID@,
                    spec_message(l.1, newline),
                    Span { line: lines.len() as usize, column: succ(l.0.len()), length: 1 },
                ),
            )
        }
    }
}

pub open spec fn spec_detect(s: Seq<char>) -> Seq<(Seq<char>, Seq<char>, Span)> {
    violations_of(spec_split_lines(s), spec_dominant_newline(s))
}

/// The source with every line ending rewritten to the majority style.
pub open spec fn spec_fix(s: Seq<char>) -> Seq<char> {
    let newline = spec_dominant_newline(s);
    join_lines(spec_split_lines(s).map_values(|l: (Seq<char>, Seq<char>)| normalized(l, newline)))
}

fn label(newline: &str) -> (r: &'static str)
    requires
        newline@ == lf() || newline@ == crlf(),
    ensures
        r@ == spec_label(newline@),
{
    proof {
        reveal_strlit("CRLF");
        reveal_strlit("LF");
    }
    if newline.unicode_len() == 2 {
        "CRLF"
    } else {
        "LF"
    }
}

/// Detect and fix in one pass so the two halves can never disagree.
fn analyze(source: &str) -> (r: (Vec<Violation>, String))
    ensures
        violations_view(r.0@) == spec_detect(source@),
        r.1@ == spec_fix(source@),
{
    let newline = dominant_newline(source);
    let lines = split_lines(source);
    let ghost ls = lines_view(lines@);
    let ghost nl = spec_dominant_newline(source@);
    let ghost fixed_lines = ls.map_values(|l: (Seq<char>, Seq<char>)| normalized(l, nl));
    let mut violations: Vec<Violation> = Vec::new();
    let mut out = String::new();
    proof {
        lemma_split_lines_terminators(source@);
    }
    let mut i: usize = 0;
    while i < lines.len()
        invariant
            i <= lines@.len(),
            ls == lines_view(lines@),
            ls == spec_split_lines(source@),
            newline@ == nl,
            nl == lf() || nl == crlf(),
            fixed_lines == ls.map_values(|l: (Seq<char>, Seq<char>)| normalized(l, nl)),
            forall|k: int|
                0 <= k < ls.len() ==> {
                    let t = #[trigger] ls[k].1;
                    t == lf() || t == crlf() || t.len() == 0
                },
            out@ == join_lines(fixed_lines.take(i as int)),
            violations_view(violations@) == violations_of(ls.take(i as int), nl),
        decreases lines@.len() - i,
    {
        let line = &lines[i];
        let ghost l = ls[i as int];
        proof {
            assert(l == line@);
            lemma_join_lines_take(fixed_lines, i as int);
            assert(ls.take(i + 1).drop_last() =~= ls.take(i as int));
            assert(ls.take(i + 1).last() == l);
        }
        let term_len = line.terminator.unicode_len();
        if term_len == 0 || term_len == newline.unicode_len() {
            push_str(&mut out, line.content);
            push_str(&mut out, line.terminator);
        } else {
            if newline.unicode_len() == 1 {
                let kept = trailing_cr_dropped(line.content);
                push_chars(&mut out, &kept, 0, kept.len());
                assert(kept@.subrange(0, kept@.len() as int) =~= kept@);
            } else {
                push_str(&mut out, line.content);
            }
            let mut message = String::new();
            push_str(&mut message, label(line.terminator));
            push_str(&mut message, MOSTLY_USES);
            push_str(&mut message, label(newline));
            let v = Violation {
                rule_id: ID,
                message,
                span: Span {
                    line: i + 1,
                    column: succ_of(line.content.unicode_len()),
                    length: 1,
                },
            };
            proof {
                lemma_violations_push(violations@, v);
            }
            violations.push(v);
            push_str(&mut out, newline);
        }
        i += 1;
    }
    assert(ls.take(i as int) =~= ls);
    assert(fixed_lines.take(i as int) =~= fixed_lines);
    (violations, out)
}

impl LineEndings {
    pub fn id(&self) -> (r: &'static str)
        ensures
            r@ == ID@,
    {
        ID
    }

    pub fn short_reason(&self) -> (r: &'static str)
        ensures
            r@ == SHORT_REASON@,
    {
        SHORT_REASON
    }

    pub fn rationale(&self) -> (r: &'static str)
        ensures
            r@ == RATIONALE@,
    {
        RATIONALE
    }

    pub fn detect(&self, doc: &Document) -> (vs: Vec<Violation>)
        ensures
            violations_view(vs@) == spec_detect(doc.source@),
    {
        analyze(doc.source.as_str()).0
    }

    pub fn fix(&self, doc: &Document) -> (r: Option<String>)
        ensures
            r matches Some(fixed) && fixed@ == spec_fix(doc.source@),
    {
        Some(analyze(doc.source.as_str()).1)
    }
}

pub proof fn lemma_no_violations_keeps(lines: Seq<(Seq<char>, Seq<char>)>, newline: Seq<char>)
    requires
        violations_of(lines, newline).len() == 0,
    ensures
        forall|k: int| 0 <= k < lines.len() ==> keeps(#[trigger] lines[k], newline),
    decreases lines.len(),
{
    if lines.len() > 0 {
        lemma_violations_len(lines, newline);
        lemma_no_violations_keeps(lines.drop_last(), newline);
        assert forall|k: int| 0 <= k < lines.len() implies keeps(#[trigger] lines[k], newline) by {
            if k < lines.len() - 1 {
                assert(lines[k] == lines.drop_last()[k]);
            }
        }
    }
}

proof fn lemma_violations_len(lines: Seq<(Seq<char>, Seq<char>)>, newline: Seq<char>)
    requires
        lines.len() > 0,
    ensures
        violations_of(lines.drop_last(), newline).len() <= violations_of(lines, newline).len(),
{
}

/// A file whose line endings are already consistent is left exactly as it is:
/// when the rule reports nothing, its fix gives back the source unchanged.
pub proof fn law_consistent_file_untouched(s: Seq<char>)
    requires
        spec_detect(s).len() == 0,
    ensures
        spec_fix(s) == s,
{
    let ls = spec_split_lines(s);
    let nl = spec_dominant_newline(s);
    lemma_no_violations_keeps(ls, nl);
    let fixed = ls.map_values(|l: (Seq<char>, Seq<char>)| normalized(l, nl));
    assert(fixed =~= ls);
    lemma_split_lines_rejoin(s);
}

/// The lines with the odd endings rewritten.
pub open spec fn normalized_lines(lines: Seq<(Seq<char>, Seq<char>)>, newline: Seq<char>) -> Seq<
    (Seq<char>, Seq<char>),
> {
    lines.map_values(|l: (Seq<char>, Seq<char>)| normalized(l, newline))
}

pub proof fn lemma_count_none(lines: Seq<(Seq<char>, Seq<char>)>, t: Seq<char>)
    requires
        forall|k: int| 0 <= k < lines.len() ==> (#[trigger] lines[k]).1 != t,
    ensures
        count_terminators(lines, t) == 0,
    decreases lines.len(),
{
    if lines.len() > 0 {
        assert forall|k: int| 0 <= k < lines.drop_last().len() implies (
        #[trigger] lines.drop_last()[k]).1 != t by {
            assert(lines.drop_last()[k] == lines[k]);
        }
        lemma_count_none(lines.drop_last(), t);
    }
}

/// Normalizing keeps every ending that already was `newline`, and turns
/// every other present ending into `newline`.
proof fn lemma_count_normalized(lines: Seq<(Seq<char>, Seq<char>)>, newline: Seq<char>)
    requires
        newline == lf() || newline == crlf(),
    ensures
        count_terminators(normalized_lines(lines, newline), newline) >= count_terminators(
            lines,
            newline,
        ) + count_terminators(lines, if newline == lf() { crlf() } else { lf() }),
    decreases lines.len(),
{
    if lines.len() > 0 {
        let init = lines.drop_last();
        lemma_count_normalized(init, newline);
        assert(normalized_lines(lines, newline).drop_last() =~= normalized_lines(init, newline));
        assert(normalized_lines(lines, newline).last() == normalized(lines.last(), newline));
    }
}

/// Fixing leaves a file with consistent line endings: linting the fixed file
/// reports nothing, so fixing it again changes nothing.
pub proof fn law_fixed_file_is_consistent(s: Seq<char>)
    ensures
        spec_detect(spec_fix(s)).len() == 0,
        spec_fix(spec_fix(s)) == spec_fix(s),
{
    let ls = spec_split_lines(s);
    let nl = spec_dominant_newline(s);
    let fixed = normalized_lines(ls, nl);
    lemma_split_lines_well_formed(s);
    assert forall|i: int| 0 <= i < fixed.len() implies !(#[trigger] fixed[i]).0.contains('\n') by {
        assert(fixed[i] == normalized(ls[i], nl));
        lemma_without_trailing_cr(ls[i].0);
        let w = without_trailing_cr(ls[i].0);
        if w.contains('\n') {
            let k = choose|k: int| 0 <= k < w.len() && w[k] == '\n';
            assert(ls[i].0[k] == '\n');
        }
    }
    assert forall|i: int| 0 <= i < fixed.len() implies (#[trigger] fixed[i]).1 == lf() || fixed[i].1
        == crlf() || (fixed[i].1.len() == 0 && i == fixed.len() - 1) by {
        assert(fixed[i] == normalized(ls[i], nl));
    }
    assert forall|i: int| 0 <= i < fixed.len() && (#[trigger] fixed[i]).1 == lf() implies !ends_in_cr(
        fixed[i].0,
    ) by {
        assert(fixed[i] == normalized(ls[i], nl));
        lemma_without_trailing_cr(ls[i].0);
    }
    assert(fixed.last() == normalized(ls.last(), nl));
    assert(fixed.last().1.len() == 0 ==> fixed.len() == 1 || fixed.last().0.len() > 0);
    assert(fixed.last() == normalized(ls.last(), nl));
    assert(well_formed_lines(fixed));
    lemma_split_join(fixed);
    assert(spec_fix(s) == join_lines(fixed));
    let other = if nl == lf() {
        crlf()
    } else {
        lf()
    };
    assert forall|k: int| 0 <= k < fixed.len() implies (#[trigger] fixed[k]).1 != other by {
        assert(fixed[k] == normalized(ls[k], nl));
    }
    lemma_count_none(fixed, other);
    lemma_count_normalized(ls, nl);
    assert(spec_dominant_newline(spec_fix(s)) == nl);
    assert forall|k: int| 0 <= k < fixed.len() implies keeps(#[trigger] fixed[k], nl) by {
        assert(fixed[k] == normalized(ls[k], nl));
    }
    lemma_all_keep_no_violations(fixed, nl);
    law_consistent_file_untouched(spec_fix(s));
}

pub proof fn lemma_all_keep_no_violations(lines: Seq<(Seq<char>, Seq<char>)>, newline: Seq<char>)
    requires
        forall|k: int| 0 <= k < lines.len() ==> keeps(#[trigger] lines[k], newline),
    ensures
        violations_of(lines, newline).len() == 0,
    decreases lines.len(),
{
    if lines.len() > 0 {
        assert forall|k: int| 0 <= k < lines.drop_last().len() implies keeps(
            #[trigger] lines.drop_last()[k],
            newline,
        ) by {
            assert(lines.drop_last()[k] == lines[k]);
        }
        lemma_all_keep_no_violations(lines.drop_last(), newline);
        assert(keeps(lines[lines.len() - 1], newline));
    }
}

/// Lint and format agree: the rule reports something exactly when its fix
/// changes the file.
pub proof fn law_detect_iff_fix_changes(s: Seq<char>)
    ensures
        (spec_detect(s).len() == 0) == (spec_fix(s) == s),
{
    let ls = spec_split_lines(s);
    let nl = spec_dominant_newline(s);
    if spec_detect(s).len() == 0 {
        law_consistent_file_untouched(s);
    } else if spec_fix(s) == s {
        law_fixed_file_is_consistent(s);
    }
}

} // verus!
