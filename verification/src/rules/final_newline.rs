use vstd::prelude::*;
use crate::chars::{
    all_space, chars_of, is_blank, is_space, lemma_trim_empty, push_chars, push_str, trim,
};
use crate::ast::same_text;
use crate::document::Document;
use crate::rules::line_endings::{
    keeps, lemma_all_keep_no_violations, lemma_count_none, lemma_no_violations_keeps,
};
use crate::text::{
    Line, count_terminators, crlf, dominant_newline, ends_in_cr, join_lines, lemma_join_lines_push,
    lemma_join_lines_take, lemma_split_join, lemma_split_lines_rejoin,
    lemma_split_lines_terminators, lemma_split_lines_well_formed, lf, lines_view,
    spec_dominant_newline, spec_split_lines, split_lines, well_formed_lines, without_trailing_cr,
    lemma_without_trailing_cr, trailing_cr_dropped,
};
use crate::violation::{Span, Violation, violations_view, succ, succ_of};

verus! {

/// A file ends with a newline and at most one trailing blank line. Two or more
/// trailing blank lines are collapsed to one. The file's existing line-ending
/// style is preserved, and trailing whitespace on the final content line is left
/// to the trailing-whitespace rule. An empty file is left empty.
pub struct FinalNewline;

pub const ID: &'static str = "final-newline";

pub const SHORT_REASON: &'static str = "End files with a newline and at most one trailing blank line.";

pub const RATIONALE: &'static str = "A trailing newline is the POSIX convention that many tools expect, and its absence shows up as a 'no newline at end of file' marker in diffs. A single blank line at the end is harmless and often left by editors, but more than one is just noise, so extra trailing blank lines are collapsed to one.";

pub const EXTRA_BLANKS: &'static str = "file ends with extra blank lines";

pub const NO_NEWLINE: &'static str = "file does not end with a newline";

/// Whether a line holds nothing but whitespace.
pub open spec fn blank_line(l: (Seq<char>, Seq<char>)) -> bool {
    trim(l.0).len() == 0
}

/// How many lines at the end of `lines` are blank.
pub open spec fn trailing_blanks(lines: Seq<(Seq<char>, Seq<char>)>) -> nat
    decreases lines.len(),
{
    if lines.len() > 0 && blank_line(lines.last()) {
        trailing_blanks(lines.drop_last()) + 1
    } else {
        0
    }
}

pub proof fn lemma_trailing_blanks_bound(lines: Seq<(Seq<char>, Seq<char>)>)
    ensures
        trailing_blanks(lines) <= lines.len(),
    decreases lines.len(),
{
    if lines.len() > 0 && blank_line(lines.last()) {
        lemma_trailing_blanks_bound(lines.drop_last());
    }
}

/// The lines up to and including the last one with text.
pub open spec fn content_lines(lines: Seq<(Seq<char>, Seq<char>)>) -> Seq<(Seq<char>, Seq<char>)> {
    lines.take(lines.len() - trailing_blanks(lines))
}

/// The fixed source: the content lines as written, a final newline in the
/// document's style if the last of them has none, and one blank line kept if
/// there were any. A source with no content line becomes empty. A final `\n`
/// added after text that ends in carriage returns replaces them, so that it
/// cannot read as `\r\n`.
pub open spec fn spec_fixed_source(s: Seq<char>) -> Seq<char> {
    let lines = spec_split_lines(s);
    let content = content_lines(lines);
    let newline = spec_dominant_newline(s);
    if content.len() == 0 {
        Seq::empty()
    } else {
        let last = content.last();
        (if last.1.len() == 0 {
            join_lines(content.drop_last()) + (if newline == lf() {
                without_trailing_cr(last.0)
            } else {
                last.0
            }) + newline
        } else {
            join_lines(content)
        }) + (if trailing_blanks(lines) > 0 {
            newline
        } else {
            Seq::empty()
        })
    }
}

/// Where the rule points: just past the last character of the last content
/// line, or 1:1 in a document without content.
pub open spec fn spec_end_span(s: Seq<char>) -> Span {
    let content = content_lines(spec_split_lines(s));
    if content.len() == 0 {
        Span { line: 1, column: 1, length: 0 }
    } else {
        Span { line: content.len() as usize, column: succ(content.last().0.len()), length: 0 }
    }
}

/// One violation when fixing would change the source, none otherwise.
pub open spec fn spec_detect(s: Seq<char>) -> Seq<(Seq<char>, Seq<char>, Span)> {
    if spec_fixed_source(s) == s {
        Seq::empty()
    } else {
        seq![
            (ID@, if s.len() > 0 && s.last() == '\n' {
                EXTRA_BLANKS@
            } else {
                NO_NEWLINE@
            }, spec_end_span(s)),
        ]
    }
}

fn blank_content(content: &str) -> (b: bool)
    ensures
        b == (trim(content@).len() == 0),
{
    let chars = chars_of(content);
    assert(chars@.subrange(0, chars@.len() as int) =~= chars@);
    is_blank(&chars, 0, chars.len())
}

/// The number of trailing blank lines, and so the number of content lines.
fn count_trailing_blanks(lines: &Vec<Line>) -> (tb: usize)
    ensures
        tb == trailing_blanks(lines_view(lines@)),
        tb <= lines@.len(),
{
    let ghost ls = lines_view(lines@);
    let n = lines.len();
    let mut tb: usize = 0;
    assert(ls.take(n as int) =~= ls);
    while tb < n && blank_content(lines[n - 1 - tb].content)
        invariant
            n == lines@.len(),
            ls == lines_view(lines@),
            tb <= n,
            trailing_blanks(ls) == tb + trailing_blanks(ls.take(n - tb)),
        decreases n - tb,
    {
        assert(ls.take(n - tb).drop_last() =~= ls.take(n - tb - 1));
        assert(ls.take(n - tb).last() == lines@[n - 1 - tb]@);
        tb += 1;
    }
    if tb < n {
        assert(ls.take(n - tb).last() == lines@[n - 1 - tb]@);
    }
    tb
}

fn fixed_source(source: &str) -> (out: String)
    ensures
        out@ == spec_fixed_source(source@),
{
    let lines = split_lines(source);
    let ghost ls = lines_view(lines@);
    let tb = count_trailing_blanks(&lines);
    let m = lines.len() - tb;
    if m == 0 {
        assert(content_lines(ls).len() == 0);
        return String::new();
    }
    let convention = dominant_newline(source);
    let ghost content = content_lines(ls);
    let mut out = String::new();
    let mut i: usize = 0;
    while i < m - 1
        invariant
            m <= lines@.len(),
            ls == lines_view(lines@),
            content == ls.take(m as int),
            i <= m - 1,
            out@ == join_lines(content.take(i as int)),
        decreases m - 1 - i,
    {
        proof {
            lemma_join_lines_take(content, i as int);
            assert(content[i as int] == lines@[i as int]@);
        }
        push_str(&mut out, lines[i].content);
        push_str(&mut out, lines[i].terminator);
        i += 1;
    }
    assert(content.take(m - 1) =~= content.drop_last());
    assert(content.last() == lines@[m - 1]@);
    let last = &lines[m - 1];
    if last.terminator.unicode_len() == 0 {
        if convention.unicode_len() == 1 {
            let kept = trailing_cr_dropped(last.content);
            push_chars(&mut out, &kept, 0, kept.len());
            assert(kept@.subrange(0, kept@.len() as int) =~= kept@);
        } else {
            push_str(&mut out, last.content);
        }
        push_str(&mut out, convention);
    } else {
        push_str(&mut out, last.content);
        push_str(&mut out, last.terminator);
        proof {
            lemma_join_lines_take(content, m - 1);
            assert(content.take(m as int) =~= content);
        }
    }
    if tb > 0 {
        push_str(&mut out, convention);
    } else {
        assert(out@ =~= out@ + Seq::<char>::empty());
    }
    out
}

/// The lines of `source` up to and including the last one with text.
fn content_lines_of(source: &str) -> (lines: Vec<Line<'_>>)
    ensures
        lines_view(lines@) == content_lines(spec_split_lines(source@)),
{
    let mut lines = split_lines(source);
    let tb = count_trailing_blanks(&lines);
    let m = lines.len() - tb;
    let ghost all = lines_view(lines@);
    lines.truncate(m);
    assert(lines_view(lines@) =~= all.take(m as int));
    lines
}

fn end_span(source: &str) -> (span: Span)
    ensures
        span == spec_end_span(source@),
{
    let lines = content_lines_of(source);
    let m = lines.len();
    if m == 0 {
        Span { line: 1, column: 1, length: 0 }
    } else {
        let ghost content = content_lines(spec_split_lines(source@));
        assert(content.last() == lines@[m - 1]@);
        let count = lines[m - 1].content.unicode_len();
        Span { line: m, column: succ_of(count), length: 0 }
    }
}

impl FinalNewline {
    pub fn id(&self) -> (r: &'static str)
        ensures
            r@ == ID@,
    {
        ID
    }

    pub fn short_reason(&self) -> (r: &'static str)
        ensures
            r@ == SHORT_REASON@,
    {
        SHORT_REASON
    }

    pub fn rationale(&self) -> (r: &'static str)
        ensures
            r@ == RATIONALE@,
    {
        RATIONALE
    }

    pub fn detect(&self, doc: &Document) -> (vs: Vec<Violation>)
        ensures
            violations_view(vs@) == spec_detect(doc.source@),
    {
        let source = doc.source.as_str();
        let fixed = fixed_source(source);
        let mut vs: Vec<Violation> = Vec::new();
        if same_text(fixed.as_str(), source) {
            assert(violations_view(vs@) =~= spec_detect(doc.source@));
            return vs;
        }
        let chars = chars_of(source);
        let message = if chars.len() > 0 && chars[chars.len() - 1] == '\n' {
            EXTRA_BLANKS
        } else {
            NO_NEWLINE
        };
        vs.push(Violation { rule_id: ID, message: message.to_string(), span: end_span(source) });
        assert(violations_view(vs@) =~= spec_detect(doc.source@));
        vs
    }

    pub fn fix(&self, doc: &Document) -> (r: Option<String>)
        ensures
            r matches Some(fixed) && fixed@ == spec_fixed_source(doc.source@),
    {
        Some(fixed_source(doc.source.as_str()))
    }
}

/// Lint and format agree: a violation is reported exactly when fixing changes
/// the source.
pub proof fn law_detect_iff_fix_changes(s: Seq<char>)
    ensures
        (spec_detect(s).len() == 0) == (spec_fixed_source(s) == s),
{
}

/// A fixed file is empty or ends with a newline.
pub proof fn law_fixed_ends_with_newline(s: Seq<char>)
    ensures
        spec_fixed_source(s).len() == 0 || spec_fixed_source(s).last() == '\n',
{
    let lines = spec_split_lines(s);
    let content = content_lines(lines);
    lemma_split_lines_terminators(s);
    lemma_trailing_blanks_bound(lines);
    if content.len() > 0 {
        let m = content.len() - 1;
        lemma_join_lines_take(content, m);
        assert(content.take(m + 1) =~= content);
        assert(content.last() == lines[m]);
    }
}

/// The trailing blank lines are exactly the lines after the last one with text.
proof fn lemma_trailing_blanks_shape(lines: Seq<(Seq<char>, Seq<char>)>)
    ensures
        trailing_blanks(lines) <= lines.len(),
        forall|k: int|
            lines.len() - trailing_blanks(lines) <= k < lines.len() ==> blank_line(
                #[trigger] lines[k],
            ),
        trailing_blanks(lines) < lines.len() ==> !blank_line(
            lines[lines.len() - trailing_blanks(lines) - 1],
        ),
    decreases lines.len(),
{
    if lines.len() > 0 && blank_line(lines.last()) {
        let init = lines.drop_last();
        lemma_trailing_blanks_shape(init);
        assert forall|k: int|
            lines.len() - trailing_blanks(lines) <= k < lines.len() implies blank_line(
                #[trigger] lines[k],
            ) by {
            if k < lines.len() - 1 {
                assert(lines[k] == init[k]);
            }
        }
        if trailing_blanks(lines) < lines.len() {
            assert(lines[lines.len() - trailing_blanks(lines) - 1] == init[init.len()
                - trailing_blanks(init) - 1]);
        }
    }
}

/// Lines that all end in `t` count `t` once each.
proof fn lemma_count_all(lines: Seq<(Seq<char>, Seq<char>)>, t: Seq<char>)
    requires
        forall|k: int| 0 <= k < lines.len() ==> (#[trigger] lines[k]).1 == t,
    ensures
        count_terminators(lines, t) == lines.len(),
    decreases lines.len(),
{
    if lines.len() > 0 {
        assert forall|k: int| 0 <= k < lines.drop_last().len() implies (
        #[trigger] lines.drop_last()[k]).1 == t by {
            assert(lines.drop_last()[k] == lines[k]);
        }
        lemma_count_all(lines.drop_last(), t);
        assert(lines.last() == lines[lines.len() - 1]);
    }
}

/// A non-empty list of lines that all end in `newline` has `newline` as its
/// majority ending.
proof fn lemma_dominant_of_uniform(lines: Seq<(Seq<char>, Seq<char>)>, newline: Seq<char>)
    requires
        lines.len() > 0,
        newline == lf() || newline == crlf(),
        forall|k: int| 0 <= k < lines.len() ==> (#[trigger] lines[k]).1 == newline,
    ensures
        (if count_terminators(lines, crlf()) > count_terminators(lines, lf()) {
            crlf()
        } else {
            lf()
        }) == newline,
{
    lemma_count_all(lines, newline);
    if newline == lf() {
        assert forall|k: int| 0 <= k < lines.len() implies (#[trigger] lines[k]).1 != crlf() by {
            assert(lines[k].1.len() == 1);
        }
        lemma_count_none(lines, crlf());
    } else {
        assert forall|k: int| 0 <= k < lines.len() implies (#[trigger] lines[k]).1 != lf() by {
            assert(lines[k].1.len() == 2);
        }
        lemma_count_none(lines, lf());
    }
}

/// Dropping trailing carriage returns keeps a text with something in it.
proof fn lemma_cr_stripped_text(t: Seq<char>)
    requires
        trim(t).len() > 0,
    ensures
        trim(without_trailing_cr(t)).len() > 0,
    decreases t.len(),
{
    if ends_in_cr(t) {
        lemma_trim_empty(t);
        lemma_trim_empty(t.drop_last());
        if all_space(t.drop_last()) {
            assert forall|j: int| 0 <= j < t.len() implies is_space(#[trigger] t[j]) by {
                if j < t.len() - 1 {
                    assert(t[j] == t.drop_last()[j]);
                }
            }
        }
        lemma_cr_stripped_text(t.drop_last());
    }
}

/// For a file whose line endings are consistent, as the line-endings fixer
/// leaves it, the fix is stable: the fixed file ends with at most one blank
/// line, and fixing it again changes nothing.
pub proof fn law_fix_is_stable(s: Seq<char>)
    requires
        crate::rules::line_endings::spec_detect(s).len() == 0,
    ensures
        trailing_blanks(spec_split_lines(spec_fixed_source(s))) <= 1,
        spec_fixed_source(spec_fixed_source(s)) == spec_fixed_source(s),
        crate::rules::line_endings::spec_detect(spec_fixed_source(s)).len() == 0,
{
    let ls = spec_split_lines(s);
    let nl = spec_dominant_newline(s);
    let tb = trailing_blanks(ls);
    let content = content_lines(ls);
    let fixed = spec_fixed_source(s);
    lemma_split_lines_well_formed(s);
    lemma_no_violations_keeps(ls, nl);
    lemma_trailing_blanks_shape(ls);
    assert(nl == lf() || nl == crlf());
    if content.len() == 0 {
        assert(fixed.len() == 0);
        let l = spec_split_lines(fixed);
        assert(l =~= seq![(fixed, Seq::<char>::empty())]);
        lemma_trim_empty(fixed);
        assert(blank_line(l.last()));
        assert(trailing_blanks(l.drop_last()) == 0);
        assert(trailing_blanks(l) == 1);
        assert(content_lines(spec_split_lines(fixed)).len() == 0);
        assert(keeps(l[0], spec_dominant_newline(fixed)));
        lemma_all_keep_no_violations(l, spec_dominant_newline(fixed));
        return;
    }
    let m = content.len() as int;
    let c = content.last();
    assert(c == ls[m - 1]);
    assert(!blank_line(c));
    // Every content line but possibly the very last line of the file ends in `nl`.
    assert forall|k: int| 0 <= k < m && content[k].1.len() > 0 implies (#[trigger] content[k]).1
        == nl by {
        assert(content[k] == ls[k]);
        assert(keeps(ls[k], nl));
    }
    let lines_of_fixed: Seq<(Seq<char>, Seq<char>)> = if c.1.len() > 0 {
        if tb > 0 {
            content.push((Seq::<char>::empty(), nl))
        } else {
            content
        }
    } else if nl == lf() {
        content.drop_last().push((without_trailing_cr(c.0), nl))
    } else {
        content.drop_last().push((c.0, nl))
    };
    lemma_without_trailing_cr(c.0);
    assert(content =~= content.drop_last().push(c));
    if c.1.len() > 0 {
        if tb > 0 {
            lemma_join_lines_push(content, (Seq::<char>::empty(), nl));
            assert(fixed =~= join_lines(lines_of_fixed));
        } else {
            assert(fixed =~= join_lines(lines_of_fixed));
        }
    } else {
        assert(m == ls.len());
        lemma_join_lines_push(content.drop_last(), c);
        lemma_join_lines_push(content.drop_last(), lines_of_fixed.last());
        assert(fixed =~= join_lines(lines_of_fixed));
    }
    // The lines of the fixed text are the ones built above.
    let f = lines_of_fixed;
    assert forall|i: int| 0 <= i < f.len() implies !(#[trigger] f[i]).0.contains('\n') by {
        if i < m - 1 {
            assert(f[i] == ls[i]);
        } else if i == m - 1 {
            if c.1.len() == 0 && nl == lf() {
                assert forall|j: int| 0 <= j < f[i].0.len() implies f[i].0[j] != '\n' by {
                    assert(f[i].0[j] == c.0[j]);
                }
            }
        }
    }
    assert forall|i: int| 0 <= i < f.len() implies (#[trigger] f[i]).1 == lf() || f[i].1 == crlf()
        || (f[i].1.len() == 0 && i == f.len() - 1) by {
        if i < m - 1 {
            assert(f[i] == ls[i]);
        }
    }
    assert forall|i: int| 0 <= i < f.len() && (#[trigger] f[i]).1 == lf() implies !ends_in_cr(
        f[i].0,
    ) by {
        if i < m - 1 {
            assert(f[i] == ls[i]);
        } else if i == m - 1 && c.1.len() > 0 {
            assert(f[i] == ls[i]);
        }
    }
    assert(well_formed_lines(f));
    lemma_split_join(f);
    assert(spec_split_lines(fixed) == f);
    // The last line with text stays the last line with text.
    let last_text = f[m - 1];
    assert(!blank_line(last_text)) by {
        if c.1.len() == 0 && nl == lf() {
            lemma_cr_stripped_text(c.0);
        }
    }
    if f.len() > m {
        lemma_trim_empty(Seq::<char>::empty());
        assert(f.drop_last() =~= content);
        assert(trailing_blanks(f.drop_last()) == 0);
        assert(trailing_blanks(f) == 1);
        assert(content_lines(f) =~= content);
        assert forall|k: int| 0 <= k < f.len() implies (#[trigger] f[k]).1 == nl by {
            if k < m {
                assert(f[k] == content[k]);
                assert(content[k] == ls[k]);
                if k < m - 1 {
                    assert(k < ls.len() - 1);
                }
            }
        }
        lemma_dominant_of_uniform(f, nl);
        assert(spec_dominant_newline(fixed) == nl);
        lemma_join_lines_push(content, (Seq::<char>::empty(), nl));
        assert(f == content.push((Seq::<char>::empty(), nl)));
    } else {
        assert(trailing_blanks(f) == 0);
        assert(content_lines(f) =~= f);
    }
    let content2 = content_lines(f);
    assert(content2.last().1.len() > 0);
    assert(spec_fixed_source(fixed) =~= join_lines(f));
    // Every line of the fixed text ends in `nl`, so its endings are consistent.
    assert forall|k: int| 0 <= k < f.len() implies (#[trigger] f[k]).1 == nl by {
        if k < m {
            assert(f[k] == content[k] || k == m - 1);
            if k < m - 1 {
                assert(f[k] == content[k]);
                assert(content[k] == ls[k]);
                assert(k < ls.len() - 1);
            } else if c.1.len() > 0 {
                assert(f[k] == content[k]);
            }
        }
    }
    lemma_dominant_of_uniform(f, nl);
    assert forall|k: int| 0 <= k < f.len() implies keeps(#[trigger] f[k], nl) by {}
    lemma_all_keep_no_violations(f, nl);
}

} // verus!
