use vstd::prelude::*;
use crate::chars::{chars_of, lemma_retreat, push_chars, push_str, retreat, sub_vec};
use crate::document::Document;
use crate::text::{
    join_lines, lemma_join_lines_take, lemma_split_lines_rejoin, lines_view, spec_split_lines,
    split_lines,
};
use crate::violation::{Span, Violation, lemma_violations_push, succ, succ_of, violations_view};

verus! {

/// No line ends in spaces or tabs. The one run kept is a hard line break: two
/// or more spaces after text, with a line of text after it. That run is
/// normalised to exactly two spaces.
pub struct TrailingWhitespace;

pub const ID: &'static str = "trailing-whitespace";

pub const SHORT_REASON: &'static str = "Trailing whitespace is invisible but shows up as diff noise.";

pub const RATIONALE: &'static str = "Trailing spaces and tabs are invisible in most editors but appear in diffs and version control, adding noise that hides real changes. They are stripped everywhere, except a run of two or more spaces before a line with text, which Markdown treats as an intentional hard line break and which is normalised to exactly two spaces.";

pub const MESSAGE: &'static str = "trailing whitespace";

/// A space or a tab.
pub open spec fn blank_pred() -> spec_fn(char) -> bool {
    |c: char| c == ' ' || c == '\t'
}

/// A space.
pub open spec fn space_only_pred() -> spec_fn(char) -> bool {
    |c: char| c == ' '
}

/// Where a line's text ends once its trailing spaces and tabs are dropped.
pub open spec fn text_end(c: Seq<char>) -> int {
    retreat(c, c.len() as int, blank_pred())
}

/// How many spaces the line ends in.
pub open spec fn trailing_spaces(c: Seq<char>) -> int {
    c.len() - retreat(c, c.len() as int, space_only_pred())
}

/// Whether a line holds anything besides spaces and tabs.
pub open spec fn has_text(c: Seq<char>) -> bool {
    text_end(c) > 0
}

/// Whether line `i` ends in a hard break: two or more spaces after text, and
/// a next line with text.
pub open spec fn hard_break_at(lines: Seq<(Seq<char>, Seq<char>)>, i: int) -> bool {
    &&& has_text(lines[i].0)
    &&& trailing_spaces(lines[i].0) >= 2
    &&& i + 1 < lines.len()
    &&& has_text(lines[i + 1].0)
}

/// Line `i` without its trailing spaces and tabs, or with exactly two spaces
/// after its text where it ends in a hard break.
pub open spec fn fixed_content(lines: Seq<(Seq<char>, Seq<char>)>, i: int) -> Seq<char> {
    let c = lines[i].0;
    let t = c.take(text_end(c));
    if hard_break_at(lines, i) {
        t + seq![' ', ' ']
    } else {
        t
    }
}

/// The violation for line `i`: the whole run of spaces and tabs at its end.
pub open spec fn violation_at(lines: Seq<(Seq<char>, Seq<char>)>, i: int) -> (
    Seq<char>,
    Seq<char>,
    Span,
) {
    let c = lines[i].0;
    (
        ID@,
        MESSAGE@,
        Span {
            line: succ(i as nat),
            column: succ(text_end(c) as nat),
            length: (c.len() - text_end(c)) as usize,
        },
    )
}

/// One violation for each of the first `n` lines that the fix changes.
pub open spec fn violations_upto(lines: Seq<(Seq<char>, Seq<char>)>, n: int) -> Seq<
    (Seq<char>, Seq<char>, Span),
>
    decreases n,
{
    if n <= 0 {
        Seq::empty()
    } else {
        let before = violations_upto(lines, n - 1);
        if fixed_content(lines, n - 1) == lines[n - 1].0 {
            before
        } else {
            before.push(violation_at(lines, n - 1))
        }
    }
}

/// The lines of `s` with their contents fixed and their terminators kept.
pub open spec fn fixed_lines(lines: Seq<(Seq<char>, Seq<char>)>) -> Seq<(Seq<char>, Seq<char>)> {
    Seq::new(lines.len(), |i: int| (fixed_content(lines, i), lines[i].1))
}

pub open spec fn spec_detect(s: Seq<char>) -> Seq<(Seq<char>, Seq<char>, Span)> {
    violations_upto(spec_split_lines(s), spec_split_lines(s).len() as int)
}

pub open spec fn spec_fix(s: Seq<char>) -> Seq<char> {
    join_lines(fixed_lines(spec_split_lines(s)))
}

/// Where `v`'s text ends once its trailing spaces and tabs are dropped.
fn text_end_of(v: &Vec<char>) -> (e: usize)
    ensures
        e == text_end(v@),
        e <= v@.len(),
{
    let mut j = v.len();
    while j > 0 && (v[j - 1] == ' ' || v[j - 1] == '\t')
        invariant
            j <= v@.len(),
            retreat(v@, j as int, blank_pred()) == retreat(v@, v@.len() as int, blank_pred()),
        decreases j,
    {
        j -= 1;
    }
    j
}

/// How many spaces `v` ends in.
fn trailing_spaces_of(v: &Vec<char>) -> (n: usize)
    ensures
        n == trailing_spaces(v@),
{
    let mut j = v.len();
    while j > 0 && v[j - 1] == ' '
        invariant
            j <= v@.len(),
            retreat(v@, j as int, space_only_pred()) == retreat(
                v@,
                v@.len() as int,
                space_only_pred(),
            ),
        decreases j,
    {
        j -= 1;
    }
    v.len() - j
}

/// Detect and fix in one pass so the two halves can never disagree.
fn analyze(source: &str) -> (r: (Vec<Violation>, String))
    ensures
        violations_view(r.0@) == spec_detect(source@),
        r.1@ == spec_fix(source@),
{
    let lines = split_lines(source);
    let ghost ls = lines_view(lines@);
    let ghost fixed = fixed_lines(ls);
    let mut violations: Vec<Violation> = Vec::new();
    let mut out = String::new();
    let mut i: usize = 0;
    while i < lines.len()
        invariant
            i <= lines@.len(),
            ls == lines_view(lines@),
            ls == spec_split_lines(source@),
            fixed == fixed_lines(ls),
            out@ == join_lines(fixed.take(i as int)),
            violations_view(violations@) == violations_upto(ls, i as int),
        decreases lines@.len() - i,
    {
        let content = chars_of(lines[i].content);
        let ghost c = ls[i as int].0;
        assert(content@ == c);
        let e = text_end_of(&content);
        let spaces = trailing_spaces_of(&content);
        let next_has_text = if i + 1 < lines.len() {
            let next = chars_of(lines[i + 1].content);
            assert(next@ == ls[i + 1].0);
            text_end_of(&next) > 0
        } else {
            false
        };
        let mut kept = sub_vec(&content, 0, e);
        assert(kept@ == c.take(e as int));
        if e > 0 && spaces >= 2 && next_has_text {
            kept.push(' ');
            kept.push(' ');
        }
        assert(kept@ =~= fixed_content(ls, i as int));
        proof {
            lemma_join_lines_take(fixed, i as int);
            assert(fixed[i as int] == (kept@, ls[i as int].1));
            lemma_retreat(c, c.len() as int, blank_pred());
        }
        push_chars(&mut out, &kept, 0, kept.len());
        assert(kept@.subrange(0, kept@.len() as int) =~= kept@);
        push_str(&mut out, lines[i].terminator);
        if kept.len() != content.len() || !same_prefix(&kept, &content) {
            let v = Violation {
                rule_id: ID,
                message: MESSAGE.to_string(),
                span: Span { line: i + 1, column: succ_of(e), length: content.len() - e },
            };
            proof {
                lemma_violations_push(violations@, v);
            }
            violations.push(v);
        }
        i += 1;
    }
    assert(fixed.take(i as int) =~= fixed);
    (violations, out)
}

/// Whether `a` and `b` agree on every index of `a`.
fn same_prefix(a: &Vec<char>, b: &Vec<char>) -> (r: bool)
    requires
        a@.len() == b@.len(),
    ensures
        r == (a@ == b@),
{
    let mut k: usize = 0;
    while k < a.len()
        invariant
            k <= a@.len(),
            a@.len() == b@.len(),
            forall|j: int| 0 <= j < k ==> a@[j] == b@[j],
        decreases a@.len() - k,
    {
        if a[k] != b[k] {
            return false;
        }
        k += 1;
    }
    assert(a@ =~= b@);
    true
}

impl TrailingWhitespace {
    pub fn id(&self) -> (r: &'static str)
        ensures
            r@ == ID@,
    {
        ID
    }

    pub fn short_reason(&self) -> (r: &'static str)
        ensures
            r@ == SHORT_REASON@,
    {
        SHORT_REASON
    }

    pub fn rationale(&self) -> (r: &'static str)
        ensures
            r@ == RATIONALE@,
    {
        RATIONALE
    }

    pub fn detect(&self, doc: &Document) -> (vs: Vec<Violation>)
        ensures
            violations_view(vs@) == spec_detect(doc.source@),
    {
        analyze(doc.source.as_str()).0
    }

    pub fn fix(&self, doc: &Document) -> (r: Option<String>)
        ensures
            r matches Some(fixed) && fixed@ == spec_fix(doc.source@),
    {
        Some(analyze(doc.source.as_str()).1)
    }
}

proof fn lemma_nothing_changes(lines: Seq<(Seq<char>, Seq<char>)>, n: int)
    requires
        0 <= n <= lines.len(),
        violations_upto(lines, n).len() == 0,
    ensures
        forall|k: int| 0 <= k < n ==> fixed_content(lines, k) == #[trigger] lines[k].0,
    decreases n,
{
    if n > 0 {
        if fixed_content(lines, n - 1) == lines[n - 1].0 {
            lemma_nothing_changes(lines, n - 1);
        } else {
            assert(violations_upto(lines, n).len() == violations_upto(lines, n - 1).len() + 1);
        }
    }
}

/// Lint already reports everything format would change: when no line is
/// reported, the fix gives back the source exactly.
pub proof fn law_no_violation_means_no_change(source: Seq<char>)
    requires
        spec_detect(source).len() == 0,
    ensures
        spec_fix(source) == source,
{
    let ls = spec_split_lines(source);
    lemma_nothing_changes(ls, ls.len() as int);
    assert(fixed_lines(ls) =~= ls);
    lemma_split_lines_rejoin(source);
}

/// A line cut at its text's end ends in text, or is empty.
proof fn lemma_cut_line(c: Seq<char>)
    ensures
        ({
            let e = text_end(c);
            let t = c.take(e);
            &&& 0 <= e <= c.len()
            &&& text_end(t) == e
            &&& trailing_spaces(t) == 0
            &&& text_end(t + seq![' ', ' ']) == e
            &&& trailing_spaces(t + seq![' ', ' ']) == 2
        }),
{
    let e = text_end(c);
    lemma_retreat(c, c.len() as int, blank_pred());
    let t = c.take(e);
    let u = t + seq![' ', ' '];
    assert(u[e] == ' ' && u[e + 1] == ' ');
    assert(retreat(u, e + 2, blank_pred()) == retreat(u, e + 1, blank_pred()));
    assert(retreat(u, e + 1, blank_pred()) == retreat(u, e, blank_pred()));
    assert(retreat(u, e + 2, space_only_pred()) == retreat(u, e + 1, space_only_pred()));
    assert(retreat(u, e + 1, space_only_pred()) == retreat(u, e, space_only_pred()));
    if e > 0 {
        assert(t[e - 1] == c[e - 1]);
        assert(u[e - 1] == c[e - 1]);
    }
}

/// Fixing twice is fixing once: the fixed lines are their own fix. Each keeps
/// its text, and a line keeps its two spaces of hard break exactly where the
/// first fix left them.
pub proof fn law_fix_is_stable(lines: Seq<(Seq<char>, Seq<char>)>)
    ensures
        fixed_lines(fixed_lines(lines)) == fixed_lines(lines),
{
    let f = fixed_lines(lines);
    assert forall|i: int| 0 <= i < lines.len() implies fixed_content(f, i) == #[trigger] f[i].0 by {
        let c = lines[i].0;
        lemma_cut_line(c);
        if i + 1 < lines.len() {
            lemma_cut_line(lines[i + 1].0);
            assert(has_text(f[i + 1].0) == has_text(lines[i + 1].0));
        }
        let t = c.take(text_end(c));
        assert(f[i].0.take(text_end(c)) =~= t);
        assert(hard_break_at(f, i) == hard_break_at(lines, i));
    }
    assert(fixed_lines(f) =~= f);
}

} // verus!
