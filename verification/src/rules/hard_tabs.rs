use vstd::prelude::*;
use crate::ast::{Edge, same_text};
use crate::chars::{advance, append, chars_of, lemma_advance, string_of};
use crate::document::Document;
use crate::text::{join_lines, lemma_join_lines_take, lemma_split_lines_rejoin, lines_view, spec_split_lines, split_lines};
use crate::violation::{Span, Violation, lemma_violations_push, succ, succ_of, violations_view};

verus! {

/// No hard tabs outside code blocks: each tab becomes the spaces that reach
/// the next four-column tab stop. Lines of code blocks are left as written.
pub struct HardTabs;

pub const ID: &'static str = "hard-tabs";

pub const SHORT_REASON: &'static str = "Use spaces, not hard tabs.";

pub const RATIONALE: &'static str = "Hard tabs render at different widths in different tools, so indentation and alignment drift between editors. They are expanded to spaces at four-column tab stops everywhere except inside code blocks, where a tab may be part of the code.";

pub const MESSAGE: &'static str = "hard tab";

/// The first and last lines of every code block of an outline.
pub open spec fn code_ranges(edges: Seq<Edge>) -> Seq<(usize, usize)>
    decreases edges.len(),
{
    if edges.len() == 0 {
        Seq::empty()
    } else {
        let before = code_ranges(edges.drop_last());
        match edges.last() {
            Edge::Open { name, start_line, start_column, end_line, .. } => {
                if name@ == "code_block"@ {
                    before.push((start_line, end_line))
                } else {
                    before
                }
            },
            Edge::Close => before,
        }
    }
}

/// Whether line `line` (1-based) lies in one of `ranges`.
pub open spec fn in_code(ranges: Seq<(usize, usize)>, line: int) -> bool {
    exists|k: int| 0 <= k < ranges.len() && ranges[k].0 <= line <= #[trigger] ranges[k].1
}

/// `n` spaces.
pub open spec fn spaces(n: nat) -> Seq<char> {
    Seq::new(n, |i: int| ' ')
}

/// `c` with each tab replaced by the spaces that reach the next multiple of
/// four columns.
pub open spec fn expand(c: Seq<char>) -> Seq<char>
    decreases c.len(),
{
    if c.len() == 0 {
        Seq::empty()
    } else {
        let e = expand(c.drop_last());
        if c.last() == '\t' {
            e + spaces((4 - e.len() % 4) as nat)
        } else {
            e.push(c.last())
        }
    }
}

/// Anything but a tab.
pub open spec fn not_tab_pred() -> spec_fn(char) -> bool {
    |c: char| c != '\t'
}

/// The index of the first tab of `c`, or its length.
pub open spec fn first_tab(c: Seq<char>) -> int {
    advance(c, 0, not_tab_pred())
}

/// Line `i` as fixed: tabs expanded, unless it lies in a code block.
pub open spec fn fixed_content(
    lines: Seq<(Seq<char>, Seq<char>)>,
    ranges: Seq<(usize, usize)>,
    i: int,
) -> Seq<char> {
    if in_code(ranges, i + 1) {
        lines[i].0
    } else {
        expand(lines[i].0)
    }
}

/// One violation for each of the first `n` lines outside code blocks that
/// holds a tab, at its first tab.
pub open spec fn tab_violations(
    lines: Seq<(Seq<char>, Seq<char>)>,
    ranges: Seq<(usize, usize)>,
    n: int,
) -> Seq<(Seq<char>, Seq<char>, Span)>
    decreases n,
{
    if n <= 0 {
        Seq::empty()
    } else {
        let before = tab_violations(lines, ranges, n - 1);
        let c = lines[n - 1].0;
        if !in_code(ranges, n) && first_tab(c) < c.len() {
            before.push(
                (
                    ID@,
                    MESSAGE@,
                    Span { line: succ((n - 1) as nat), column: succ(first_tab(c) as nat), length: 1 },
                ),
            )
        } else {
            before
        }
    }
}

pub open spec fn spec_detect(source: Seq<char>, outline: Seq<Edge>) -> Seq<
    (Seq<char>, Seq<char>, Span),
> {
    let lines = spec_split_lines(source);
    tab_violations(lines, code_ranges(outline), lines.len() as int)
}

pub open spec fn spec_fix(source: Seq<char>, outline: Seq<Edge>) -> Seq<char> {
    let lines = spec_split_lines(source);
    let ranges = code_ranges(outline);
    join_lines(Seq::new(lines.len(), |i: int| (fixed_content(lines, ranges, i), lines[i].1)))
}

fn collect_code(outline: &Vec<Edge>) -> (ranges: Vec<(usize, usize)>)
    ensures
        ranges@ == code_ranges(outline@),
{
    let mut ranges: Vec<(usize, usize)> = Vec::new();
    let mut i: usize = 0;
    while i < outline.len()
        invariant
            i <= outline@.len(),
            ranges@ == code_ranges(outline@.take(i as int)),
        decreases outline@.len() - i,
    {
        let ghost prefix = outline@.take(i + 1);
        assert(prefix.drop_last() =~= outline@.take(i as int));
        assert(prefix.last() == outline@[i as int]);
        match outline[i] {
            Edge::Open { name, start_line, start_column, end_line, .. } => {
                if same_text(name, "code_block") {
                    ranges.push((start_line, end_line));
                }
            },
            Edge::Close => {},
        }
        i += 1;
    }
    assert(outline@.take(i as int) =~= outline@);
    ranges
}

fn is_in_code(ranges: &Vec<(usize, usize)>, line: usize) -> (b: bool)
    ensures
        b == in_code(ranges@, line as int),
{
    let mut k: usize = 0;
    while k < ranges.len()
        invariant
            k <= ranges@.len(),
            forall|j: int| 0 <= j < k ==> !(ranges@[j].0 <= line <= #[trigger] ranges@[j].1),
        decreases ranges@.len() - k,
    {
        if ranges[k].0 <= line && line <= ranges[k].1 {
            return true;
        }
        k += 1;
    }
    false
}

fn expand_tabs(c: &Vec<char>) -> (r: Vec<char>)
    ensures
        r@ == expand(c@),
{
    let mut out: Vec<char> = Vec::new();
    let mut j: usize = 0;
    while j < c.len()
        invariant
            j <= c@.len(),
            out@ == expand(c@.take(j as int)),
        decreases c@.len() - j,
    {
        let ghost t = c@.take(j + 1);
        assert(t.drop_last() =~= c@.take(j as int));
        assert(t.last() == c@[j as int]);
        if c[j] == '\t' {
            let ghost before = out@;
            let n = 4 - out.len() % 4;
            let mut k: usize = 0;
            while k < n
                invariant
                    k <= n,
                    out@ == before + spaces(k as nat),
                decreases n - k,
            {
                out.push(' ');
                k += 1;
                assert(out@ =~= before + spaces(k as nat));
            }
        } else {
            out.push(c[j]);
        }
        j += 1;
    }
    assert(c@.take(j as int) =~= c@);
    out
}

/// The index of the first tab of `c`, or its length.
fn first_tab_of(c: &Vec<char>) -> (i: usize)
    ensures
        i == first_tab(c@),
{
    let mut i: usize = 0;
    while i < c.len() && c[i] != '\t'
        invariant
            i <= c@.len(),
            advance(c@, i as int, not_tab_pred()) == advance(c@, 0, not_tab_pred()),
        decreases c@.len() - i,
    {
        i += 1;
    }
    i
}

/// Detect and fix in one pass so the two halves can never disagree.
fn analyze(doc: &Document) -> (r: (Vec<Violation>, String))
    ensures
        violations_view(r.0@) == spec_detect(doc.source@, doc.outline@),
        r.1@ == spec_fix(doc.source@, doc.outline@),
{
    let source = doc.source.as_str();
    let lines = split_lines(source);
    let ghost lv = lines_view(lines@);
    let ranges = collect_code(&doc.outline);
    let ghost fixed = Seq::new(
        lv.len(),
        |i: int| (fixed_content(lv, ranges@, i), lv[i].1),
    );
    let mut violations: Vec<Violation> = Vec::new();
    let mut out: Vec<char> = Vec::new();
    let mut i: usize = 0;
    while i < lines.len()
        invariant
            i <= lines@.len(),
            lv == lines_view(lines@),
            lv == spec_split_lines(source@),
            ranges@ == code_ranges(doc.outline@),
            fixed == Seq::new(lv.len(), |i: int| (fixed_content(lv, ranges@, i), lv[i].1)),
            out@ == join_lines(fixed.take(i as int)),
            violations_view(violations@) == tab_violations(lv, ranges@, i as int),
        decreases lines@.len() - i,
    {
        let content = chars_of(lines[i].content);
        let terminator = chars_of(lines[i].terminator);
        assert(content@ == lv[i as int].0);
        proof {
            lemma_join_lines_take(fixed, i as int);
        }
        if is_in_code(&ranges, i + 1) {
            append(&mut out, &content);
        } else {
            let expanded = expand_tabs(&content);
            append(&mut out, &expanded);
            let t = first_tab_of(&content);
            if t < content.len() {
                let v = Violation {
                    rule_id: ID,
                    message: MESSAGE.to_string(),
                    span: Span { line: i + 1, column: succ_of(t), length: 1 },
                };
                proof {
                    lemma_violations_push(violations@, v);
                }
                violations.push(v);
            }
        }
        append(&mut out, &terminator);
        i += 1;
    }
    assert(fixed.take(i as int) =~= fixed);
    let fixed_text = string_of(&out, 0, out.len());
    assert(out@.subrange(0, out@.len() as int) =~= out@);
    (violations, fixed_text)
}

impl HardTabs {
    pub fn id(&self) -> (r: &'static str)
        ensures
            r@ == ID@,
    {
        ID
    }

    pub fn short_reason(&self) -> (r: &'static str)
        ensures
            r@ == SHORT_REASON@,
    {
        SHORT_REASON
    }

    pub fn rationale(&self) -> (r: &'static str)
        ensures
            r@ == RATIONALE@,
    {
        RATIONALE
    }

    pub fn detect(&self, doc: &Document) -> (vs: Vec<Violation>)
        ensures
            violations_view(vs@) == spec_detect(doc.source@, doc.outline@),
    {
        analyze(doc).0
    }

    pub fn fix(&self, doc: &Document) -> (r: Option<String>)
        ensures
            r matches Some(fixed) && fixed@ == spec_fix(doc.source@, doc.outline@),
    {
        Some(analyze(doc).1)
    }
}

/// A line without tabs expands to itself.
pub proof fn lemma_expand_without_tabs(c: Seq<char>)
    requires
        forall|k: int| 0 <= k < c.len() ==> c[k] != '\t',
    ensures
        expand(c) == c,
    decreases c.len(),
{
    if c.len() > 0 {
        lemma_expand_without_tabs(c.drop_last());
        assert(c.drop_last().push(c.last()) =~= c);
    }
}

/// An expanded line holds no tab, and the spaces that stand for a tab reach
/// a four-column tab stop.
pub proof fn law_expanded_line_holds_no_tab(c: Seq<char>)
    ensures
        forall|k: int| 0 <= k < expand(c).len() ==> expand(c)[k] != '\t',
        c.len() > 0 && c.last() == '\t' ==> expand(c).len() % 4 == 0,
    decreases c.len(),
{
    if c.len() > 0 {
        law_expanded_line_holds_no_tab(c.drop_last());
        let e = expand(c.drop_last());
        if c.last() == '\t' {
            assert forall|k: int| 0 <= k < expand(c).len() implies expand(c)[k] != '\t' by {
                if k >= e.len() {
                    assert(expand(c)[k] == spaces((4 - e.len() % 4) as nat)[k - e.len()]);
                }
            }
        }
    }
}

proof fn lemma_no_tab_violations(
    lines: Seq<(Seq<char>, Seq<char>)>,
    ranges: Seq<(usize, usize)>,
    n: int,
)
    requires
        0 <= n <= lines.len(),
        tab_violations(lines, ranges, n).len() == 0,
    ensures
        forall|k: int| 0 <= k < n ==> fixed_content(lines, ranges, k) == #[trigger] lines[k].0,
    decreases n,
{
    if n > 0 {
        let c = lines[n - 1].0;
        if !in_code(ranges, n) && first_tab(c) < c.len() {
            assert(tab_violations(lines, ranges, n).len() == tab_violations(lines, ranges, n - 1).len() + 1);
        } else {
            lemma_no_tab_violations(lines, ranges, n - 1);
            if !in_code(ranges, n) {
                lemma_advance(c, 0, not_tab_pred());
                lemma_expand_without_tabs(c);
            }
        }
    }
}

/// Lint already reports everything format would change: when no tab is
/// reported, the fix gives back the source exactly.
pub proof fn law_no_violation_means_no_change(source: Seq<char>, outline: Seq<Edge>)
    requires
        spec_detect(source, outline).len() == 0,
    ensures
        spec_fix(source, outline) == source,
{
    let lines = spec_split_lines(source);
    let ranges = code_ranges(outline);
    lemma_no_tab_violations(lines, ranges, lines.len() as int);
    assert(Seq::new(lines.len(), |i: int| (fixed_content(lines, ranges, i), lines[i].1)) =~= lines);
    lemma_split_lines_rejoin(source);
}

/// Expanding twice is expanding once: with the same code blocks, the fixed
/// lines are their own fix.
pub proof fn law_fix_is_stable(lines: Seq<(Seq<char>, Seq<char>)>, ranges: Seq<(usize, usize)>)
    ensures
        ({
            let f = Seq::new(lines.len(), |i: int| (fixed_content(lines, ranges, i), lines[i].1));
            Seq::new(f.len(), |i: int| (fixed_content(f, ranges, i), f[i].1)) == f
        }),
{
    let f = Seq::new(lines.len(), |i: int| (fixed_content(lines, ranges, i), lines[i].1));
    assert forall|i: int| 0 <= i < f.len() implies fixed_content(f, ranges, i) == #[trigger] f[i].0 by {
        if !in_code(ranges, i + 1) {
            law_expanded_line_holds_no_tab(lines[i].0);
            lemma_expand_without_tabs(expand(lines[i].0));
        }
    }
    assert(Seq::new(f.len(), |i: int| (fixed_content(f, ranges, i), f[i].1)) =~= f);
}

} // verus!
