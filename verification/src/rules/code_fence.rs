use vstd::prelude::*;
use crate::ast::{Edge, same_text};
use crate::chars::{advance, append, chars_of, skip_space, string_of, trim, trim_range, trim_start};
use crate::document::Document;
use crate::rules::heading_style::{all_of, is_all_of};
use crate::text::{join_lines, lemma_join_lines_take, lemma_split_lines_rejoin, lines_view, spec_split_lines, split_lines};
use crate::violation::{Span, Violation, lemma_violations_push, violations_view};

verus! {

/// Code blocks use backtick fences. A tilde fence becomes a backtick fence
/// of the same length when that is safe: it has its closing fence, its info
/// string holds no backtick and no line of its code starts a backtick fence.
/// An indented code block is reported and left as it is.
pub struct CodeFence;

pub const ID: &'static str = "code-fence";

pub const SHORT_REASON: &'static str = "Use backtick code fences, not tildes or indentation.";

pub const RATIONALE: &'static str = "Backtick fences are the most widely supported form and let you tag a language for highlighting. Tilde fences are converted to backticks when it is safe, meaning the code contains no backtick fence of its own. Indented code blocks are reported but not converted, because turning indentation into a fence can change how nearby text parses.";

pub const TILDE_MESSAGE: &'static str = "use a backtick fence";

pub const INDENTED_MESSAGE: &'static str = "use a fenced code block, not indentation";

/// A tilde.
pub open spec fn tilde_pred() -> spec_fn(char) -> bool {
    |c: char| c == '~'
}

/// The code blocks of an outline, as their first line, column and last line.
pub open spec fn code_targets(contents: Seq<Seq<char>>, edges: Seq<Edge>) -> Seq<(usize, usize, usize)>
    decreases edges.len(),
{
    if edges.len() == 0 {
        Seq::empty()
    } else {
        let before = code_targets(contents, edges.drop_last());
        match edges.last() {
            Edge::Open { name, start_line, start_column, end_line, .. } => {
                if name@ == "code_block"@ && 1 <= start_line && start_line <= end_line && end_line
                    <= contents.len() && 1 <= start_column && start_column <= contents[start_line
                    - 1].len() {
                    before.push((start_line, start_column, end_line))
                } else {
                    before
                }
            },
            Edge::Close => before,
        }
    }
}

/// How many tildes open the fence at index `a` of `c`.
pub open spec fn tilde_run(c: Seq<char>, a: int) -> int {
    advance(c, a, tilde_pred()) - a
}

/// Whether `s` starts with three backticks.
pub open spec fn backtick_fence(s: Seq<char>) -> bool {
    s.len() >= 3 && s[0] == '`' && s[1] == '`' && s[2] == '`'
}

/// Whether the code block `t` has a tilde fence that can become a backtick
/// fence.
pub open spec fn convertible(contents: Seq<Seq<char>>, t: (usize, usize, usize)) -> bool {
    let c = contents[t.0 - 1];
    let a = t.1 - 1;
    let n = tilde_run(c, a);
    let u = contents[t.2 - 1];
    &&& c[a] == '~'
    &&& n >= 3
    &&& t.0 < t.2
    &&& a <= u.len()
    &&& all_of(trim(u.subrange(a, u.len() as int)), '~')
    &&& trim(u.subrange(a, u.len() as int)).len() >= n
    &&& forall|k: int| a + n <= k < c.len() ==> c[k] != '`'
    &&& forall|j: int| t.0 <= j < t.2 - 1 ==> !backtick_fence(trim_start(#[trigger] contents[j]))
}

/// Whether the code block `t` is indented: it opens with neither fence.
pub open spec fn indented(contents: Seq<Seq<char>>, t: (usize, usize, usize)) -> bool {
    let c = contents[t.0 - 1];
    c[t.1 - 1] != '~' && c[t.1 - 1] != '`'
}

/// `c` with the `n` characters from index `a` made backticks.
pub open spec fn opened(c: Seq<char>, a: int, n: int) -> Seq<char> {
    Seq::new(c.len(), |k: int| if a <= k < a + n { '`' } else { c[k] })
}

/// `c` with every tilde from index `a` on made a backtick.
pub open spec fn closed(c: Seq<char>, a: int) -> Seq<char> {
    Seq::new(c.len(), |k: int| if a <= k && c[k] == '~' { '`' } else { c[k] })
}

/// The line contents with the convertible fences among the first `n` targets
/// made backtick fences.
pub open spec fn converted(contents: Seq<Seq<char>>, targets: Seq<(usize, usize, usize)>, n: int) -> Seq<
    Seq<char>,
>
    decreases n,
{
    if n <= 0 {
        contents
    } else {
        let before = converted(contents, targets, n - 1);
        let t = targets[n - 1];
        if convertible(contents, t) {
            let a = t.1 - 1;
            let run = tilde_run(contents[t.0 - 1], a);
            let b = before.update(t.0 - 1, opened(before[t.0 - 1], a, run));
            b.update(t.2 - 1, closed(b[t.2 - 1], a))
        } else {
            before
        }
    }
}

/// One violation for each of the first `n` targets that is convertible or
/// indented, at the block's first line and column.
pub open spec fn fence_violations(contents: Seq<Seq<char>>, targets: Seq<(usize, usize, usize)>, n: int) -> Seq<
    (Seq<char>, Seq<char>, Span),
>
    decreases n,
{
    if n <= 0 {
        Seq::empty()
    } else {
        let before = fence_violations(contents, targets, n - 1);
        let t = targets[n - 1];
        if convertible(contents, t) {
            before.push((ID@, TILDE_MESSAGE@, Span { line: t.0, column: t.1, length: 1 }))
        } else if indented(contents, t) {
            before.push((ID@, INDENTED_MESSAGE@, Span { line: t.0, column: t.1, length: 1 }))
        } else {
            before
        }
    }
}

pub open spec fn spec_detect(source: Seq<char>, outline: Seq<Edge>) -> Seq<
    (Seq<char>, Seq<char>, Span),
> {
    let contents = spec_split_lines(source).map_values(|l: (Seq<char>, Seq<char>)| l.0);
    let targets = code_targets(contents, outline);
    fence_violations(contents, targets, targets.len() as int)
}

pub open spec fn spec_fix(source: Seq<char>, outline: Seq<Edge>) -> Seq<char> {
    let lines = spec_split_lines(source);
    let contents = lines.map_values(|l: (Seq<char>, Seq<char>)| l.0);
    let targets = code_targets(contents, outline);
    let fixed = converted(contents, targets, targets.len() as int);
    join_lines(Seq::new(lines.len(), |k: int| (fixed[k], lines[k].1)))
}

pub proof fn lemma_converted_len(contents: Seq<Seq<char>>, targets: Seq<(usize, usize, usize)>, n: int)
    requires
        n <= targets.len(),
        forall|k: int|
            0 <= k < targets.len() ==> 1 <= (#[trigger] targets[k]).0 <= targets[k].2 <= contents.len(),
    ensures
        converted(contents, targets, n).len() == contents.len(),
    decreases n,
{
    if n > 0 {
        lemma_converted_len(contents, targets, n - 1);
        let t = targets[n - 1];
        assert(1 <= t.0 <= t.2 <= contents.len());
    }
}

pub proof fn lemma_targets_valid(contents: Seq<Seq<char>>, edges: Seq<Edge>)
    ensures
        forall|k: int|
            0 <= k < code_targets(contents, edges).len() ==> {
                let t = #[trigger] code_targets(contents, edges)[k];
                1 <= t.0 <= t.2 <= contents.len() && 1 <= t.1 <= contents[t.0 - 1].len()
            },
    decreases edges.len(),
{
    if edges.len() > 0 {
        lemma_targets_valid(contents, edges.drop_last());
        let before = code_targets(contents, edges.drop_last());
        let all = code_targets(contents, edges);
        assert forall|k: int| 0 <= k < all.len() implies {
            let t = #[trigger] all[k];
            1 <= t.0 <= t.2 <= contents.len() && 1 <= t.1 <= contents[t.0 - 1].len()
        } by {
            if k < before.len() {
                assert(all[k] == before[k]);
            }
        }
    }
}

fn collect_code(contents: &Vec<Vec<char>>, outline: &Vec<Edge>) -> (ts: Vec<(usize, usize, usize)>)
    ensures
        ts@ == code_targets(contents@.map_values(|v: Vec<char>| v@), outline@),
{
    let ghost cs = contents@.map_values(|v: Vec<char>| v@);
    let mut ts: Vec<(usize, usize, usize)> = Vec::new();
    let mut i: usize = 0;
    while i < outline.len()
        invariant
            i <= outline@.len(),
            cs == contents@.map_values(|v: Vec<char>| v@),
            ts@ == code_targets(cs, outline@.take(i as int)),
        decreases outline@.len() - i,
    {
        let ghost prefix = outline@.take(i + 1);
        assert(prefix.drop_last() =~= outline@.take(i as int));
        assert(prefix.last() == outline@[i as int]);
        match outline[i] {
            Edge::Open { name, start_line, start_column, end_line, .. } => {
                if same_text(name, "code_block") && 1 <= start_line && start_line <= end_line
                    && end_line <= contents.len() && 1 <= start_column && start_column
                    <= contents[start_line - 1].len() {
                    assert(cs[start_line - 1] == contents@[start_line - 1]@);
                    ts.push((start_line, start_column, end_line));
                }
            },
            Edge::Close => {},
        }
        i += 1;
    }
    assert(outline@.take(i as int) =~= outline@);
    ts
}

/// Whether the code block `t` has a tilde fence that can become a backtick
/// fence, and how many tildes open it.
#[verifier::loop_isolation(false)]
fn check_convertible(contents: &Vec<Vec<char>>, t: (usize, usize, usize)) -> (r: (bool, usize))
    requires
        1 <= t.0 <= t.2 <= contents@.len(),
        1 <= t.1 <= contents@[t.0 - 1]@.len(),
    ensures
        r.0 == convertible(contents@.map_values(|v: Vec<char>| v@), t),
        r.1 == tilde_run(contents@[t.0 - 1]@, t.1 - 1),
        r.1 <= contents@[t.0 - 1]@.len() - (t.1 - 1),
{
    let ghost cs = contents@.map_values(|v: Vec<char>| v@);
    let (s, col, e) = t;
    let c = &contents[s - 1];
    assert(cs[s - 1] == c@);
    let a = col - 1;
    let mut h = a;
    while h < c.len() && c[h] == '~'
        invariant
            a <= h <= c@.len(),
            advance(c@, h as int, tilde_pred()) == advance(c@, a as int, tilde_pred()),
        decreases c@.len() - h,
    {
        h += 1;
    }
    let n = h - a;
    if c[a] != '~' || n < 3 || s >= e {
        return (false, n);
    }
    let u = &contents[e - 1];
    assert(cs[e - 1] == u@);
    if a > u.len() {
        return (false, n);
    }
    let (x, y) = trim_range(u, a, u.len());
    if !is_all_of(u, x, y, '~') || y - x < n {
        return (false, n);
    }
    let mut k = h;
    while k < c.len()
        invariant
            h <= k <= c@.len(),
            forall|j: int| h <= j < k ==> c@[j] != '`',
        decreases c@.len() - k,
    {
        if c[k] == '`' {
            return (false, n);
        }
        k += 1;
    }
    let mut j = s;
    while j < e - 1
        invariant
            s <= j <= e - 1,
            e <= contents@.len(),
            cs == contents@.map_values(|v: Vec<char>| v@),
            forall|m: int| s <= m < j ==> !backtick_fence(trim_start(#[trigger] cs[m])),
        decreases e - 1 - j,
    {
        let line = &contents[j];
        assert(cs[j as int] == line@);
        let p = skip_space(line, 0, line.len());
        assert(line@.subrange(0, line@.len() as int) =~= line@);
        let ghost rest = line@.subrange(p as int, line@.len() as int);
        if line.len() - p >= 3 && line[p] == '`' && line[p + 1] == '`' && line[p + 2] == '`' {
            assert(rest[0] == line@[p as int]);
            assert(backtick_fence(trim_start(cs[j as int])));
            return (false, n);
        }
        proof {
            if rest.len() >= 3 {
                assert(rest[0] == line@[p as int]);
                assert(rest[1] == line@[p + 1]);
                assert(rest[2] == line@[p + 2]);
            }
        }
        j += 1;
    }
    (true, n)
}

/// `v` with the `n` characters from index `a` made backticks.
fn opened_of(v: &Vec<char>, a: usize, n: usize) -> (r: Vec<char>)
    ensures
        r@ == opened(v@, a as int, n as int),
{
    let mut out: Vec<char> = Vec::new();
    let mut k: usize = 0;
    while k < v.len()
        invariant
            k <= v@.len(),
            out@ == opened(v@, a as int, n as int).take(k as int),
        decreases v@.len() - k,
    {
        if a <= k && k - a < n {
            out.push('`');
        } else {
            out.push(v[k]);
        }
        k += 1;
        assert(out@ =~= opened(v@, a as int, n as int).take(k as int));
    }
    assert(opened(v@, a as int, n as int).take(k as int) =~= opened(v@, a as int, n as int));
    out
}

/// `v` with every tilde from index `a` on made a backtick.
fn closed_of(v: &Vec<char>, a: usize) -> (r: Vec<char>)
    ensures
        r@ == closed(v@, a as int),
{
    let mut out: Vec<char> = Vec::new();
    let mut k: usize = 0;
    while k < v.len()
        invariant
            k <= v@.len(),
            out@ == closed(v@, a as int).take(k as int),
        decreases v@.len() - k,
    {
        if a <= k && v[k] == '~' {
            out.push('`');
        } else {
            out.push(v[k]);
        }
        k += 1;
        assert(out@ =~= closed(v@, a as int).take(k as int));
    }
    assert(closed(v@, a as int).take(k as int) =~= closed(v@, a as int));
    out
}

/// Detect and fix in one pass so the two halves can never disagree.
fn analyze(doc: &Document) -> (r: (Vec<Violation>, String))
    ensures
        violations_view(r.0@) == spec_detect(doc.source@, doc.outline@),
        r.1@ == spec_fix(doc.source@, doc.outline@),
{
    let source = doc.source.as_str();
    let lines = split_lines(source);
    let ghost lv = lines_view(lines@);
    let mut contents: Vec<Vec<char>> = Vec::new();
    let mut terms: Vec<Vec<char>> = Vec::new();
    let mut i: usize = 0;
    while i < lines.len()
        invariant
            i <= lines@.len(),
            lv == lines_view(lines@),
            contents@.len() == i,
            terms@.len() == i,
            forall|k: int| 0 <= k < i ==> lv[k] == (contents@[k]@, terms@[k]@),
        decreases lines@.len() - i,
    {
        contents.push(chars_of(lines[i].content));
        terms.push(chars_of(lines[i].terminator));
        i += 1;
    }
    let ghost cs = lv.map_values(|l: (Seq<char>, Seq<char>)| l.0);
    assert(contents@.map_values(|v: Vec<char>| v@) =~= cs);
    let targets = collect_code(&contents, &doc.outline);
    proof {
        lemma_targets_valid(cs, doc.outline@);
    }
    let mut decisions: Vec<(bool, usize)> = Vec::new();
    let mut violations: Vec<Violation> = Vec::new();
    let mut t: usize = 0;
    while t < targets.len()
        invariant
            t <= targets@.len(),
            targets@ == code_targets(cs, doc.outline@),
            forall|k: int|
                0 <= k < targets@.len() ==> {
                    let t = #[trigger] targets@[k];
                    1 <= t.0 <= t.2 <= cs.len() && 1 <= t.1 <= cs[t.0 - 1].len()
                },
            contents@.map_values(|v: Vec<char>| v@) == cs,
            decisions@.len() == t,
            forall|k: int|
                0 <= k < t ==> (#[trigger] decisions@[k]).0 == convertible(cs, targets@[k])
                    && decisions@[k].1 == tilde_run(cs[targets@[k].0 - 1], targets@[k].1 - 1),
            violations_view(violations@) == fence_violations(cs, targets@, t as int),
        decreases targets@.len() - t,
    {
        let target = targets[t];
        assert(cs[target.0 - 1] == contents@[target.0 - 1]@);
        let d = check_convertible(&contents, target);
        decisions.push(d);
        let first = contents[target.0 - 1][target.1 - 1];
        if d.0 || (first != '~' && first != '`') {
            let message = if d.0 {
                TILDE_MESSAGE
            } else {
                INDENTED_MESSAGE
            };
            let v = Violation {
                rule_id: ID,
                message: message.to_string(),
                span: Span { line: target.0, column: target.1, length: 1 },
            };
            proof {
                lemma_violations_push(violations@, v);
            }
            violations.push(v);
        }
        t += 1;
    }
    let mut t: usize = 0;
    while t < targets.len()
        invariant
            t <= targets@.len(),
            forall|k: int|
                0 <= k < targets@.len() ==> {
                    let t = #[trigger] targets@[k];
                    1 <= t.0 <= t.2 <= cs.len() && 1 <= t.1 <= cs[t.0 - 1].len()
                },
            decisions@.len() == targets@.len(),
            forall|k: int|
                0 <= k < targets@.len() ==> (#[trigger] decisions@[k]).0 == convertible(cs, targets@[k])
                    && decisions@[k].1 == tilde_run(cs[targets@[k].0 - 1], targets@[k].1 - 1),
            contents@.len() == cs.len(),
            contents@.map_values(|v: Vec<char>| v@) == converted(cs, targets@, t as int),
        decreases targets@.len() - t,
    {
        let target = targets[t];
        let ghost before = converted(cs, targets@, t as int);
        proof {
            lemma_converted_len(cs, targets@, t as int);
        }
        if decisions[t].0 {
            let a = target.1 - 1;
            let run = decisions[t].1;
            assert(before[target.0 - 1] == contents@[target.0 - 1]@);
            let row = opened_of(&contents[target.0 - 1], a, run);
            contents.set(target.0 - 1, row);
            let ghost b = before.update(target.0 - 1, opened(before[target.0 - 1], a as int, run as int));
            assert(contents@.map_values(|v: Vec<char>| v@) =~= b);
            assert(b[target.2 - 1] == contents@[target.2 - 1]@);
            let row = closed_of(&contents[target.2 - 1], a);
            contents.set(target.2 - 1, row);
            assert(contents@.map_values(|v: Vec<char>| v@) =~= b.update(
                target.2 - 1,
                closed(b[target.2 - 1], a as int),
            ));
        }
        t += 1;
    }
    let ghost fixed = converted(cs, targets@, targets@.len() as int);
    let ghost pairs = Seq::new(lv.len(), |k: int| (fixed[k], lv[k].1));
    let mut out: Vec<char> = Vec::new();
    let mut k: usize = 0;
    while k < contents.len()
        invariant
            k <= contents@.len(),
            contents@.len() == lv.len(),
            terms@.len() == lv.len(),
            forall|j: int| 0 <= j < lv.len() ==> lv[j].1 == (#[trigger] terms@[j])@,
            contents@.map_values(|v: Vec<char>| v@) == fixed,
            pairs == Seq::new(lv.len(), |k: int| (fixed[k], lv[k].1)),
            out@ == join_lines(pairs.take(k as int)),
        decreases contents@.len() - k,
    {
        proof {
            lemma_join_lines_take(pairs, k as int);
        }
        assert(fixed[k as int] == contents@[k as int]@);
        append(&mut out, &contents[k]);
        append(&mut out, &terms[k]);
        k += 1;
    }
    assert(pairs.take(k as int) =~= pairs);
    let fixed_text = string_of(&out, 0, out.len());
    assert(out@.subrange(0, out@.len() as int) =~= out@);
    (violations, fixed_text)
}

impl CodeFence {
    pub fn id(&self) -> (r: &'static str)
        ensures
            r@ == ID@,
    {
        ID
    }

    pub fn short_reason(&self) -> (r: &'static str)
        ensures
            r@ == SHORT_REASON@,
    {
        SHORT_REASON
    }

    pub fn rationale(&self) -> (r: &'static str)
        ensures
            r@ == RATIONALE@,
    {
        RATIONALE
    }

    pub fn detect(&self, doc: &Document) -> (vs: Vec<Violation>)
        ensures
            violations_view(vs@) == spec_detect(doc.source@, doc.outline@),
    {
        analyze(doc).0
    }

    pub fn fix(&self, doc: &Document) -> (r: Option<String>)
        ensures
            r matches Some(fixed) && fixed@ == spec_fix(doc.source@, doc.outline@),
    {
        Some(analyze(doc).1)
    }
}

proof fn lemma_nothing_converted(contents: Seq<Seq<char>>, targets: Seq<(usize, usize, usize)>, n: int)
    requires
        0 <= n <= targets.len(),
        fence_violations(contents, targets, n).len() == 0,
    ensures
        converted(contents, targets, n) == contents,
    decreases n,
{
    if n > 0 {
        let t = targets[n - 1];
        if convertible(contents, t) || indented(contents, t) {
            assert(fence_violations(contents, targets, n).len() == fence_violations(contents, targets, n - 1).len() + 1);
        } else {
            lemma_nothing_converted(contents, targets, n - 1);
        }
    }
}

/// Lint already reports everything format would change: when no code block is
/// reported, the fix gives back the source exactly.
pub proof fn law_no_violation_means_no_change(source: Seq<char>, outline: Seq<Edge>)
    requires
        spec_detect(source, outline).len() == 0,
    ensures
        spec_fix(source, outline) == source,
{
    let lines = spec_split_lines(source);
    let contents = lines.map_values(|l: (Seq<char>, Seq<char>)| l.0);
    let targets = code_targets(contents, outline);
    lemma_nothing_converted(contents, targets, targets.len() as int);
    assert(Seq::new(lines.len(), |k: int| (contents[k], lines[k].1)) =~= lines);
    lemma_split_lines_rejoin(source);
}

} // verus!
