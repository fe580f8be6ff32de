use vstd::prelude::*;
use crate::ast::{Edge, NodeKind, kind_from_name, kind_of};
use crate::chars::{
    advance, append, chars_of, is_space, is_whitespace, retreat, skip_space_back, string_of, sub_vec,
    trim, trim_end, trim_range,
};
use crate::document::Document;
use crate::rules::headings::hash_pred;
use crate::text::{join_lines, lemma_join_lines_take, lemma_split_lines_rejoin, lines_view, spec_split_lines, split_lines};
use crate::violation::{Span, Violation, lemma_violations_push, violations_view};

verus! {

/// A one-line heading reads `#`s, one space and its text: extra spaces after
/// the marker and a closing run of `#`s are dropped.
pub struct AtxHeading;

pub const ID: &'static str = "atx-heading";

pub const SHORT_REASON: &'static str = "Headings use one space after the marker and no closing #s.";

pub const RATIONALE: &'static str = "A single space after the # marker and no trailing run of #s is the plain, canonical ATX form. Closing hashes and extra spaces are decorative, vary between authors, and add nothing the renderer uses.";

pub const MESSAGE: &'static str = "use one space after the # and no closing #s";

/// The one-line headings of an outline whose marker stands at their column,
/// as that line and column, in document order.
pub open spec fn atx_targets(contents: Seq<Seq<char>>, edges: Seq<Edge>) -> Seq<(usize, usize)>
    decreases edges.len(),
{
    if edges.len() == 0 {
        Seq::empty()
    } else {
        let before = atx_targets(contents, edges.drop_last());
        match edges.last() {
            Edge::Open { name, start_line, start_column, end_line, .. } => {
                if kind_of(name@) == NodeKind::Heading && 1 <= start_line && start_line == end_line
                    && end_line <= contents.len() && 1 <= start_column && start_column
                    <= contents[start_line - 1].len() && contents[start_line - 1][start_column
                    - 1] == '#' {
                    before.push((start_line, start_column))
                } else {
                    before
                }
            },
            Edge::Close => before,
        }
    }
}

/// A heading's text once its closing sequence is gone: a trailing run of `#`s
/// that is the whole text or follows whitespace is dropped with that
/// whitespace.
pub open spec fn without_closing(t: Seq<char>) -> Seq<char> {
    let b = retreat(t, t.len() as int, hash_pred());
    if b == 0 {
        Seq::empty()
    } else if b < t.len() && is_space(t[b - 1]) {
        trim_end(t.take(b))
    } else {
        t
    }
}

/// Line `c` with the heading whose marker starts at index `a` in canonical
/// form: what precedes it and its `#`s, then one space and its text, if any.
pub open spec fn canonical_atx(c: Seq<char>, a: int) -> Seq<char> {
    let h = advance(c, a, hash_pred());
    let text = without_closing(trim(c.subrange(h, c.len() as int)));
    c.take(h) + if text.len() == 0 {
        Seq::<char>::empty()
    } else {
        seq![' '] + text
    }
}

/// The line contents with the first `n` targets' headings made canonical.
pub open spec fn canonicalized(contents: Seq<Seq<char>>, targets: Seq<(usize, usize)>, n: int) -> Seq<
    Seq<char>,
>
    decreases n,
{
    if n <= 0 {
        contents
    } else {
        let before = canonicalized(contents, targets, n - 1);
        let (l, c) = targets[n - 1];
        if 1 <= l <= before.len() && 1 <= c && c - 1 <= before[l - 1].len() {
            before.update(l - 1, canonical_atx(before[l - 1], c - 1))
        } else {
            before
        }
    }
}

/// One violation for each of the first `n` targets whose line is not in
/// canonical form, at the heading's marker.
pub open spec fn atx_violations(contents: Seq<Seq<char>>, targets: Seq<(usize, usize)>, n: int) -> Seq<
    (Seq<char>, Seq<char>, Span),
>
    decreases n,
{
    if n <= 0 {
        Seq::empty()
    } else {
        let before = atx_violations(contents, targets, n - 1);
        let (l, c) = targets[n - 1];
        if 1 <= l <= contents.len() && 1 <= c && c - 1 <= contents[l - 1].len() && canonical_atx(
            contents[l - 1],
            c - 1,
        ) != contents[l - 1] {
            before.push((ID@, MESSAGE@, Span { line: l, column: c, length: 1 }))
        } else {
            before
        }
    }
}

pub open spec fn spec_detect(source: Seq<char>, outline: Seq<Edge>) -> Seq<
    (Seq<char>, Seq<char>, Span),
> {
    let contents = spec_split_lines(source).map_values(|l: (Seq<char>, Seq<char>)| l.0);
    let targets = atx_targets(contents, outline);
    atx_violations(contents, targets, targets.len() as int)
}

pub open spec fn spec_fix(source: Seq<char>, outline: Seq<Edge>) -> Seq<char> {
    let lines = spec_split_lines(source);
    let contents = lines.map_values(|l: (Seq<char>, Seq<char>)| l.0);
    let targets = atx_targets(contents, outline);
    let fixed = canonicalized(contents, targets, targets.len() as int);
    join_lines(Seq::new(lines.len(), |k: int| (fixed[k], lines[k].1)))
}

proof fn lemma_canonicalized_len(contents: Seq<Seq<char>>, targets: Seq<(usize, usize)>, n: int)
    ensures
        canonicalized(contents, targets, n).len() == contents.len(),
    decreases n,
{
    if n > 0 {
        lemma_canonicalized_len(contents, targets, n - 1);
    }
}

fn collect_atx(contents: &Vec<Vec<char>>, outline: &Vec<Edge>) -> (ts: Vec<(usize, usize)>)
    ensures
        ts@ == atx_targets(contents@.map_values(|v: Vec<char>| v@), outline@),
{
    let ghost cs = contents@.map_values(|v: Vec<char>| v@);
    let mut ts: Vec<(usize, usize)> = Vec::new();
    let mut i: usize = 0;
    while i < outline.len()
        invariant
            i <= outline@.len(),
            cs == contents@.map_values(|v: Vec<char>| v@),
            ts@ == atx_targets(cs, outline@.take(i as int)),
        decreases outline@.len() - i,
    {
        let ghost prefix = outline@.take(i + 1);
        assert(prefix.drop_last() =~= outline@.take(i as int));
        assert(prefix.last() == outline@[i as int]);
        match outline[i] {
            Edge::Open { name, start_line, start_column, end_line, .. } => {
                if kind_from_name(name) == NodeKind::Heading && 1 <= start_line && start_line
                    == end_line && end_line <= contents.len() && 1 <= start_column && start_column
                    <= contents[start_line - 1].len() {
                    assert(cs[start_line - 1] == contents@[start_line - 1]@);
                    if contents[start_line - 1][start_column - 1] == '#' {
                        ts.push((start_line, start_column));
                    }
                }
            },
            Edge::Close => {},
        }
        i += 1;
    }
    assert(outline@.take(i as int) =~= outline@);
    ts
}

/// `v` with the heading whose marker starts at index `a` in canonical form.
fn canonical_of(v: &Vec<char>, a: usize) -> (r: Vec<char>)
    requires
        a <= v@.len(),
    ensures
        r@ == canonical_atx(v@, a as int),
{
    let mut h = a;
    while h < v.len() && v[h] == '#'
        invariant
            a <= h <= v@.len(),
            advance(v@, h as int, hash_pred()) == advance(v@, a as int, hash_pred()),
        decreases v@.len() - h,
    {
        h += 1;
    }
    let (x, y) = trim_range(v, h, v.len());
    let ghost t = v@.subrange(x as int, y as int);
    let mut j = y;
    while j > x && v[j - 1] == '#'
        invariant
            x <= j <= y <= v@.len(),
            t == v@.subrange(x as int, y as int),
            retreat(t, j - x, hash_pred()) == retreat(t, t.len() as int, hash_pred()),
        decreases j,
    {
        assert(t[j - x - 1] == v@[j - 1]);
        j -= 1;
    }
    proof {
        if j > x {
            assert(t[j - x - 1] == v@[j - 1]);
        }
    }
    let mut out = sub_vec(v, 0, h);
    assert(out@ =~= v@.take(h as int));
    if j == x {
    } else if j < y && is_whitespace(v[j - 1]) {
        assert(t[j - x - 1] == v@[j - 1]);
        let e = skip_space_back(v, x, j);
        assert(v@.subrange(x as int, j as int) =~= t.take(j - x));
        if e > x {
            out.push(' ');
            let text = sub_vec(v, x, e);
            append(&mut out, &text);
        }
    } else {
        if y > x {
            out.push(' ');
            let text = sub_vec(v, x, y);
            append(&mut out, &text);
        }
    }
    assert(out@ =~= canonical_atx(v@, a as int));
    out
}

/// Whether two character vectors hold the same characters.
fn same(a: &Vec<char>, b: &Vec<char>) -> (r: bool)
    ensures
        r == (a@ == b@),
{
    if a.len() != b.len() {
        return false;
    }
    let mut k: usize = 0;
    while k < a.len()
        invariant
            k <= a@.len(),
            a@.len() == b@.len(),
            forall|j: int| 0 <= j < k ==> a@[j] == b@[j],
        decreases a@.len() - k,
    {
        if a[k] != b[k] {
            return false;
        }
        k += 1;
    }
    assert(a@ =~= b@);
    true
}

/// Detect and fix in one pass so the two halves can never disagree.
fn analyze(doc: &Document) -> (r: (Vec<Violation>, String))
    ensures
        violations_view(r.0@) == spec_detect(doc.source@, doc.outline@),
        r.1@ == spec_fix(doc.source@, doc.outline@),
{
    let source = doc.source.as_str();
    let lines = split_lines(source);
    let ghost lv = lines_view(lines@);
    let mut contents: Vec<Vec<char>> = Vec::new();
    let mut terms: Vec<Vec<char>> = Vec::new();
    let mut i: usize = 0;
    while i < lines.len()
        invariant
            i <= lines@.len(),
            lv == lines_view(lines@),
            contents@.len() == i,
            terms@.len() == i,
            forall|k: int| 0 <= k < i ==> lv[k] == (contents@[k]@, terms@[k]@),
        decreases lines@.len() - i,
    {
        contents.push(chars_of(lines[i].content));
        terms.push(chars_of(lines[i].terminator));
        i += 1;
    }
    let ghost cs = lv.map_values(|l: (Seq<char>, Seq<char>)| l.0);
    assert(contents@.map_values(|v: Vec<char>| v@) =~= cs);
    let targets = collect_atx(&contents, &doc.outline);
    let mut violations: Vec<Violation> = Vec::new();
    let mut t: usize = 0;
    while t < targets.len()
        invariant
            t <= targets@.len(),
            targets@ == atx_targets(cs, doc.outline@),
            contents@.map_values(|v: Vec<char>| v@) == cs,
            violations_view(violations@) == atx_violations(cs, targets@, t as int),
        decreases targets@.len() - t,
    {
        let (l, c) = targets[t];
        if 1 <= l && l <= contents.len() && 1 <= c && c - 1 <= contents[l - 1].len() {
            assert(cs[l - 1] == contents@[l - 1]@);
            let fixed_line = canonical_of(&contents[l - 1], c - 1);
            if !same(&fixed_line, &contents[l - 1]) {
                let v = Violation {
                    rule_id: ID,
                    message: MESSAGE.to_string(),
                    span: Span { line: l, column: c, length: 1 },
                };
                proof {
                    lemma_violations_push(violations@, v);
                }
                violations.push(v);
            }
        }
        t += 1;
    }
    let mut t: usize = 0;
    while t < targets.len()
        invariant
            t <= targets@.len(),
            contents@.len() == lv.len(),
            contents@.map_values(|v: Vec<char>| v@) == canonicalized(cs, targets@, t as int),
        decreases targets@.len() - t,
    {
        let (l, c) = targets[t];
        let ghost before = canonicalized(cs, targets@, t as int);
        proof {
            lemma_canonicalized_len(cs, targets@, t as int);
        }
        if 1 <= l && l <= contents.len() && 1 <= c && c - 1 <= contents[l - 1].len() {
            assert(before[l - 1] == contents@[l - 1]@);
            let row = canonical_of(&contents[l - 1], c - 1);
            contents.set(l - 1, row);
            assert(contents@.map_values(|v: Vec<char>| v@) =~= before.update(
                l - 1,
                canonical_atx(before[l - 1], c - 1),
            ));
        } else {
            assert(contents@.map_values(|v: Vec<char>| v@) =~= canonicalized(cs, targets@, t + 1));
        }
        t += 1;
    }
    let ghost fixed = canonicalized(cs, targets@, targets@.len() as int);
    let ghost pairs = Seq::new(lv.len(), |k: int| (fixed[k], lv[k].1));
    let mut out: Vec<char> = Vec::new();
    let mut k: usize = 0;
    while k < contents.len()
        invariant
            k <= contents@.len(),
            contents@.len() == lv.len(),
            terms@.len() == lv.len(),
            forall|j: int| 0 <= j < lv.len() ==> lv[j].1 == (#[trigger] terms@[j])@,
            contents@.map_values(|v: Vec<char>| v@) == fixed,
            pairs == Seq::new(lv.len(), |k: int| (fixed[k], lv[k].1)),
            out@ == join_lines(pairs.take(k as int)),
        decreases contents@.len() - k,
    {
        proof {
            lemma_join_lines_take(pairs, k as int);
        }
        assert(fixed[k as int] == contents@[k as int]@);
        append(&mut out, &contents[k]);
        append(&mut out, &terms[k]);
        k += 1;
    }
    assert(pairs.take(k as int) =~= pairs);
    let fixed_text = string_of(&out, 0, out.len());
    assert(out@.subrange(0, out@.len() as int) =~= out@);
    (violations, fixed_text)
}

impl AtxHeading {
    pub fn id(&self) -> (r: &'static str)
        ensures
            r@ == ID@,
    {
        ID
    }

    pub fn short_reason(&self) -> (r: &'static str)
        ensures
            r@ == SHORT_REASON@,
    {
        SHORT_REASON
    }

    pub fn rationale(&self) -> (r: &'static str)
        ensures
            r@ == RATIONALE@,
    {
        RATIONALE
    }

    pub fn detect(&self, doc: &Document) -> (vs: Vec<Violation>)
        ensures
            violations_view(vs@) == spec_detect(doc.source@, doc.outline@),
    {
        analyze(doc).0
    }

    pub fn fix(&self, doc: &Document) -> (r: Option<String>)
        ensures
            r matches Some(fixed) && fixed@ == spec_fix(doc.source@, doc.outline@),
    {
        Some(analyze(doc).1)
    }
}

proof fn lemma_nothing_changes(contents: Seq<Seq<char>>, targets: Seq<(usize, usize)>, n: int)
    requires
        0 <= n <= targets.len(),
        atx_violations(contents, targets, n).len() == 0,
    ensures
        canonicalized(contents, targets, n) == contents,
    decreases n,
{
    if n > 0 {
        let (l, c) = targets[n - 1];
        if 1 <= l <= contents.len() && 1 <= c && c - 1 <= contents[l - 1].len() && canonical_atx(
            contents[l - 1],
            c - 1,
        ) != contents[l - 1] {
            assert(atx_violations(contents, targets, n).len() == atx_violations(contents, targets, n - 1).len() + 1);
        } else {
            lemma_nothing_changes(contents, targets, n - 1);
            if 1 <= l <= contents.len() && 1 <= c && c - 1 <= contents[l - 1].len() {
                assert(contents.update(l - 1, contents[l - 1]) =~= contents);
            }
        }
    }
}

/// Lint already reports everything format would change: when no heading is
/// reported, the fix gives back the source exactly.
pub proof fn law_no_violation_means_no_change(source: Seq<char>, outline: Seq<Edge>)
    requires
        spec_detect(source, outline).len() == 0,
    ensures
        spec_fix(source, outline) == source,
{
    let lines = spec_split_lines(source);
    let contents = lines.map_values(|l: (Seq<char>, Seq<char>)| l.0);
    let targets = atx_targets(contents, outline);
    lemma_nothing_changes(contents, targets, targets.len() as int);
    assert(Seq::new(lines.len(), |k: int| (contents[k], lines[k].1)) =~= lines);
    lemma_split_lines_rejoin(source);
}

} // verus!
