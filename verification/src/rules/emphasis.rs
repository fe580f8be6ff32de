use vstd::prelude::*;
use crate::ast::{Edge, same_text};
use crate::chars::{alphanumeric, append, chars_of, is_alphanumeric, string_of};
use crate::document::Document;
use crate::text::{join_lines, lemma_join_lines_take, lemma_split_lines_rejoin, lines_view, spec_split_lines, split_lines};
use crate::violation::{Span, Violation, lemma_violations_push, violations_view};

verus! {

/// Emphasis is marked with `_` and strong emphasis with `**`. An emphasis
/// between `*`s gets `_`s, unless a letter or digit touches it from outside,
/// where `_` would not work; a strong emphasis between `__`s gets `**`s.
pub struct Emphasis;

pub const ID: &'static str = "emphasis";

pub const SHORT_REASON: &'static str = "Use _emphasis_ and **strong**.";

pub const RATIONALE: &'static str = "One marker for each kind of emphasis keeps prose consistent: `_` for emphasis, which stands out from the surrounding text, and `**` for strong, which works even inside a word. Conversions that would change how the text renders are left alone.";

pub const EMPH_MESSAGE: &'static str = "use _ for emphasis";

pub const STRONG_MESSAGE: &'static str = "use ** for strong emphasis";

/// Whether position `i` of line `c` is a character that is `ch`.
pub open spec fn char_at(c: Seq<char>, i: int, ch: char) -> bool {
    0 <= i < c.len() && c[i] == ch
}

/// Whether position `i` of line `c` is a letter or digit.
pub open spec fn word_at(c: Seq<char>, i: int) -> bool {
    0 <= i < c.len() && alphanumeric(c[i])
}

/// The emphases to rewrite, in document order: whether each is strong, and
/// its first line and column and last line and column.
pub open spec fn emphasis_targets(contents: Seq<Seq<char>>, edges: Seq<Edge>) -> Seq<
    (bool, usize, usize, usize, usize),
>
    decreases edges.len(),
{
    if edges.len() == 0 {
        Seq::empty()
    } else {
        let before = emphasis_targets(contents, edges.drop_last());
        match edges.last() {
            Edge::Open { name, start_line, start_column, end_line, end_column } => {
                if 1 <= start_line && start_line <= end_line && end_line <= contents.len() {
                    let c = contents[start_line - 1];
                    let e = contents[end_line - 1];
                    let a = start_column - 1;
                    let z = end_column - 1;
                    if name@ == "emph"@ && char_at(c, a, '*') && char_at(e, z, '*') && !word_at(
                        c,
                        a - 1,
                    ) && !word_at(e, z + 1) {
                        before.push((false, start_line, start_column, end_line, end_column))
                    } else if name@ == "strong"@ && char_at(c, a, '_') && char_at(c, a + 1, '_')
                        && char_at(e, z - 1, '_') && char_at(e, z, '_') {
                        before.push((true, start_line, start_column, end_line, end_column))
                    } else {
                        before
                    }
                } else {
                    before
                }
            },
            Edge::Close => before,
        }
    }
}

/// `cs` with the character at index `i` of line `l` (1-based) set to `ch`,
/// where there is one.
pub open spec fn put(cs: Seq<Seq<char>>, l: int, i: int, ch: char) -> Seq<Seq<char>> {
    if 1 <= l <= cs.len() && 0 <= i < cs[l - 1].len() {
        cs.update(l - 1, cs[l - 1].update(i, ch))
    } else {
        cs
    }
}

/// `cs` with the delimiters of target `t` rewritten.
pub open spec fn rewritten(cs: Seq<Seq<char>>, t: (bool, usize, usize, usize, usize)) -> Seq<Seq<char>> {
    let a = t.2 - 1;
    let z = t.4 - 1;
    if t.0 {
        put(put(put(put(cs, t.1 as int, a, '*'), t.1 as int, a + 1, '*'), t.3 as int, z - 1, '*'), t.3 as int, z, '*')
    } else {
        put(put(cs, t.1 as int, a, '_'), t.3 as int, z, '_')
    }
}

/// The line contents with the first `n` targets rewritten.
pub open spec fn edited(contents: Seq<Seq<char>>, targets: Seq<(bool, usize, usize, usize, usize)>, n: int) -> Seq<
    Seq<char>,
>
    decreases n,
{
    if n <= 0 {
        contents
    } else {
        rewritten(edited(contents, targets, n - 1), targets[n - 1])
    }
}

/// One violation per target, at its opening delimiter.
pub open spec fn emphasis_violations(targets: Seq<(bool, usize, usize, usize, usize)>) -> Seq<
    (Seq<char>, Seq<char>, Span),
> {
    targets.map_values(
        |t: (bool, usize, usize, usize, usize)|
            (
                ID@,
                if t.0 {
                    STRONG_MESSAGE@
                } else {
                    EMPH_MESSAGE@
                },
                Span { line: t.1, column: t.2, length: 1 },
            ),
    )
}

pub open spec fn spec_detect(source: Seq<char>, outline: Seq<Edge>) -> Seq<
    (Seq<char>, Seq<char>, Span),
> {
    let contents = spec_split_lines(source).map_values(|l: (Seq<char>, Seq<char>)| l.0);
    emphasis_violations(emphasis_targets(contents, outline))
}

pub open spec fn spec_fix(source: Seq<char>, outline: Seq<Edge>) -> Seq<char> {
    let lines = spec_split_lines(source);
    let contents = lines.map_values(|l: (Seq<char>, Seq<char>)| l.0);
    let targets = emphasis_targets(contents, outline);
    let fixed = edited(contents, targets, targets.len() as int);
    join_lines(Seq::new(lines.len(), |k: int| (fixed[k], lines[k].1)))
}

proof fn lemma_edited_len(contents: Seq<Seq<char>>, targets: Seq<(bool, usize, usize, usize, usize)>, n: int)
    ensures
        edited(contents, targets, n).len() == contents.len(),
    decreases n,
{
    if n > 0 {
        lemma_edited_len(contents, targets, n - 1);
    }
}

proof fn lemma_targets_valid(contents: Seq<Seq<char>>, edges: Seq<Edge>)
    ensures
        forall|k: int|
            0 <= k < emphasis_targets(contents, edges).len() ==> {
                let t = #[trigger] emphasis_targets(contents, edges)[k];
                &&& 1 <= t.2 && 1 <= t.4
                &&& t.0 ==> 2 <= t.4
            },
    decreases edges.len(),
{
    if edges.len() > 0 {
        lemma_targets_valid(contents, edges.drop_last());
        let before = emphasis_targets(contents, edges.drop_last());
        let all = emphasis_targets(contents, edges);
        assert forall|k: int| 0 <= k < all.len() implies {
            let t = #[trigger] all[k];
            &&& 1 <= t.2 && 1 <= t.4
            &&& t.0 ==> 2 <= t.4
        } by {
            if k < before.len() {
                assert(all[k] == before[k]);
            }
        }
    }
}

/// Whether index `i` of `v` is `ch`.
fn char_is(v: &Vec<char>, i: usize, ch: char) -> (b: bool)
    ensures
        b == char_at(v@, i as int, ch),
{
    i < v.len() && v[i] == ch
}

/// Whether index `i` of `v` is a letter or digit.
fn word_is(v: &Vec<char>, i: usize) -> (b: bool)
    ensures
        b == word_at(v@, i as int),
{
    i < v.len() && is_alphanumeric(v[i])
}

fn collect_emphasis(contents: &Vec<Vec<char>>, outline: &Vec<Edge>) -> (ts: Vec<
    (bool, usize, usize, usize, usize),
>)
    ensures
        ts@ == emphasis_targets(contents@.map_values(|v: Vec<char>| v@), outline@),
{
    let ghost cs = contents@.map_values(|v: Vec<char>| v@);
    let mut ts: Vec<(bool, usize, usize, usize, usize)> = Vec::new();
    let mut i: usize = 0;
    while i < outline.len()
        invariant
            i <= outline@.len(),
            cs == contents@.map_values(|v: Vec<char>| v@),
            ts@ == emphasis_targets(cs, outline@.take(i as int)),
        decreases outline@.len() - i,
    {
        let ghost prefix = outline@.take(i + 1);
        assert(prefix.drop_last() =~= outline@.take(i as int));
        assert(prefix.last() == outline@[i as int]);
        proof {
            reveal_strlit("emph");
            reveal_strlit("strong");
            assert("emph"@.len() != "strong"@.len());
        }
        match outline[i] {
            Edge::Open { name, start_line, start_column, end_line, end_column } => {
                if 1 <= start_line && start_line <= end_line && end_line <= contents.len() {
                    let c = &contents[start_line - 1];
                    let e = &contents[end_line - 1];
                    assert(cs[start_line - 1] == c@);
                    assert(cs[end_line - 1] == e@);
                    if same_text(name, "emph") && start_column >= 1 && end_column >= 1 {
                        let a = start_column - 1;
                        let z = end_column - 1;
                        let before_word = a >= 1 && word_is(c, a - 1);
                        let after_word = z < e.len() && word_is(e, z + 1);
                        if char_is(c, a, '*') && char_is(e, z, '*') && !before_word && !after_word {
                            ts.push((false, start_line, start_column, end_line, end_column));
                        }
                    } else if same_text(name, "strong") && start_column >= 1 && end_column >= 2
                        && start_column < c.len() {
                        let a = start_column - 1;
                        let z = end_column - 1;
                        if char_is(c, a, '_') && char_is(c, a + 1, '_') && char_is(e, z - 1, '_')
                            && char_is(e, z, '_') {
                            ts.push((true, start_line, start_column, end_line, end_column));
                        }
                    }
                }
            },
            Edge::Close => {},
        }
        i += 1;
    }
    assert(outline@.take(i as int) =~= outline@);
    ts
}

/// Sets the character at index `i` of line `l` (1-based) to `ch`, where there
/// is one.
fn put_char(contents: &mut Vec<Vec<char>>, l: usize, i: usize, ch: char)
    ensures
        final(contents)@.len() == old(contents)@.len(),
        final(contents)@.map_values(|v: Vec<char>| v@) == put(
            old(contents)@.map_values(|v: Vec<char>| v@),
            l as int,
            i as int,
            ch,
        ),
{
    let ghost before = contents@.map_values(|v: Vec<char>| v@);
    if 1 <= l && l <= contents.len() && i < contents[l - 1].len() {
        assert(before[l - 1] == contents@[l - 1]@);
        let mut row = crate::rules::sentence_per_line::copy_chars(&contents[l - 1]);
        row.set(i, ch);
        contents.set(l - 1, row);
        assert(contents@.map_values(|v: Vec<char>| v@) =~= before.update(
            l - 1,
            before[l - 1].update(i as int, ch),
        ));
    }
}

/// Detect and fix in one pass so the two halves can never disagree.
fn analyze(doc: &Document) -> (r: (Vec<Violation>, String))
    ensures
        violations_view(r.0@) == spec_detect(doc.source@, doc.outline@),
        r.1@ == spec_fix(doc.source@, doc.outline@),
{
    let source = doc.source.as_str();
    let lines = split_lines(source);
    let ghost lv = lines_view(lines@);
    let mut contents: Vec<Vec<char>> = Vec::new();
    let mut terms: Vec<Vec<char>> = Vec::new();
    let mut i: usize = 0;
    while i < lines.len()
        invariant
            i <= lines@.len(),
            lv == lines_view(lines@),
            contents@.len() == i,
            terms@.len() == i,
            forall|k: int| 0 <= k < i ==> lv[k] == (contents@[k]@, terms@[k]@),
        decreases lines@.len() - i,
    {
        contents.push(chars_of(lines[i].content));
        terms.push(chars_of(lines[i].terminator));
        i += 1;
    }
    let ghost cs = lv.map_values(|l: (Seq<char>, Seq<char>)| l.0);
    assert(contents@.map_values(|v: Vec<char>| v@) =~= cs);
    let targets = collect_emphasis(&contents, &doc.outline);
    proof {
        lemma_targets_valid(cs, doc.outline@);
    }
    let mut violations: Vec<Violation> = Vec::new();
    let mut t: usize = 0;
    while t < targets.len()
        invariant
            t <= targets@.len(),
            targets@ == emphasis_targets(cs, doc.outline@),
            forall|k: int|
                0 <= k < targets@.len() ==> {
                    let t = #[trigger] targets@[k];
                    &&& 1 <= t.2 && 1 <= t.4
                    &&& t.0 ==> 2 <= t.4
                },
            contents@.len() == cs.len(),
            contents@.map_values(|v: Vec<char>| v@) == edited(cs, targets@, t as int),
            violations_view(violations@) == emphasis_violations(targets@.take(t as int)),
        decreases targets@.len() - t,
    {
        let (strong, sl, sc, el, ec) = targets[t];
        proof {
            lemma_edited_len(cs, targets@, t as int);
        }
        let a = sc - 1;
        let z = ec - 1;
        if strong {
            put_char(&mut contents, sl, a, '*');
            put_char(&mut contents, sl, a + 1, '*');
            put_char(&mut contents, el, z - 1, '*');
            put_char(&mut contents, el, z, '*');
        } else {
            put_char(&mut contents, sl, a, '_');
            put_char(&mut contents, el, z, '_');
        }
        let message = if strong {
            STRONG_MESSAGE
        } else {
            EMPH_MESSAGE
        };
        let v = Violation {
            rule_id: ID,
            message: message.to_string(),
            span: Span { line: sl, column: sc, length: 1 },
        };
        proof {
            lemma_violations_push(violations@, v);
        }
        violations.push(v);
        assert(emphasis_violations(targets@.take(t + 1)) =~= emphasis_violations(
            targets@.take(t as int),
        ).push(v@));
        t += 1;
    }
    assert(targets@.take(t as int) =~= targets@);
    let ghost fixed = edited(cs, targets@, targets@.len() as int);
    proof {
        lemma_edited_len(cs, targets@, targets@.len() as int);
    }
    let ghost pairs = Seq::new(lv.len(), |k: int| (fixed[k], lv[k].1));
    let mut out: Vec<char> = Vec::new();
    let mut k: usize = 0;
    while k < contents.len()
        invariant
            k <= contents@.len(),
            contents@.len() == lv.len(),
            terms@.len() == lv.len(),
            forall|j: int| 0 <= j < lv.len() ==> lv[j].1 == (#[trigger] terms@[j])@,
            contents@.map_values(|v: Vec<char>| v@) == fixed,
            pairs == Seq::new(lv.len(), |k: int| (fixed[k], lv[k].1)),
            out@ == join_lines(pairs.take(k as int)),
        decreases contents@.len() - k,
    {
        proof {
            lemma_join_lines_take(pairs, k as int);
        }
        assert(fixed[k as int] == contents@[k as int]@);
        append(&mut out, &contents[k]);
        append(&mut out, &terms[k]);
        k += 1;
    }
    assert(pairs.take(k as int) =~= pairs);
    let fixed_text = string_of(&out, 0, out.len());
    assert(out@.subrange(0, out@.len() as int) =~= out@);
    (violations, fixed_text)
}

impl Emphasis {
    pub fn id(&self) -> (r: &'static str)
        ensures
            r@ == ID@,
    {
        ID
    }

    pub fn short_reason(&self) -> (r: &'static str)
        ensures
            r@ == SHORT_REASON@,
    {
        SHORT_REASON
    }

    pub fn rationale(&self) -> (r: &'static str)
        ensures
            r@ == RATIONALE@,
    {
        RATIONALE
    }

    pub fn detect(&self, doc: &Document) -> (vs: Vec<Violation>)
        ensures
            violations_view(vs@) == spec_detect(doc.source@, doc.outline@),
    {
        analyze(doc).0
    }

    pub fn fix(&self, doc: &Document) -> (r: Option<String>)
        ensures
            r matches Some(fixed) && fixed@ == spec_fix(doc.source@, doc.outline@),
    {
        Some(analyze(doc).1)
    }
}

/// Lint already reports everything format would change: when no emphasis is
/// reported, the fix gives back the source exactly.
pub proof fn law_no_violation_means_no_change(source: Seq<char>, outline: Seq<Edge>)
    requires
        spec_detect(source, outline).len() == 0,
    ensures
        spec_fix(source, outline) == source,
{
    let lines = spec_split_lines(source);
    let contents = lines.map_values(|l: (Seq<char>, Seq<char>)| l.0);
    let targets = emphasis_targets(contents, outline);
    assert(targets.len() == 0);
    assert(Seq::new(lines.len(), |k: int| (edited(contents, targets, 0)[k], lines[k].1)) =~= lines);
    lemma_split_lines_rejoin(source);
}

} // verus!
