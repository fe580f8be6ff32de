use vstd::prelude::*;
use crate::ast::{Edge, NodeKind, kind_from_name, kind_of};
use crate::chars::{advance, append, chars_of, decimal, decimal_of, string_of, sub_vec};
use crate::document::Document;
use crate::rules::sentence_per_line::digit_pred;
use crate::text::{join_lines, lemma_join_lines_take, lemma_split_lines_rejoin, lines_view, spec_split_lines, split_lines};
use crate::violation::{Span, Violation, lemma_violations_push, violations_view};

verus! {

/// Ordered lists count up one at a time or repeat one number. A list whose
/// numbers do neither is renumbered to count up from its first number; its
/// delimiter and everything after each number stay as written.
pub struct OrderedList;

pub const ID: &'static str = "ordered-list";

pub const SHORT_REASON: &'static str = "Number ordered items in sequence or all the same.";

pub const RATIONALE: &'static str = "An ordered list may be numbered two ways. Sequential numbers (`1. 2. 3.`) match what the reader sees rendered and are easy to follow. Repeating one number (`1. 1. 1.`) renders identically and keeps diffs small, because inserting or removing an item never renumbers the rest. Either is fine, so a list that already uses one is left alone, keeping its starting number and delimiter. A list whose numbers vary without being sequential is the odd one out, and it is renumbered to count up from its first item.";

pub const MESSAGE: &'static str = "number the list in sequence";

/// The indices of the edges of the nodes open after walking `edges`,
/// outermost first.
pub open spec fn open_indices(edges: Seq<Edge>) -> Seq<usize>
    decreases edges.len(),
{
    if edges.len() == 0 {
        Seq::empty()
    } else {
        let before = open_indices(edges.drop_last());
        match edges.last() {
            Edge::Open { .. } => before.push((edges.len() - 1) as usize),
            Edge::Close => if before.len() > 0 {
                before.drop_last()
            } else {
                before
            },
        }
    }
}

/// The value of a decimal digit.
pub open spec fn digit_value(c: char) -> nat {
    if c == '1' {
        1
    } else if c == '2' {
        2
    } else if c == '3' {
        3
    } else if c == '4' {
        4
    } else if c == '5' {
        5
    } else if c == '6' {
        6
    } else if c == '7' {
        7
    } else if c == '8' {
        8
    } else if c == '9' {
        9
    } else {
        0
    }
}

/// The number that a run of digits spells.
pub open spec fn digits_value(s: Seq<char>) -> nat
    decreases s.len(),
{
    if s.len() == 0 {
        0
    } else {
        digits_value(s.drop_last()) * 10 + digit_value(s.last())
    }
}

/// `10` to the power `n`.
pub open spec fn pow10(n: nat) -> nat
    decreases n,
{
    if n == 0 {
        1
    } else {
        10 * pow10((n - 1) as nat)
    }
}

/// How many digits start at index `a` of `c`.
pub open spec fn digit_run(c: Seq<char>, a: int) -> int {
    advance(c, a, digit_pred()) - a
}

/// The ordered list items of an outline, in document order: the edge index of
/// the node they sit in, their line and column, and their number. An item's
/// number is the one to nine digits at its column.
pub open spec fn ordered_items(contents: Seq<Seq<char>>, edges: Seq<Edge>) -> Seq<
    (usize, usize, usize, nat),
>
    decreases edges.len(),
{
    if edges.len() == 0 {
        Seq::empty()
    } else {
        let before = ordered_items(contents, edges.drop_last());
        let parents = open_indices(edges.drop_last());
        match edges.last() {
            Edge::Open { name, start_line, start_column, end_line, .. } => {
                if kind_of(name@) == NodeKind::Item && 1 <= start_line && start_line
                    <= contents.len() && 1 <= start_column && start_column
                    <= contents[start_line - 1].len() && 1 <= digit_run(
                    contents[start_line - 1],
                    start_column - 1,
                ) <= 9 && parents.len() > 0 {
                    let c = contents[start_line - 1];
                    let a = start_column - 1;
                    before.push(
                        (
                            parents.last(),
                            start_line,
                            start_column,
                            digits_value(c.subrange(a, a + digit_run(c, a))),
                        ),
                    )
                } else {
                    before
                }
            },
            Edge::Close => before,
        }
    }
}

/// The numbers of the first `n` items that sit in the list `p`.
pub open spec fn numbers_of(items: Seq<(usize, usize, usize, nat)>, p: usize, n: int) -> Seq<nat>
    decreases n,
{
    if n <= 0 {
        Seq::empty()
    } else if items[n - 1].0 == p {
        numbers_of(items, p, n - 1).push(items[n - 1].3)
    } else {
        numbers_of(items, p, n - 1)
    }
}

/// Whether numbers count up one at a time from the first.
pub open spec fn sequential(ns: Seq<nat>) -> bool {
    forall|k: int| 0 <= k < ns.len() ==> #[trigger] ns[k] == ns[0] + k
}

/// Whether numbers all repeat the first.
pub open spec fn repeated(ns: Seq<nat>) -> bool {
    forall|k: int| 0 <= k < ns.len() ==> #[trigger] ns[k] == ns[0]
}

/// The number item `i` should carry: its own where its list counts up or
/// repeats, else its list's first number plus its place in the list.
pub open spec fn wanted(items: Seq<(usize, usize, usize, nat)>, i: int) -> nat {
    let ns = numbers_of(items, items[i].0, items.len() as int);
    let place = numbers_of(items, items[i].0, i).len();
    if sequential(ns) || repeated(ns) {
        items[i].3
    } else {
        ns[0] + place
    }
}

/// Line `c` with the digits at index `a` replaced by `d`.
pub open spec fn renumbered_line(c: Seq<char>, a: int, d: Seq<char>) -> Seq<char> {
    c.take(a) + d + c.subrange(advance(c, a, digit_pred()), c.len() as int)
}

/// The line contents with the first `n` items that need it renumbered.
pub open spec fn renumbered(contents: Seq<Seq<char>>, items: Seq<(usize, usize, usize, nat)>, n: int) -> Seq<
    Seq<char>,
>
    decreases n,
{
    if n <= 0 {
        contents
    } else {
        let before = renumbered(contents, items, n - 1);
        let it = items[n - 1];
        let w = wanted(items, n - 1);
        if w != it.3 && w <= usize::MAX && 1 <= it.1 <= before.len() && 1 <= it.2 && it.2 - 1
            <= before[it.1 - 1].len() {
            before.update(it.1 - 1, renumbered_line(before[it.1 - 1], it.2 - 1, decimal(w)))
        } else {
            before
        }
    }
}

/// One violation for each of the first `n` items whose number changes, at its
/// number.
pub open spec fn number_violations(items: Seq<(usize, usize, usize, nat)>, n: int) -> Seq<
    (Seq<char>, Seq<char>, Span),
>
    decreases n,
{
    if n <= 0 {
        Seq::empty()
    } else {
        let before = number_violations(items, n - 1);
        let w = wanted(items, n - 1);
        if w != items[n - 1].3 && w <= usize::MAX {
            before.push((ID@, MESSAGE@, Span { line: items[n - 1].1, column: items[n - 1].2, length: 1 }))
        } else {
            before
        }
    }
}

pub open spec fn spec_detect(source: Seq<char>, outline: Seq<Edge>) -> Seq<
    (Seq<char>, Seq<char>, Span),
> {
    let contents = spec_split_lines(source).map_values(|l: (Seq<char>, Seq<char>)| l.0);
    let items = ordered_items(contents, outline);
    number_violations(items, items.len() as int)
}

pub open spec fn spec_fix(source: Seq<char>, outline: Seq<Edge>) -> Seq<char> {
    let lines = spec_split_lines(source);
    let contents = lines.map_values(|l: (Seq<char>, Seq<char>)| l.0);
    let items = ordered_items(contents, outline);
    let fixed = renumbered(contents, items, items.len() as int);
    join_lines(Seq::new(lines.len(), |k: int| (fixed[k], lines[k].1)))
}

proof fn lemma_pow10_grows(n: nat)
    requires
        n <= 9,
    ensures
        pow10(n) <= 1_000_000_000,
    decreases 9 - n,
{
    if n < 9 {
        lemma_pow10_grows(n + 1);
        assert(pow10(n + 1) == 10 * pow10(n));
    } else {
        reveal_with_fuel(pow10, 10);
    }
}

proof fn lemma_renumbered_len(contents: Seq<Seq<char>>, items: Seq<(usize, usize, usize, nat)>, n: int)
    ensures
        renumbered(contents, items, n).len() == contents.len(),
    decreases n,
{
    if n > 0 {
        lemma_renumbered_len(contents, items, n - 1);
    }
}

/// The value of a decimal digit.
fn digit_value_of(c: char) -> (v: usize)
    ensures
        v == digit_value(c),
{
    if c == '1' {
        1
    } else if c == '2' {
        2
    } else if c == '3' {
        3
    } else if c == '4' {
        4
    } else if c == '5' {
        5
    } else if c == '6' {
        6
    } else if c == '7' {
        7
    } else if c == '8' {
        8
    } else if c == '9' {
        9
    } else {
        0
    }
}

/// How many digits start at index `a` of `c`, and the number they spell where
/// there are one to nine.
fn number_at(c: &Vec<char>, a: usize) -> (r: (usize, usize))
    requires
        a <= c@.len(),
    ensures
        r.0 == digit_run(c@, a as int),
        1 <= r.0 <= 9 ==> r.1 == digits_value(c@.subrange(a as int, a + r.0)),
{
    let mut h = a;
    while h < c.len() && '0' <= c[h] && c[h] <= '9'
        invariant
            a <= h <= c@.len(),
            advance(c@, h as int, digit_pred()) == advance(c@, a as int, digit_pred()),
        decreases c@.len() - h,
    {
        h += 1;
    }
    let run = h - a;
    if run < 1 || run > 9 {
        return (run, 0);
    }
    let mut v: usize = 0;
    let mut k = a;
    while k < h
        invariant
            a <= k <= h <= c@.len(),
            h - a <= 9,
            v == digits_value(c@.subrange(a as int, k as int)),
            v < pow10((k - a) as nat),
        decreases h - k,
    {
        proof {
            lemma_pow10_grows((k + 1 - a) as nat);
            assert(pow10((k + 1 - a) as nat) == 10 * pow10((k - a) as nat));
            assert(c@.subrange(a as int, k + 1).drop_last() =~= c@.subrange(a as int, k as int));
        }
        v = v * 10 + digit_value_of(c[k]);
        k += 1;
    }
    (run, v)
}

/// The ordered list items of an outline, as `ordered_items` gives them.
fn collect_items(contents: &Vec<Vec<char>>, outline: &Vec<Edge>) -> (items: Vec<
    (usize, usize, usize, usize),
>)
    ensures
        items@.map_values(|x: (usize, usize, usize, usize)| (x.0, x.1, x.2, x.3 as nat))
            == ordered_items(contents@.map_values(|v: Vec<char>| v@), outline@),
{
    let ghost cs = contents@.map_values(|v: Vec<char>| v@);
    let mut stack: Vec<usize> = Vec::new();
    let mut items: Vec<(usize, usize, usize, usize)> = Vec::new();
    let mut i: usize = 0;
    while i < outline.len()
        invariant
            i <= outline@.len(),
            cs == contents@.map_values(|v: Vec<char>| v@),
            stack@ == open_indices(outline@.take(i as int)),
            items@.map_values(|x: (usize, usize, usize, usize)| (x.0, x.1, x.2, x.3 as nat))
                == ordered_items(cs, outline@.take(i as int)),
        decreases outline@.len() - i,
    {
        let ghost prefix = outline@.take(i + 1);
        assert(prefix.drop_last() =~= outline@.take(i as int));
        assert(prefix.last() == outline@[i as int]);
        assert(prefix.len() - 1 == i);
        match outline[i] {
            Edge::Open { name, start_line, start_column, end_line, .. } => {
                if kind_from_name(name) == NodeKind::Item && 1 <= start_line && start_line
                    <= contents.len() && 1 <= start_column && start_column
                    <= contents[start_line - 1].len() && stack.len() > 0 {
                    assert(cs[start_line - 1] == contents@[start_line - 1]@);
                    let (run, value) = number_at(&contents[start_line - 1], start_column - 1);
                    if 1 <= run && run <= 9 {
                        let ghost before = items@.map_values(
                            |x: (usize, usize, usize, usize)| (x.0, x.1, x.2, x.3 as nat),
                        );
                        items.push((stack[stack.len() - 1], start_line, start_column, value));
                        assert(items@.map_values(
                            |x: (usize, usize, usize, usize)| (x.0, x.1, x.2, x.3 as nat),
                        ) =~= before.push(
                            (stack@.last(), start_line, start_column, value as nat),
                        ));
                    }
                }
                stack.push(i);
            },
            Edge::Close => {
                if stack.len() > 0 {
                    stack.pop();
                }
            },
        }
        i += 1;
    }
    assert(outline@.take(i as int) =~= outline@);
    items
}

/// The number item `i` should carry, where it fits a `usize`.
fn wanted_of(items: &Vec<(usize, usize, usize, usize)>, i: usize) -> (r: Option<usize>)
    requires
        i < items@.len(),
    ensures
        ({
            let iv = items@.map_values(|x: (usize, usize, usize, usize)| (x.0, x.1, x.2, x.3 as nat));
            match r {
                Some(w) => w == wanted(iv, i as int),
                None => wanted(iv, i as int) > usize::MAX,
            }
        }),
{
    let ghost iv = items@.map_values(|x: (usize, usize, usize, usize)| (x.0, x.1, x.2, x.3 as nat));
    let p = items[i].0;
    let mut ns: Vec<usize> = Vec::new();
    let mut place: usize = 0;
    let mut j: usize = 0;
    while j < items.len()
        invariant
            j <= items@.len(),
            i < items@.len(),
            p == items@[i as int].0,
            iv == items@.map_values(|x: (usize, usize, usize, usize)| (x.0, x.1, x.2, x.3 as nat)),
            ns@.map_values(|x: usize| x as nat) == numbers_of(iv, p, j as int),
            ns@.len() <= j,
            j > i ==> place == numbers_of(iv, p, i as int).len(),
        decreases items@.len() - j,
    {
        if j == i {
            place = ns.len();
        }
        if items[j].0 == p {
            let ghost before = ns@.map_values(|x: usize| x as nat);
            ns.push(items[j].3);
            assert(ns@.map_values(|x: usize| x as nat) =~= before.push(items[j as int].3 as nat));
        }
        j += 1;
    }
    let ghost nv = numbers_of(iv, p, items@.len() as int);
    assert(ns@.map_values(|x: usize| x as nat) == nv);
    assert(nv.len() > 0) by {
        lemma_numbers_of_holds(iv, p, i as int, items@.len() as int);
    }
    let first = ns[0];
    let mut seq = true;
    let mut same = true;
    let mut k: usize = 0;
    while k < ns.len()
        invariant
            k <= ns@.len(),
            ns@.len() > 0,
            first == ns@[0],
            seq == (forall|m: int| 0 <= m < k ==> #[trigger] ns@[m] == ns@[0] + m),
            same == (forall|m: int| 0 <= m < k ==> #[trigger] ns@[m] == ns@[0]),
        decreases ns@.len() - k,
    {
        if !(ns[k] >= first && ns[k] - first == k) {
            seq = false;
        }
        if ns[k] != first {
            same = false;
        }
        k += 1;
    }
    assert(seq == sequential(nv)) by {
        if seq {
            assert forall|m: int| 0 <= m < nv.len() implies #[trigger] nv[m] == nv[0] + m by {
                assert(nv[m] == ns@[m] as nat);
            }
        } else {
            let m = choose|m: int| 0 <= m < k && !(#[trigger] ns@[m] == ns@[0] + m);
            assert(nv[m] == ns@[m] as nat);
        }
    }
    assert(same == repeated(nv)) by {
        if same {
            assert forall|m: int| 0 <= m < nv.len() implies #[trigger] nv[m] == nv[0] by {
                assert(nv[m] == ns@[m] as nat);
            }
        } else {
            let m = choose|m: int| 0 <= m < k && !(#[trigger] ns@[m] == ns@[0]);
            assert(nv[m] == ns@[m] as nat);
        }
    }
    if seq || same {
        Some(items[i].3)
    } else if place <= usize::MAX - first {
        Some(first + place)
    } else {
        None
    }
}

/// Whether the item at index `i` is counted among the numbers of its list.
proof fn lemma_numbers_of_holds(items: Seq<(usize, usize, usize, nat)>, p: usize, i: int, n: int)
    requires
        0 <= i < n <= items.len(),
        items[i].0 == p,
    ensures
        numbers_of(items, p, n).len() > 0,
    decreases n,
{
    if n - 1 > i {
        lemma_numbers_of_holds(items, p, i, n - 1);
    }
}

/// `v` with the digits at index `a` replaced by `d`.
fn renumbered_of(v: &Vec<char>, a: usize, d: &Vec<char>) -> (r: Vec<char>)
    requires
        a <= v@.len(),
    ensures
        r@ == renumbered_line(v@, a as int, d@),
{
    let mut h = a;
    while h < v.len() && '0' <= v[h] && v[h] <= '9'
        invariant
            a <= h <= v@.len(),
            advance(v@, h as int, digit_pred()) == advance(v@, a as int, digit_pred()),
        decreases v@.len() - h,
    {
        h += 1;
    }
    let mut out = sub_vec(v, 0, a);
    append(&mut out, d);
    let rest = sub_vec(v, h, v.len());
    append(&mut out, &rest);
    assert(out@ =~= renumbered_line(v@, a as int, d@));
    out
}

/// Detect and fix in one pass so the two halves can never disagree.
fn analyze(doc: &Document) -> (r: (Vec<Violation>, String))
    ensures
        violations_view(r.0@) == spec_detect(doc.source@, doc.outline@),
        r.1@ == spec_fix(doc.source@, doc.outline@),
{
    let source = doc.source.as_str();
    let lines = split_lines(source);
    let ghost lv = lines_view(lines@);
    let mut contents: Vec<Vec<char>> = Vec::new();
    let mut terms: Vec<Vec<char>> = Vec::new();
    let mut i: usize = 0;
    while i < lines.len()
        invariant
            i <= lines@.len(),
            lv == lines_view(lines@),
            contents@.len() == i,
            terms@.len() == i,
            forall|k: int| 0 <= k < i ==> lv[k] == (contents@[k]@, terms@[k]@),
        decreases lines@.len() - i,
    {
        contents.push(chars_of(lines[i].content));
        terms.push(chars_of(lines[i].terminator));
        i += 1;
    }
    let ghost cs = lv.map_values(|l: (Seq<char>, Seq<char>)| l.0);
    assert(contents@.map_values(|v: Vec<char>| v@) =~= cs);
    let items = collect_items(&contents, &doc.outline);
    let ghost iv = items@.map_values(|x: (usize, usize, usize, usize)| (x.0, x.1, x.2, x.3 as nat));
    let mut violations: Vec<Violation> = Vec::new();
    let mut t: usize = 0;
    while t < items.len()
        invariant
            t <= items@.len(),
            iv == items@.map_values(|x: (usize, usize, usize, usize)| (x.0, x.1, x.2, x.3 as nat)),
            iv == ordered_items(cs, doc.outline@),
            contents@.len() == cs.len(),
            contents@.map_values(|v: Vec<char>| v@) == renumbered(cs, iv, t as int),
            violations_view(violations@) == number_violations(iv, t as int),
        decreases items@.len() - t,
    {
        let (_, l, c, n) = items[t];
        let ghost before = renumbered(cs, iv, t as int);
        proof {
            lemma_renumbered_len(cs, iv, t as int);
        }
        match wanted_of(&items, t) {
            Some(w) => {
                if w != n {
                    let v = Violation {
                        rule_id: ID,
                        message: MESSAGE.to_string(),
                        span: Span { line: l, column: c, length: 1 },
                    };
                    proof {
                        lemma_violations_push(violations@, v);
                    }
                    violations.push(v);
                    if 1 <= l && l <= contents.len() && 1 <= c && c - 1 <= contents[l - 1].len() {
                        assert(before[l - 1] == contents@[l - 1]@);
                        let digits = decimal_of(w);
                        let row = renumbered_of(&contents[l - 1], c - 1, &digits);
                        contents.set(l - 1, row);
                        assert(contents@.map_values(|v: Vec<char>| v@) =~= before.update(
                            l - 1,
                            renumbered_line(before[l - 1], c - 1, decimal(w as nat)),
                        ));
                    }
                }
            },
            None => {},
        }
        t += 1;
    }
    let ghost fixed = renumbered(cs, iv, iv.len() as int);
    let ghost pairs = Seq::new(lv.len(), |k: int| (fixed[k], lv[k].1));
    let mut out: Vec<char> = Vec::new();
    let mut k: usize = 0;
    while k < contents.len()
        invariant
            k <= contents@.len(),
            contents@.len() == lv.len(),
            terms@.len() == lv.len(),
            forall|j: int| 0 <= j < lv.len() ==> lv[j].1 == (#[trigger] terms@[j])@,
            contents@.map_values(|v: Vec<char>| v@) == fixed,
            pairs == Seq::new(lv.len(), |k: int| (fixed[k], lv[k].1)),
            out@ == join_lines(pairs.take(k as int)),
        decreases contents@.len() - k,
    {
        proof {
            lemma_join_lines_take(pairs, k as int);
        }
        assert(fixed[k as int] == contents@[k as int]@);
        append(&mut out, &contents[k]);
        append(&mut out, &terms[k]);
        k += 1;
    }
    assert(pairs.take(k as int) =~= pairs);
    let fixed_text = string_of(&out, 0, out.len());
    assert(out@.subrange(0, out@.len() as int) =~= out@);
    (violations, fixed_text)
}

impl OrderedList {
    pub fn id(&self) -> (r: &'static str)
        ensures
            r@ == ID@,
    {
        ID
    }

    pub fn short_reason(&self) -> (r: &'static str)
        ensures
            r@ == SHORT_REASON@,
    {
        SHORT_REASON
    }

    pub fn rationale(&self) -> (r: &'static str)
        ensures
            r@ == RATIONALE@,
    {
        RATIONALE
    }

    pub fn detect(&self, doc: &Document) -> (vs: Vec<Violation>)
        ensures
            violations_view(vs@) == spec_detect(doc.source@, doc.outline@),
    {
        analyze(doc).0
    }

    pub fn fix(&self, doc: &Document) -> (r: Option<String>)
        ensures
            r matches Some(fixed) && fixed@ == spec_fix(doc.source@, doc.outline@),
    {
        Some(analyze(doc).1)
    }
}

proof fn lemma_nothing_renumbered(contents: Seq<Seq<char>>, items: Seq<(usize, usize, usize, nat)>, n: int)
    requires
        0 <= n <= items.len(),
        number_violations(items, n).len() == 0,
    ensures
        renumbered(contents, items, n) == contents,
    decreases n,
{
    if n > 0 {
        let w = wanted(items, n - 1);
        if w != items[n - 1].3 && w <= usize::MAX {
            assert(number_violations(items, n).len() == number_violations(items, n - 1).len() + 1);
        } else {
            lemma_nothing_renumbered(contents, items, n - 1);
        }
    }
}

/// Lint already reports everything format would change: when no item is
/// reported, the fix gives back the source exactly.
pub proof fn law_no_violation_means_no_change(source: Seq<char>, outline: Seq<Edge>)
    requires
        spec_detect(source, outline).len() == 0,
    ensures
        spec_fix(source, outline) == source,
{
    let lines = spec_split_lines(source);
    let contents = lines.map_values(|l: (Seq<char>, Seq<char>)| l.0);
    let items = ordered_items(contents, outline);
    lemma_nothing_renumbered(contents, items, items.len() as int);
    assert(Seq::new(lines.len(), |k: int| (contents[k], lines[k].1)) =~= lines);
    lemma_split_lines_rejoin(source);
}

/// A list that already counts up or repeats one number keeps every number.
pub proof fn law_counting_or_repeating_lists_are_kept(items: Seq<(usize, usize, usize, nat)>, i: int)
    requires
        0 <= i < items.len(),
        sequential(numbers_of(items, items[i].0, items.len() as int)) || repeated(
            numbers_of(items, items[i].0, items.len() as int),
        ),
    ensures
        wanted(items, i) == items[i].3,
{
}

} // verus!
