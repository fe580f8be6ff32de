//! Human-readable, rustc-style rendering of violations, GitHub workflow
//! annotations, and the rule catalog.
use vstd::prelude::*;
use crate::chars::{
    append, chars_of, decimal, decimal_of, push_chars, replace, replace_all, string_of, trim,
    trim_range,
};
use crate::rule::{Rule, RuleKind};
use crate::violation::{Span, Violation, violations_view};

verus! {

pub const RED: &'static str = "\x1b[31m";

pub const BOLD: &'static str = "\x1b[1m";

pub const RESET: &'static str = "\x1b[0m";

/// Whether violation `a` comes no later than `b` in reading order.
pub open spec fn pos_le(a: Span, b: Span) -> bool {
    a.line < b.line || (a.line == b.line && a.column <= b.column)
}

/// Where index `i` goes in `order`: before the first entry whose span comes
/// strictly after `spans[i]`, so equal positions keep their order.
pub open spec fn insert_point(order: Seq<int>, spans: Seq<Span>, i: int, from: int) -> int
    decreases order.len() - from,
{
    if from < 0 || from >= order.len() {
        order.len() as int
    } else if !pos_le(spans[order[from]], spans[i]) {
        from
    } else {
        insert_point(order, spans, i, from + 1)
    }
}

pub proof fn lemma_insert_point(order: Seq<int>, spans: Seq<Span>, i: int, from: int)
    requires
        0 <= from <= order.len(),
    ensures
        from <= insert_point(order, spans, i, from) <= order.len(),
        forall|k: int|
            from <= k < insert_point(order, spans, i, from) ==> pos_le(
                spans[#[trigger] order[k]],
                spans[i],
            ),
        insert_point(order, spans, i, from) < order.len() ==> !pos_le(
            spans[order[insert_point(order, spans, i, from)]],
            spans[i],
        ),
    decreases order.len() - from,
{
    if from < order.len() && pos_le(spans[order[from]], spans[i]) {
        lemma_insert_point(order, spans, i, from + 1);
    }
}

/// The indices of the first `n` spans in reading order, by (line, column),
/// keeping equal positions in their original order: a stable sort.
pub open spec fn stable_order(spans: Seq<Span>, n: int) -> Seq<int>
    decreases n,
{
    if n <= 0 {
        Seq::empty()
    } else {
        let order = stable_order(spans, n - 1);
        order.insert(insert_point(order, spans, n - 1, 0), n - 1)
    }
}

pub open spec fn spans_of(vs: Seq<(Seq<char>, Seq<char>, Span)>) -> Seq<Span> {
    vs.map_values(|v: (Seq<char>, Seq<char>, Span)| v.2)
}

pub proof fn lemma_stable_order(spans: Seq<Span>, n: int)
    requires
        0 <= n,
    ensures
        stable_order(spans, n).len() == n,
        forall|k: int| 0 <= k < n ==> 0 <= #[trigger] stable_order(spans, n)[k] < n,
    decreases n,
{
    if n > 0 {
        lemma_stable_order(spans, n - 1);
        let order = stable_order(spans, n - 1);
        let p = insert_point(order, spans, n - 1, 0);
        lemma_insert_point(order, spans, n - 1, 0);
        assert forall|k: int| 0 <= k < n implies 0 <= #[trigger] stable_order(spans, n)[k] < n by {
            if k < p {
                assert(stable_order(spans, n)[k] == order[k]);
            } else if k > p {
                assert(stable_order(spans, n)[k] == order[k - 1]);
            }
        }
    }
}

/// Whether two violations sit at the same line and column.
pub open spec fn same_place(a: Span, b: Span) -> bool {
    a.line == b.line && a.column == b.column
}

/// A report lists violations in reading order, by line and then column, and
/// each exactly once; violations at one place keep the order the rules found
/// them in.
pub proof fn law_report_order(spans: Seq<Span>, n: int)
    requires
        0 <= n <= spans.len(),
    ensures
        stable_order(spans, n).len() == n,
        forall|k: int| 0 <= k < n ==> 0 <= #[trigger] stable_order(spans, n)[k] < n,
        forall|j: int, k: int|
            0 <= j < k < n ==> stable_order(spans, n)[j] != stable_order(spans, n)[k],
        forall|j: int, k: int|
            0 <= j < k < n ==> pos_le(
                spans[#[trigger] stable_order(spans, n)[j]],
                spans[#[trigger] stable_order(spans, n)[k]],
            ),
        forall|j: int, k: int|
            0 <= j < k < n && same_place(
                spans[#[trigger] stable_order(spans, n)[j]],
                spans[#[trigger] stable_order(spans, n)[k]],
            ) ==> stable_order(spans, n)[j] < stable_order(spans, n)[k],
    decreases n,
{
    lemma_stable_order(spans, n);
    if n > 0 {
        law_report_order(spans, n - 1);
        let order = stable_order(spans, n - 1);
        let all = stable_order(spans, n);
        let p = insert_point(order, spans, n - 1, 0);
        lemma_insert_point(order, spans, n - 1, 0);
        assert(all == order.insert(p, n - 1));
        assert forall|k: int| p < k < n implies !pos_le(spans[#[trigger] all[k]], spans[n - 1]) by {
            assert(all[k] == order[k - 1]);
            assert(pos_le(spans[order[p]], spans[order[k - 1]]) || p == k - 1);
        }
        assert forall|j: int, k: int| 0 <= j < k < n implies all[j] != all[k] by {
            if j < p && k < p {
                assert(all[j] == order[j] && all[k] == order[k]);
            } else if j < p && k > p {
                assert(all[j] == order[j] && all[k] == order[k - 1]);
            } else if j > p && k > p {
                assert(all[j] == order[j - 1] && all[k] == order[k - 1]);
            } else if j == p {
                assert(all[k] == order[k - 1]);
            } else {
                assert(all[j] == order[j]);
            }
        }
        assert forall|j: int, k: int| 0 <= j < k < n implies pos_le(
            spans[#[trigger] all[j]],
            spans[#[trigger] all[k]],
        ) by {
            if j < p && k < p {
                assert(all[j] == order[j] && all[k] == order[k]);
                assert(pos_le(spans[order[j]], spans[order[k]]));
            } else if j < p && k > p {
                assert(all[j] == order[j] && all[k] == order[k - 1]);
                assert(pos_le(spans[order[j]], spans[order[k - 1]]));
            } else if j > p && k > p {
                assert(all[j] == order[j - 1] && all[k] == order[k - 1]);
                assert(pos_le(spans[order[j - 1]], spans[order[k - 1]]));
            } else if j == p {
                assert(all[k] == order[k - 1]);
                assert(!pos_le(spans[all[k]], spans[n - 1]));
            } else {
                assert(all[j] == order[j]);
                assert(pos_le(spans[order[j]], spans[n - 1]));
            }
        }
        assert forall|j: int, k: int|
            0 <= j < k < n && same_place(
                spans[#[trigger] all[j]],
                spans[#[trigger] all[k]],
            ) implies all[j] < all[k] by {
            if j < p && k < p {
                assert(all[j] == order[j] && all[k] == order[k]);
                assert(same_place(spans[order[j]], spans[order[k]]));
            } else if j < p && k > p {
                assert(all[j] == order[j] && all[k] == order[k - 1]);
                assert(same_place(spans[order[j]], spans[order[k - 1]]));
            } else if j > p && k > p {
                assert(all[j] == order[j - 1] && all[k] == order[k - 1]);
                assert(same_place(spans[order[j - 1]], spans[order[k - 1]]));
            } else if j == p {
                assert(all[k] == order[k - 1]);
                assert(!pos_le(spans[all[k]], spans[n - 1]));
            } else {
                assert(all[j] == order[j]);
            }
        }
    }
}

fn comes_no_later(a: Span, b: Span) -> (r: bool)
    ensures
        r == pos_le(a, b),
{
    a.line < b.line || (a.line == b.line && a.column <= b.column)
}

/// The violations' indices in reading order.
fn sorted_order(violations: &[Violation]) -> (order: Vec<usize>)
    ensures
        order@.map_values(|i: usize| i as int) == stable_order(
            spans_of(violations_view(violations@)),
            violations@.len() as int,
        ),
        forall|k: int| 0 <= k < order@.len() ==> #[trigger] order@[k] < violations@.len(),
{
    let ghost spans = spans_of(violations_view(violations@));
    let mut order: Vec<usize> = Vec::new();
    let mut i: usize = 0;
    while i < violations.len()
        invariant
            i <= violations@.len(),
            spans == spans_of(violations_view(violations@)),
            order@.map_values(|i: usize| i as int) == stable_order(spans, i as int),
            order@.len() == i,
            forall|k: int| 0 <= k < order@.len() ==> #[trigger] order@[k] < i,
        decreases violations@.len() - i,
    {
        let ghost o = stable_order(spans, i as int);
        let key = violations[i].span;
        assert(spans[i as int] == key);
        let mut p: usize = 0;
        while p < order.len() && comes_no_later(violations[order[p]].span, key)
            invariant
                p <= order@.len(),
                o == order@.map_values(|i: usize| i as int),
                forall|k: int| 0 <= k < order@.len() ==> #[trigger] order@[k] < i,
                i < violations@.len(),
                spans == spans_of(violations_view(violations@)),
                key == spans[i as int],
                insert_point(o, spans, i as int, p as int) == insert_point(o, spans, i as int, 0),
            decreases order@.len() - p,
        {
            assert(spans[order@[p as int] as int] == violations@[order@[p as int] as int].span);
            p += 1;
        }
        proof {
            if p < order@.len() {
                assert(spans[order@[p as int] as int] == violations@[order@[p as int] as int].span);
            }
        }
        let ghost before = order@;
        order.insert(p, i);
        assert(order@.map_values(|i: usize| i as int) =~= o.insert(p as int, i as int));
        i += 1;
    }
    order
}

/// A workflow-command message, escaped: `%` first, so its replacement's own
/// `%` is not escaped again, then CR and LF.
pub open spec fn spec_escape_data(value: Seq<char>) -> Seq<char> {
    replace_all(
        replace_all(replace_all(value, seq!['%'], seq!['%', '2', '5']), seq!['\r'], seq!['%', '0', 'D']),
        seq!['\n'],
        seq!['%', '0', 'A'],
    )
}

/// A workflow-command property value, escaped: as a message, and also `:` and `,`.
pub open spec fn spec_escape_property(value: Seq<char>) -> Seq<char> {
    replace_all(
        replace_all(spec_escape_data(value), seq![':'], seq!['%', '3', 'A']),
        seq![','],
        seq!['%', '2', 'C'],
    )
}

fn chars3(a: char, b: char, c: char) -> (v: Vec<char>)
    ensures
        v@ == seq![a, b, c],
{
    let mut v: Vec<char> = Vec::new();
    v.push(a);
    v.push(b);
    v.push(c);
    assert(v@ =~= seq![a, b, c]);
    v
}

fn chars1(a: char) -> (v: Vec<char>)
    ensures
        v@ == seq![a],
{
    let mut v: Vec<char> = Vec::new();
    v.push(a);
    assert(v@ =~= seq![a]);
    v
}

/// Escape a workflow-command message. Percent must be escaped first, so its
/// replacement's own `%` is not escaped again.
fn escape_data(value: &Vec<char>) -> (r: Vec<char>)
    ensures
        r@ == spec_escape_data(value@),
{
    let a = replace(value, &chars1('%'), &chars3('%', '2', '5'));
    let b = replace(&a, &chars1('\r'), &chars3('%', '0', 'D'));
    replace(&b, &chars1('\n'), &chars3('%', '0', 'A'))
}

/// Escape a workflow-command property value, which additionally may not contain
/// a literal `:` or `,`.
fn escape_property(value: &Vec<char>) -> (r: Vec<char>)
    ensures
        r@ == spec_escape_property(value@),
{
    let a = escape_data(value);
    let b = replace(&a, &chars1(':'), &chars3('%', '3', 'A'));
    replace(&b, &chars1(','), &chars3('%', '2', 'C'))
}

/// Replacing every `c` by text without `d` leaves no `d` where there was none
/// but `c`s.
pub proof fn lemma_replace_all_free(s: Seq<char>, c: char, rep: Seq<char>, d: char)
    requires
        d == c || !s.contains(d),
        !rep.contains(d),
    ensures
        !replace_all(s, seq![c], rep).contains(d),
    decreases s.len(),
{
    let pat = seq![c];
    if s.len() < 1 {
    } else if s.take(1) == pat {
        lemma_replace_all_free(s.skip(1), c, rep, d);
        let rest = replace_all(s.skip(1), pat, rep);
        if d != c {
            assert forall|k: int| 0 <= k < s.skip(1).len() implies s.skip(1)[k] != d by {
                assert(s.skip(1)[k] == s[k + 1]);
            }
        }
        assert(!(rep + rest).contains(d)) by {
            if (rep + rest).contains(d) {
                let k = choose|k: int| 0 <= k < (rep + rest).len() && (rep + rest)[k] == d;
                if k < rep.len() {
                    assert(rep[k] == d);
                } else {
                    assert(rest[k - rep.len()] == d);
                }
            }
        }
    } else {
        lemma_replace_all_free(s.drop_first(), c, rep, d);
        let rest = replace_all(s.drop_first(), pat, rep);
        assert(s[0] != d) by {
            if s[0] == d {
                if d == c {
                    assert(s.take(1) =~= pat);
                } else {
                    assert(s.contains(d));
                }
            }
        }
        if d != c {
            assert forall|k: int| 0 <= k < s.drop_first().len() implies s.drop_first()[k] != d by {
                assert(s.drop_first()[k] == s[k + 1]);
            }
        }
        assert(!(seq![s[0]] + rest).contains(d)) by {
            if (seq![s[0]] + rest).contains(d) {
                let k = choose|k: int| 0 <= k < (seq![s[0]] + rest).len() && (seq![s[0]] + rest)[k] == d;
                if k > 0 {
                    assert(rest[k - 1] == d);
                }
            }
        }
    }
}

/// Replacing a single character works character by character: it distributes
/// over concatenation.
proof fn lemma_replace_char_concat(a: Seq<char>, b: Seq<char>, c: char, rep: Seq<char>)
    ensures
        replace_all(a + b, seq![c], rep) == replace_all(a, seq![c], rep) + replace_all(
            b,
            seq![c],
            rep,
        ),
    decreases a.len(),
{
    let pat = seq![c];
    if a.len() == 0 {
        assert(a + b =~= b);
        assert(replace_all(a, pat, rep) =~= Seq::<char>::empty());
        assert(Seq::<char>::empty() + replace_all(b, pat, rep) =~= replace_all(b, pat, rep));
    } else {
        let s = a + b;
        assert(s.take(1) =~= a.take(1));
        assert(s.skip(1) =~= a.skip(1) + b);
        assert(s.drop_first() =~= a.drop_first() + b);
        lemma_replace_char_concat(a.drop_first(), b, c, rep);
        assert(a.skip(1) =~= a.drop_first());
        if a.take(1) == pat {
            assert(replace_all(s, pat, rep) =~= replace_all(a, pat, rep) + replace_all(b, pat, rep));
        } else {
            assert(s[0] == a[0]);
            assert(replace_all(s, pat, rep) =~= replace_all(a, pat, rep) + replace_all(b, pat, rep));
        }
    }
}

/// Replacing a single character in a one-character text.
proof fn lemma_replace_char_one(x: char, c: char, rep: Seq<char>)
    ensures
        replace_all(seq![x], seq![c], rep) == (if x == c {
            rep
        } else {
            seq![x]
        }),
{
    let s = seq![x];
    assert(s.take(1) =~= s);
    assert(s.skip(1) =~= Seq::<char>::empty());
    assert(s.drop_first() =~= Seq::<char>::empty());
    assert(replace_all(Seq::<char>::empty(), seq![c], rep) == Seq::<char>::empty());
    if x == c {
        assert(rep + Seq::<char>::empty() =~= rep);
    } else {
        assert(s.take(1) != seq![c]) by {
            assert(s.take(1)[0] == x);
        }
        assert(seq![x] + Seq::<char>::empty() =~= seq![x]);
    }
}

/// A text without the character is left as it is.
proof fn lemma_replace_char_absent(s: Seq<char>, c: char, rep: Seq<char>)
    requires
        !s.contains(c),
    ensures
        replace_all(s, seq![c], rep) == s,
    decreases s.len(),
{
    if s.len() > 0 {
        assert(s.take(1) != seq![c]) by {
            assert(s.take(1)[0] == s[0]);
            assert(s[0] != c);
        }
        assert(!s.drop_first().contains(c)) by {
            if s.drop_first().contains(c) {
                let k = choose|k: int| 0 <= k < s.drop_first().len() && s.drop_first()[k] == c;
                assert(s[k + 1] == c);
            }
        }
        lemma_replace_char_absent(s.drop_first(), c, rep);
        assert(seq![s[0]] + s.drop_first() =~= s);
    }
}

/// What a message character escapes to.
pub open spec fn data_code(c: char) -> Seq<char> {
    if c == '%' {
        seq!['%', '2', '5']
    } else if c == '\r' {
        seq!['%', '0', 'D']
    } else if c == '\n' {
        seq!['%', '0', 'A']
    } else {
        seq![c]
    }
}

/// What a property character escapes to.
pub open spec fn property_code(c: char) -> Seq<char> {
    if c == ':' {
        seq!['%', '3', 'A']
    } else if c == ',' {
        seq!['%', '2', 'C']
    } else {
        data_code(c)
    }
}

proof fn lemma_escape_data_char(x: char)
    ensures
        spec_escape_data(seq![x]) == data_code(x),
{
    let p25 = seq!['%', '2', '5'];
    let p0d = seq!['%', '0', 'D'];
    let p0a = seq!['%', '0', 'A'];
    lemma_replace_char_one(x, '%', p25);
    let a = replace_all(seq![x], seq!['%'], p25);
    if x == '%' {
        assert(!p25.contains('\r'));
        assert(!p25.contains('\n'));
        lemma_replace_char_absent(p25, '\r', p0d);
        lemma_replace_char_absent(p25, '\n', p0a);
    } else {
        lemma_replace_char_one(x, '\r', p0d);
        if x == '\r' {
            assert(!p0d.contains('\n'));
            lemma_replace_char_absent(p0d, '\n', p0a);
        } else {
            lemma_replace_char_one(x, '\n', p0a);
        }
    }
}

proof fn lemma_escape_property_char(x: char)
    ensures
        spec_escape_property(seq![x]) == property_code(x),
{
    let p3a = seq!['%', '3', 'A'];
    let p2c = seq!['%', '2', 'C'];
    lemma_escape_data_char(x);
    let d = data_code(x);
    if x == '%' || x == '\r' || x == '\n' {
        assert(!d.contains(':') && !d.contains(','));
        lemma_replace_char_absent(d, ':', p3a);
        lemma_replace_char_absent(d, ',', p2c);
    } else {
        lemma_replace_char_one(x, ':', p3a);
        if x == ':' {
            assert(!p3a.contains(','));
            lemma_replace_char_absent(p3a, ',', p2c);
        } else {
            lemma_replace_char_one(x, ',', p2c);
        }
    }
}

proof fn lemma_escape_concat(a: Seq<char>, b: Seq<char>)
    ensures
        spec_escape_data(a + b) == spec_escape_data(a) + spec_escape_data(b),
        spec_escape_property(a + b) == spec_escape_property(a) + spec_escape_property(b),
{
    let p25 = seq!['%', '2', '5'];
    let p0d = seq!['%', '0', 'D'];
    let p0a = seq!['%', '0', 'A'];
    lemma_replace_char_concat(a, b, '%', p25);
    let a1 = replace_all(a, seq!['%'], p25);
    let b1 = replace_all(b, seq!['%'], p25);
    lemma_replace_char_concat(a1, b1, '\r', p0d);
    let a2 = replace_all(a1, seq!['\r'], p0d);
    let b2 = replace_all(b1, seq!['\r'], p0d);
    lemma_replace_char_concat(a2, b2, '\n', p0a);
    let a3 = spec_escape_data(a);
    let b3 = spec_escape_data(b);
    lemma_replace_char_concat(a3, b3, ':', seq!['%', '3', 'A']);
    let a4 = replace_all(a3, seq![':'], seq!['%', '3', 'A']);
    let b4 = replace_all(b3, seq![':'], seq!['%', '3', 'A']);
    lemma_replace_char_concat(a4, b4, ',', seq!['%', '2', 'C']);
}

/// Escaping a text escapes its first character, then the rest.
proof fn lemma_escape_first(v: Seq<char>)
    requires
        v.len() > 0,
    ensures
        spec_escape_data(v) == data_code(v[0]) + spec_escape_data(v.drop_first()),
        spec_escape_property(v) == property_code(v[0]) + spec_escape_property(v.drop_first()),
{
    assert(v =~= seq![v[0]] + v.drop_first());
    lemma_escape_concat(seq![v[0]], v.drop_first());
    lemma_escape_data_char(v[0]);
    lemma_escape_property_char(v[0]);
}

proof fn lemma_escape_empty()
    ensures
        spec_escape_data(Seq::<char>::empty()) == Seq::<char>::empty(),
        spec_escape_property(Seq::<char>::empty()) == Seq::<char>::empty(),
{
    let e = Seq::<char>::empty();
    lemma_replace_char_absent(e, '%', seq!['%', '2', '5']);
    lemma_replace_char_absent(e, '\r', seq!['%', '0', 'D']);
    lemma_replace_char_absent(e, '\n', seq!['%', '0', 'A']);
    lemma_replace_char_absent(e, ':', seq!['%', '3', 'A']);
    lemma_replace_char_absent(e, ',', seq!['%', '2', 'C']);
}

/// Distinct messages escape to distinct texts, and so do distinct property
/// values: escaping `%` first keeps every escape decodable, so the runner
/// reads back exactly what was written.
#[verifier::spinoff_prover]
#[verifier::rlimit(40)]
pub proof fn law_escaping_is_reversible(a: Seq<char>, b: Seq<char>)
    ensures
        spec_escape_data(a) == spec_escape_data(b) ==> a == b,
        spec_escape_property(a) == spec_escape_property(b) ==> a == b,
    decreases a.len() + b.len(),
{
    lemma_escape_empty();
    if a.len() > 0 {
        lemma_escape_first(a);
    }
    if b.len() > 0 {
        lemma_escape_first(b);
    }
    if a.len() > 0 && b.len() > 0 {
        law_escaping_is_reversible(a.drop_first(), b.drop_first());
        let (x, y) = (a[0], b[0]);
        if spec_escape_data(a) == spec_escape_data(b) {
            let ea = spec_escape_data(a);
            assert(ea[0] == data_code(x)[0]);
            assert(ea[0] == data_code(y)[0]);
            if data_code(x).len() == data_code(y).len() {
                assert(data_code(x) =~= ea.take(data_code(x).len() as int));
                assert(data_code(y) =~= ea.take(data_code(y).len() as int));
                assert(x == y);
                assert(spec_escape_data(a.drop_first()) =~= ea.skip(data_code(x).len() as int));
                assert(spec_escape_data(b.drop_first()) =~= ea.skip(data_code(y).len() as int));
                assert(a =~= seq![x] + a.drop_first());
                assert(b =~= seq![y] + b.drop_first());
            }
        }
        if spec_escape_property(a) == spec_escape_property(b) {
            let ea = spec_escape_property(a);
            assert(ea[0] == property_code(x)[0]);
            assert(ea[0] == property_code(y)[0]);
            if property_code(x).len() == property_code(y).len() {
                assert(property_code(x) =~= ea.take(property_code(x).len() as int));
                assert(property_code(y) =~= ea.take(property_code(y).len() as int));
                assert(x == y);
                assert(spec_escape_property(a.drop_first()) =~= ea.skip(
                    property_code(x).len() as int,
                ));
                assert(spec_escape_property(b.drop_first()) =~= ea.skip(
                    property_code(y).len() as int,
                ));
                assert(a =~= seq![x] + a.drop_first());
                assert(b =~= seq![y] + b.drop_first());
            }
        }
    }
}

/// An escaped message holds no line break, so it cannot end the workflow
/// command early, and an escaped property holds neither a line break nor the
/// `:` and `,` that delimit properties.
pub proof fn law_escaped_values_hold_no_delimiters(value: Seq<char>)
    ensures
        !spec_escape_data(value).contains('\r'),
        !spec_escape_data(value).contains('\n'),
        !spec_escape_property(value).contains('\r'),
        !spec_escape_property(value).contains('\n'),
        !spec_escape_property(value).contains(':'),
        !spec_escape_property(value).contains(','),
{
    let p25 = seq!['%', '2', '5'];
    let p0d = seq!['%', '0', 'D'];
    let p0a = seq!['%', '0', 'A'];
    let p3a = seq!['%', '3', 'A'];
    let p2c = seq!['%', '2', 'C'];
    assert(!p25.contains('\r') && !p25.contains('\n') && !p25.contains(':') && !p25.contains(','));
    assert(!p0d.contains('\r') && !p0d.contains('\n') && !p0d.contains(':') && !p0d.contains(','));
    assert(!p0a.contains('\r') && !p0a.contains('\n') && !p0a.contains(':') && !p0a.contains(','));
    assert(!p3a.contains('\r') && !p3a.contains('\n') && !p3a.contains(':') && !p3a.contains(','));
    assert(!p2c.contains('\r') && !p2c.contains('\n') && !p2c.contains(':') && !p2c.contains(','));
    let a = replace_all(value, seq!['%'], p25);
    let b = replace_all(a, seq!['\r'], p0d);
    let c = replace_all(b, seq!['\n'], p0a);
    lemma_replace_all_free(b, '\r', p0d, '\r');
    lemma_replace_all_free(a, '\r', p0d, '\r');
    lemma_replace_all_free(b, '\n', p0a, '\r');
    lemma_replace_all_free(b, '\n', p0a, '\n');
    let d = replace_all(c, seq![':'], p3a);
    let e = replace_all(d, seq![','], p2c);
    lemma_replace_all_free(c, ':', p3a, '\r');
    lemma_replace_all_free(c, ':', p3a, '\n');
    lemma_replace_all_free(c, ':', p3a, ':');
    lemma_replace_all_free(d, ',', p2c, '\r');
    lemma_replace_all_free(d, ',', p2c, '\n');
    lemma_replace_all_free(d, ',', p2c, ':');
    lemma_replace_all_free(d, ',', p2c, ',');
}

/// One GitHub Actions `::error` workflow command for a violation.
pub open spec fn annotation(path: Seq<char>, v: (Seq<char>, Seq<char>, Span)) -> Seq<char> {
    "::error file="@ + path + ",line="@ + decimal(v.2.line as nat) + ",col="@ + decimal(
        v.2.column as nat,
    ) + ",title="@ + spec_escape_property(v.0) + "::"@ + spec_escape_data(v.1) + seq!['\n']
}

/// The annotations of the first `k` violations in reading order.
pub open spec fn annotations_upto(
    path: Seq<char>,
    vs: Seq<(Seq<char>, Seq<char>, Span)>,
    order: Seq<int>,
    k: int,
) -> Seq<char>
    decreases k,
{
    if k <= 0 {
        Seq::empty()
    } else {
        annotations_upto(path, vs, order, k - 1) + annotation(path, vs[order[k - 1]])
    }
}

/// The annotations for a file, in reading order, its path written with
/// forward slashes.
pub open spec fn spec_github(path: Seq<char>, vs: Seq<(Seq<char>, Seq<char>, Span)>) -> Seq<char> {
    let order = stable_order(spans_of(vs), vs.len() as int);
    let p = spec_escape_property(replace_all(path, seq!['\\'], seq!['/']));
    annotations_upto(p, vs, order, order.len() as int)
}

/// GitHub annotations come in reading order: the output is the annotations of
/// all the violations, each exactly once, arranged so that every annotation's
/// line and column come no later than the next one's, and violations at one
/// place keep the order they were found in.
pub proof fn law_github_in_reading_order(path: Seq<char>, vs: Seq<(Seq<char>, Seq<char>, Span)>)
    ensures
        exists|o: Seq<int>|
            {
                &&& o.len() == vs.len()
                &&& forall|k: int| 0 <= k < o.len() ==> 0 <= #[trigger] o[k] < vs.len()
                &&& forall|j: int, k: int| 0 <= j < k < o.len() ==> o[j] != o[k]
                &&& forall|j: int, k: int|
                    0 <= j < k < o.len() ==> pos_le(vs[#[trigger] o[j]].2, vs[#[trigger] o[k]].2)
                &&& forall|j: int, k: int|
                    0 <= j < k < o.len() && same_place(vs[#[trigger] o[j]].2, vs[#[trigger] o[k]].2)
                        ==> o[j] < o[k]
                &&& spec_github(path, vs) == annotations_upto(
                    spec_escape_property(replace_all(path, seq!['\\'], seq!['/'])),
                    vs,
                    o,
                    vs.len() as int,
                )
            },
{
    let spans = spans_of(vs);
    let n = vs.len() as int;
    law_report_order(spans, n);
    let o = stable_order(spans, n);
    assert forall|k: int| 0 <= k < n implies #[trigger] spans[k] == vs[k].2 by {}
    assert forall|j: int, k: int| 0 <= j < k < o.len() implies pos_le(
        vs[#[trigger] o[j]].2,
        vs[#[trigger] o[k]].2,
    ) by {
        assert(pos_le(spans[o[j]], spans[o[k]]));
        assert(spans[o[j]] == vs[o[j]].2);
        assert(spans[o[k]] == vs[o[k]].2);
    }
    assert forall|j: int, k: int|
        0 <= j < k < o.len() && same_place(vs[#[trigger] o[j]].2, vs[#[trigger] o[k]].2) implies o[j]
        < o[k] by {
        assert(spans[o[j]] == vs[o[j]].2);
        assert(spans[o[k]] == vs[o[k]].2);
    }
}

fn push_literal(out: &mut Vec<char>, s: &str)
    ensures
        final(out)@ == old(out)@ + s@,
{
    let v = chars_of(s);
    append(out, &v);
}

/// Render violations as GitHub Actions workflow commands, one `::error` per
/// violation, so a CI run annotates the pull request diff inline. The rule id is
/// the annotation title and its message is the body.
///
/// GitHub matches the annotation against a repository path, which always uses
/// forward slashes, so backslashes in the path are translated. This is
/// unconditional rather than Windows-only; the cost is mistranslating a path on
/// a system that allows a literal backslash in a filename.
pub fn github(path: &str, violations: &[Violation]) -> (out: String)
    ensures
        out@ == spec_github(path@, violations_view(violations@)),
{
    let ghost vs = violations_view(violations@);
    let order = sorted_order(violations);
    let ghost o = stable_order(spans_of(vs), vs.len() as int);
    let forward = replace(&chars_of(path), &chars1('\\'), &chars1('/'));
    let escaped_path = escape_property(&forward);
    let mut out: Vec<char> = Vec::new();
    let mut k: usize = 0;
    proof {
        lemma_stable_order(spans_of(vs), vs.len() as int);
    }
    while k < order.len()
        invariant
            k <= order@.len(),
            o == order@.map_values(|i: usize| i as int),
            vs == violations_view(violations@),
            forall|j: int| 0 <= j < order@.len() ==> #[trigger] order@[j] < violations@.len(),
            out@ == annotations_upto(escaped_path@, vs, o, k as int),
        decreases order@.len() - k,
    {
        let v = &violations[order[k]];
        assert(vs[o[k as int]] == v@);
        push_literal(&mut out, "::error file=");
        append(&mut out, &escaped_path);
        push_literal(&mut out, ",line=");
        append(&mut out, &decimal_of(v.span.line));
        push_literal(&mut out, ",col=");
        append(&mut out, &decimal_of(v.span.column));
        push_literal(&mut out, ",title=");
        append(&mut out, &escape_property(&chars_of(v.rule_id)));
        push_literal(&mut out, "::");
        append(&mut out, &escape_data(&chars_of(v.message.as_str())));
        out.push('\n');
        assert(out@ =~= annotations_upto(escaped_path@, vs, o, k + 1));
        k += 1;
    }
    let r = string_of(&out, 0, out.len());
    assert(out@.subrange(0, out@.len() as int) =~= out@);
    r
}

/// The most source we show on one line, so a long line and its caret stay
/// aligned instead of wrapping in the terminal.
pub const MAX_WIDTH: usize = 100;

/// `text` wrapped in a terminal colour code, when colour is on.
pub open spec fn spec_paint(text: Seq<char>, code: Seq<char>, color: bool) -> Seq<char> {
    if color {
        code + text + RESET@
    } else {
        text
    }
}

pub open spec fn ellipsis() -> Seq<char> {
    seq!['.', '.', '.']
}

/// The source excerpt to show, the caret's offset within it, and the caret
/// length. Short lines are shown whole; long lines are windowed around the span
/// with `...` marking each trimmed end.
pub open spec fn spec_window(line: Seq<char>, column: usize, length: usize) -> (Seq<char>, int, int) {
    let span_start: int = if column >= 1 {
        column - 1
    } else {
        0
    };
    let caret: int = if length >= 1 {
        length as int
    } else {
        1
    };
    if line.len() <= MAX_WIDTH {
        (line, span_start, caret)
    } else {
        let end: int = if span_start + 76 < line.len() {
            span_start + 76
        } else {
            line.len() as int
        };
        let start: int = if end >= 100 {
            end - 100
        } else {
            0
        };
        let prefix = if start > 0 {
            ellipsis()
        } else {
            Seq::empty()
        };
        let suffix = if end < line.len() {
            ellipsis()
        } else {
            Seq::empty()
        };
        (
            prefix + line.subrange(start, end) + suffix,
            prefix.len() + (span_start - start),
            if caret < end - span_start {
                caret
            } else if end > span_start {
                end - span_start
            } else {
                1
            },
        )
    }
}

/// Every violation is shown with a caret: the caret is at least one column
/// long, also just past the end of a line too long to show whole.
pub proof fn law_caret_is_never_empty(line: Seq<char>, column: usize, length: usize)
    requires
        column_fits(line, column),
    ensures
        spec_window(line, column, length).2 >= 1,
{
}

/// Whether a violation's column lies within its line, or just past its end,
/// where that line is too long to show whole.
pub open spec fn column_fits(line: Seq<char>, column: usize) -> bool {
    line.len() <= MAX_WIDTH || column <= line.len() + 1
}

fn window(line: &Vec<char>, column: usize, length: usize) -> (r: (Vec<char>, usize, usize))
    requires
        column_fits(line@, column),
    ensures
        (r.0@, r.1 as int, r.2 as int) == spec_window(line@, column, length),
{
    let span_start = if column >= 1 {
        column - 1
    } else {
        0
    };
    let caret = if length >= 1 {
        length
    } else {
        1
    };
    if line.len() <= MAX_WIDTH {
        return (copy_of(line), span_start, caret);
    }
    let end = if span_start < line.len() - 76 {
        span_start + 76
    } else {
        line.len()
    };
    let start = if end >= 100 {
        end - 100
    } else {
        0
    };
    let mut shown: Vec<char> = Vec::new();
    if start > 0 {
        push_literal(&mut shown, "...");
    }
    let prefix_len = shown.len();
    proof {
        reveal_strlit("...");
    }
    push_chars_of(&mut shown, line, start, end);
    if end < line.len() {
        push_literal(&mut shown, "...");
    }
    let caret_len = if caret < end - span_start {
        caret
    } else if end > span_start {
        end - span_start
    } else {
        1
    };
    proof {
        assert(ellipsis() =~= "..."@);
        if start > 0 {
            assert(shown@ =~= ellipsis() + line@.subrange(start as int, end as int) + (if end < line@.len() {
                ellipsis()
            } else {
                Seq::empty()
            }));
        } else {
            assert(shown@ =~= Seq::<char>::empty() + line@.subrange(start as int, end as int) + (
            if end < line@.len() {
                ellipsis()
            } else {
                Seq::empty()
            }));
        }
    }
    (shown, prefix_len + (span_start - start), caret_len)
}

fn copy_of(v: &Vec<char>) -> (r: Vec<char>)
    ensures
        r@ == v@,
{
    let mut r: Vec<char> = Vec::new();
    append(&mut r, v);
    r
}

fn push_chars_of(out: &mut Vec<char>, v: &Vec<char>, from: usize, to: usize)
    requires
        from <= to <= v@.len(),
    ensures
        final(out)@ == old(out)@ + v@.subrange(from as int, to as int),
{
    let mut i = from;
    while i < to
        invariant
            from <= i <= to <= v@.len(),
            out@ == old(out)@ + v@.subrange(from as int, i as int),
        decreases to - i,
    {
        out.push(v[i]);
        i += 1;
        assert(out@ =~= old(out)@ + v@.subrange(from as int, i as int));
    }
}

fn paint(out: &mut Vec<char>, text: &Vec<char>, code: &str, color: bool)
    ensures
        final(out)@ == old(out)@ + spec_paint(text@, code@, color),
{
    if color {
        push_literal(out, code);
        append(out, text);
        push_literal(out, RESET);
    } else {
        append(out, text);
    }
}

/// `n` copies of `c`.
pub open spec fn run_of(c: char, n: int) -> Seq<char> {
    Seq::new(if n > 0 {
        n as nat
    } else {
        0
    }, |i: int| c)
}

fn push_run(out: &mut Vec<char>, c: char, n: usize)
    ensures
        final(out)@ == old(out)@ + run_of(c, n as int),
{
    let mut i: usize = 0;
    while i < n
        invariant
            i <= n,
            out@ == old(out)@ + run_of(c, i as int),
        decreases n - i,
    {
        out.push(c);
        i += 1;
        assert(out@ =~= old(out)@ + run_of(c, i as int));
    }
}

/// The lines of a text, as `str::lines` gives them: none for empty text,
/// otherwise the line contents without their terminators.
pub open spec fn text_lines(s: Seq<char>) -> Seq<Seq<char>> {
    if s.len() == 0 {
        Seq::empty()
    } else {
        crate::text::spec_split_lines(s).map_values(|l: (Seq<char>, Seq<char>)| l.0)
    }
}

/// The rationale block: each line trimmed behind the gutter, the first labelled
/// `= why:`.
pub open spec fn why_upto(gutter: Seq<char>, lines: Seq<Seq<char>>, k: int) -> Seq<char>
    decreases k,
{
    if k <= 0 {
        Seq::empty()
    } else {
        why_upto(gutter, lines, k - 1) + gutter + (if k - 1 == 0 {
            " = why: "@
        } else {
            "        "@
        }) + trim(lines[k - 1]) + seq!['\n']
    }
}

/// The source line with the given 1-based number, or nothing past the end.
pub open spec fn source_line(lines: Seq<(Seq<char>, Seq<char>)>, line: usize) -> Seq<char> {
    if 1 <= line && line <= lines.len() {
        lines[line - 1].0
    } else {
        Seq::empty()
    }
}

/// The diagnostic's first three lines: the heading, the location, and the
/// gutter bar.
pub open spec fn heading_part(
    path: Seq<char>,
    v: (Seq<char>, Seq<char>, Span),
    color: bool,
) -> Seq<char> {
    let number = decimal(v.2.line as nat);
    let gutter = run_of(' ', number.len() as int);
    spec_paint(v.0 + ": "@ + v.1, BOLD@ + RED@, color) + seq!['\n'] + (gutter + "--> "@ + path
        + ":"@ + number + ":"@ + decimal(v.2.column as nat) + seq!['\n']) + (gutter + " |\n"@)
}

/// The source line and the caret line under it.
pub open spec fn source_part(
    lines: Seq<(Seq<char>, Seq<char>)>,
    span: Span,
    color: bool,
) -> Seq<char> {
    let number = decimal(span.line as nat);
    let gutter = run_of(' ', number.len() as int);
    let w = spec_window(source_line(lines, span.line), span.column, span.length);
    (number + " | "@ + w.0 + seq!['\n']) + (gutter + " | "@ + run_of(' ', w.1) + spec_paint(
        run_of('^', w.2),
        RED@,
        color,
    ) + seq!['\n'])
}

/// The rationale lines, when they are shown.
pub open spec fn why_part(span: Span, rationale: Seq<char>, show_rationale: bool) -> Seq<char> {
    let gutter = run_of(' ', decimal(span.line as nat).len() as int);
    if show_rationale && rationale.len() > 0 {
        why_upto(gutter, text_lines(rationale), text_lines(rationale).len() as int)
    } else {
        Seq::empty()
    }
}

/// One violation as a rustc-style diagnostic: heading, location, the source
/// line with a caret underline, and the rationale when it is shown.
pub open spec fn spec_render_one(
    path: Seq<char>,
    lines: Seq<(Seq<char>, Seq<char>)>,
    v: (Seq<char>, Seq<char>, Span),
    rationale: Seq<char>,
    show_rationale: bool,
    color: bool,
) -> Seq<char> {
    heading_part(path, v, color) + source_part(lines, v.2, color) + why_part(
        v.2,
        rationale,
        show_rationale,
    )
}

fn render_heading(out: &mut Vec<char>, path: &str, violation: &Violation, color: bool)
    ensures
        final(out)@ == old(out)@ + heading_part(path@, violation@, color),
{
    let span = violation.span;
    let number = decimal_of(span.line);
    let mut heading: Vec<char> = chars_of(violation.rule_id);
    push_literal(&mut heading, ": ");
    append(&mut heading, &chars_of(violation.message.as_str()));
    let mut code: String = String::new();
    crate::chars::push_str(&mut code, BOLD);
    crate::chars::push_str(&mut code, RED);
    paint(out, &heading, code.as_str(), color);
    out.push('\n');
    let ghost first = out@;
    let mut location: Vec<char> = Vec::new();
    push_run(&mut location, ' ', number.len());
    push_literal(&mut location, "--> ");
    push_literal(&mut location, path);
    push_literal(&mut location, ":");
    append(&mut location, &number);
    push_literal(&mut location, ":");
    append(&mut location, &decimal_of(span.column));
    location.push('\n');
    append(out, &location);
    let mut bar: Vec<char> = Vec::new();
    push_run(&mut bar, ' ', number.len());
    push_literal(&mut bar, " |\n");
    append(out, &bar);
    assert(out@ =~= old(out)@ + heading_part(path@, violation@, color));
}

fn render_source(
    out: &mut Vec<char>,
    lines: &Vec<crate::text::Line>,
    span: Span,
    color: bool,
)
    requires
        column_fits(source_line(crate::text::lines_view(lines@), span.line), span.column),
    ensures
        final(out)@ == old(out)@ + source_part(crate::text::lines_view(lines@), span, color),
{
    let ghost lv = crate::text::lines_view(lines@);
    let number = decimal_of(span.line);
    let content = if span.line >= 1 && span.line <= lines.len() {
        chars_of(lines[span.line - 1].content)
    } else {
        Vec::new()
    };
    assert(content@ =~= source_line(lv, span.line));
    let (shown, caret_offset, caret_len) = window(&content, span.column, span.length);
    let mut excerpt: Vec<char> = Vec::new();
    append(&mut excerpt, &number);
    push_literal(&mut excerpt, " | ");
    append(&mut excerpt, &shown);
    excerpt.push('\n');
    let mut underline: Vec<char> = Vec::new();
    push_run(&mut underline, ' ', number.len());
    push_literal(&mut underline, " | ");
    push_run(&mut underline, ' ', caret_offset);
    let mut carets: Vec<char> = Vec::new();
    push_run(&mut carets, '^', caret_len);
    paint(&mut underline, &carets, RED, color);
    underline.push('\n');
    append(out, &excerpt);
    append(out, &underline);
    assert(out@ =~= old(out)@ + source_part(lv, span, color));
}

fn render_why(out: &mut Vec<char>, span: Span, rationale: &str, show_rationale: bool)
    ensures
        final(out)@ == old(out)@ + why_part(span, rationale@, show_rationale),
{
    let number = decimal_of(span.line);
    let r = chars_of(rationale);
    if show_rationale && r.len() > 0 {
        let rationale_lines = crate::text::split_lines(rationale);
        let ghost tl = text_lines(rationale@);
        assert(tl =~= crate::text::lines_view(rationale_lines@).map_values(
            |l: (Seq<char>, Seq<char>)| l.0,
        ));
        let mut index: usize = 0;
        while index < rationale_lines.len()
            invariant
                index <= rationale_lines@.len(),
                tl == crate::text::lines_view(rationale_lines@).map_values(
                    |l: (Seq<char>, Seq<char>)| l.0,
                ),
                out@ == old(out)@ + why_upto(run_of(' ', number@.len() as int), tl, index as int),
            decreases rationale_lines@.len() - index,
        {
            let ghost before = out@;
            let mut piece: Vec<char> = Vec::new();
            push_run(&mut piece, ' ', number.len());
            if index == 0 {
                push_literal(&mut piece, " = why: ");
            } else {
                push_literal(&mut piece, "        ");
            }
            let line = chars_of(rationale_lines[index].content);
            assert(line@ == tl[index as int]);
            let (a, b) = trim_range(&line, 0, line.len());
            assert(line@.subrange(0, line@.len() as int) =~= line@);
            push_chars_of(&mut piece, &line, a, b);
            piece.push('\n');
            append(out, &piece);
            assert(out@ =~= old(out)@ + why_upto(run_of(' ', number@.len() as int), tl, index + 1));
            index += 1;
        }
        assert(out@ =~= old(out)@ + why_part(span, rationale@, show_rationale));
    } else {
        assert(out@ =~= old(out)@ + why_part(span, rationale@, show_rationale));
    }
}

fn render_one(
    out: &mut Vec<char>,
    path: &str,
    lines: &Vec<crate::text::Line>,
    violation: &Violation,
    rationale: &str,
    show_rationale: bool,
    color: bool,
)
    requires
        column_fits(
            source_line(crate::text::lines_view(lines@), violation.span.line),
            violation.span.column,
        ),
    ensures
        final(out)@ == old(out)@ + spec_render_one(
            path@,
            crate::text::lines_view(lines@),
            violation@,
            rationale@,
            show_rationale,
            color,
        ),
{
    render_heading(out, path, violation, color);
    let ghost mid = out@;
    render_source(out, lines, violation.span, color);
    render_why(out, violation.span, rationale, show_rationale);
    assert(out@ =~= old(out)@ + spec_render_one(
        path@,
        crate::text::lines_view(lines@),
        violation@,
        rationale@,
        show_rationale,
        color,
    ));
}

/// The rationale of the last rule with the given id, or nothing: the rule
/// index maps each id to a rationale, a later rule replacing an earlier one.
pub open spec fn spec_reason(rules: Seq<Rule>, id: Seq<char>) -> Seq<char>
    decreases rules.len(),
{
    if rules.len() == 0 {
        Seq::empty()
    } else if rules.last().spec_id() == id {
        rules.last().spec_rationale()
    } else {
        spec_reason(rules.drop_last(), id)
    }
}

/// Each rule's id with its rationale.
fn reason_index(rules: &[Rule]) -> (index: Vec<(&'static str, &'static str)>)
    ensures
        index@.len() == rules@.len(),
        forall|k: int|
            0 <= k < rules@.len() ==> (#[trigger] index@[k]).0@ == rules@[k].spec_id()
                && index@[k].1@ == rules@[k].spec_rationale(),
{
    let mut index: Vec<(&'static str, &'static str)> = Vec::new();
    let mut i: usize = 0;
    while i < rules.len()
        invariant
            i <= rules@.len(),
            index@.len() == i,
            forall|k: int|
                0 <= k < i ==> (#[trigger] index@[k]).0@ == rules@[k].spec_id() && index@[k].1@
                    == rules@[k].spec_rationale(),
        decreases rules@.len() - i,
    {
        index.push((rules[i].id(), rules[i].rationale()));
        i += 1;
    }
    index
}

/// The rationale the index holds for `id`, or the empty string.
fn reason_for(index: &Vec<(&'static str, &'static str)>, id: &str, rules: Ghost<Seq<Rule>>) -> (r: &'static str)
    requires
        index@.len() == rules@.len(),
        forall|k: int|
            0 <= k < rules@.len() ==> (#[trigger] index@[k]).0@ == rules@[k].spec_id()
                && index@[k].1@ == rules@[k].spec_rationale(),
    ensures
        r@ == spec_reason(rules@, id@),
{
    let mut k = index.len();
    assert(rules@.take(k as int) =~= rules@);
    while k > 0
        invariant
            k <= index@.len(),
            index@.len() == rules@.len(),
            forall|j: int|
                0 <= j < rules@.len() ==> (#[trigger] index@[j]).0@ == rules@[j].spec_id()
                    && index@[j].1@ == rules@[j].spec_rationale(),
            spec_reason(rules@, id@) == spec_reason(rules@.take(k as int), id@),
        decreases k,
    {
        assert(rules@.take(k as int).drop_last() =~= rules@.take(k - 1));
        assert(rules@.take(k as int).last() == rules@[k - 1]);
        if crate::ast::same_text(index[k - 1].0, id) {
            return index[k - 1].1;
        }
        k -= 1;
    }
    proof {
        reveal_strlit("");
    }
    ""
}

/// Whether the `k`-th violation in reading order is the first of its rule.
pub open spec fn first_of_rule(vs: Seq<(Seq<char>, Seq<char>, Span)>, order: Seq<int>, k: int) -> bool {
    forall|j: int| 0 <= j < k ==> vs[order[j]].0 != vs[order[k]].0
}

/// The report for the first `k` violations in reading order, separated by
/// blank lines.
pub open spec fn render_upto(
    path: Seq<char>,
    lines: Seq<(Seq<char>, Seq<char>)>,
    vs: Seq<(Seq<char>, Seq<char>, Span)>,
    rules: Seq<Rule>,
    color: bool,
    order: Seq<int>,
    k: int,
) -> Seq<char>
    decreases k,
{
    if k <= 0 {
        Seq::empty()
    } else {
        let v = vs[order[k - 1]];
        render_upto(path, lines, vs, rules, color, order, k - 1) + (if k - 1 > 0 {
            seq!['\n']
        } else {
            Seq::empty()
        }) + spec_render_one(
            path,
            lines,
            v,
            spec_reason(rules, v.0),
            first_of_rule(vs, order, k - 1),
            color,
        )
    }
}

/// Whether every violation can be shown: its line is numbered from 1, and its
/// column lies within that line or just past it when the line is too long to
/// show whole.
pub open spec fn renderable(source: Seq<char>, vs: Seq<(Seq<char>, Seq<char>, Span)>) -> bool {
    forall|k: int|
        0 <= k < vs.len() ==> (#[trigger] vs[k]).2.line >= 1 && column_fits(
            source_line(crate::text::spec_split_lines(source), vs[k].2.line),
            vs[k].2.column,
        )
}

pub open spec fn spec_render(
    path: Seq<char>,
    source: Seq<char>,
    vs: Seq<(Seq<char>, Seq<char>, Span)>,
    rules: Seq<Rule>,
    color: bool,
) -> Seq<char> {
    let order = stable_order(spans_of(vs), vs.len() as int);
    render_upto(path, crate::text::spec_split_lines(source), vs, rules, color, order, order.len() as int)
}

/// Whether `render` can show every violation of `source`.
pub fn can_render(source: &str, violations: &[Violation]) -> (b: bool)
    ensures
        b == renderable(source@, violations_view(violations@)),
{
    let ghost vs = violations_view(violations@);
    let lines = crate::text::split_lines(source);
    let ghost lv = crate::text::lines_view(lines@);
    let mut i: usize = 0;
    while i < violations.len()
        invariant
            i <= violations@.len(),
            vs == violations_view(violations@),
            lv == crate::text::lines_view(lines@),
            lv == crate::text::spec_split_lines(source@),
            forall|k: int|
                0 <= k < i ==> (#[trigger] vs[k]).2.line >= 1 && column_fits(
                    source_line(lv, vs[k].2.line),
                    vs[k].2.column,
                ),
        decreases violations@.len() - i,
    {
        let span = violations[i].span;
        assert(vs[i as int].2 == span);
        if span.line == 0 {
            return false;
        }
        let len: usize = if span.line <= lines.len() {
            assert(lv[span.line - 1] == lines@[span.line - 1]@);
            lines[span.line - 1].content.unicode_len()
        } else {
            0
        };
        assert(len == source_line(lv, span.line).len());
        if !(len <= MAX_WIDTH || span.column == 0 || span.column - 1 <= len) {
            return false;
        }
        i += 1;
    }
    true
}

/// Render violations for one file as a rustc-style report.
///
/// Each violation shows the source line with a caret underline and a one-line
/// `why:`. The fuller rationale is shown once per rule per report, on that
/// rule's first violation.
pub fn render(
    path: &str,
    source: &str,
    violations: &[Violation],
    rules: &[Rule],
    color: bool,
) -> (out: String)
    requires
        renderable(source@, violations_view(violations@)),
    ensures
        out@ == spec_render(path@, source@, violations_view(violations@), rules@, color),
{
    let ghost vs = violations_view(violations@);
    let reasons = reason_index(rules);
    let lines = crate::text::split_lines(source);
    let order = sorted_order(violations);
    let ghost o = stable_order(spans_of(vs), vs.len() as int);
    let ghost lv = crate::text::lines_view(lines@);
    proof {
        lemma_stable_order(spans_of(vs), vs.len() as int);
    }
    let mut out: Vec<char> = Vec::new();
    let mut explained: Vec<&'static str> = Vec::new();
    let mut position: usize = 0;
    while position < order.len()
        invariant
            position <= order@.len(),
            o == order@.map_values(|i: usize| i as int),
            vs == violations_view(violations@),
            lv == crate::text::lines_view(lines@),
            lv == crate::text::spec_split_lines(source@),
            renderable(source@, vs),
            forall|j: int| 0 <= j < order@.len() ==> #[trigger] order@[j] < violations@.len(),
            reasons@.len() == rules@.len(),
            forall|k: int|
                0 <= k < rules@.len() ==> (#[trigger] reasons@[k]).0@ == rules@[k].spec_id()
                    && reasons@[k].1@ == rules@[k].spec_rationale(),
            explained@.len() == position,
            forall|j: int| 0 <= j < position ==> (#[trigger] explained@[j])@ == vs[o[j]].0,
            out@ == render_upto(path@, lv, vs, rules@, color, o, position as int),
        decreases order@.len() - position,
    {
        let violation = &violations[order[position]];
        assert(vs[o[position as int]] == violation@);
        if position > 0 {
            out.push('\n');
        }
        let mut seen = false;
        let mut j: usize = 0;
        while j < explained.len()
            invariant
                j <= explained@.len(),
                seen == exists|m: int| 0 <= m < j && (#[trigger] explained@[m])@ == violation.rule_id@,
            decreases explained@.len() - j,
        {
            if crate::ast::same_text(explained[j], violation.rule_id) {
                seen = true;
            }
            j += 1;
        }
        assert(!seen == first_of_rule(vs, o, position as int)) by {
            if !seen {
                assert forall|m: int| 0 <= m < position implies vs[o[m]].0 != vs[o[position as int]].0 by {
                    assert(explained@[m]@ == vs[o[m]].0);
                }
            } else {
                let m = choose|m: int| 0 <= m < position && (#[trigger] explained@[m])@ == violation.rule_id@;
                assert(vs[o[m]].0 == vs[o[position as int]].0);
            }
        }
        explained.push(violation.rule_id);
        let reason = reason_for(&reasons, violation.rule_id, Ghost(rules@));
        assert(vs[o[position as int]].2 == violation.span);
        let ghost before = out@;
        render_one(&mut out, path, &lines, violation, reason, !seen, color);
        assert(out@ =~= render_upto(path@, lv, vs, rules@, color, o, position + 1));
        position += 1;
    }
    let r = string_of(&out, 0, out.len());
    assert(out@.subrange(0, out@.len() as int) =~= out@);
    r
}

/// The first rule, at or after index `from`, with the given id.
pub open spec fn find_rule(rules: Seq<Rule>, id: Seq<char>, from: int) -> Option<int>
    decreases rules.len() - from,
{
    if from < 0 || from >= rules.len() {
        None
    } else if rules[from].spec_id() == id {
        Some(from)
    } else {
        find_rule(rules, id, from + 1)
    }
}

pub proof fn lemma_find_rule(rules: Seq<Rule>, id: Seq<char>, from: int)
    requires
        0 <= from,
    ensures
        find_rule(rules, id, from) matches Some(k) ==> from <= k < rules.len(),
    decreases rules.len() - from,
{
    if from < rules.len() && rules[from].spec_id() != id {
        lemma_find_rule(rules, id, from + 1);
    }
}

/// The full rationale for one rule, for the `explain` command: the id, a blank
/// line, the rationale and a newline. `None` when no rule owns the id.
pub open spec fn spec_explain(rule_id: Seq<char>, rules: Seq<Rule>) -> Option<Seq<char>> {
    match find_rule(rules, rule_id, 0) {
        Some(k) => Some(rule_id + seq!['\n', '\n'] + rules[k].spec_rationale() + seq!['\n']),
        None => None,
    }
}

/// The full rationale for one rule, for the `explain` command. `None` when no
/// rule owns the id.
pub fn explain(rule_id: &str, rules: &[Rule]) -> (r: Option<String>)
    ensures
        match spec_explain(rule_id@, rules@) {
            Some(text) => r matches Some(s) && s@ == text,
            None => r is None,
        },
{
    proof {
        lemma_find_rule(rules@, rule_id@, 0);
    }
    let mut i: usize = 0;
    while i < rules.len()
        invariant
            i <= rules@.len(),
            find_rule(rules@, rule_id@, i as int) == find_rule(rules@, rule_id@, 0),
        decreases rules@.len() - i,
    {
        if crate::ast::same_text(rules[i].id(), rule_id) {
            let mut text: Vec<char> = chars_of(rule_id);
            text.push('\n');
            text.push('\n');
            push_literal(&mut text, rules[i].rationale());
            text.push('\n');
            assert(text@ =~= rule_id@ + seq!['\n', '\n'] + rules@[i as int].spec_rationale()
                + seq!['\n']);
            return Some(string_of(&text, 0, text.len()));
        }
        i += 1;
    }
    None
}

/// How the catalog names a rule's kind.
pub open spec fn spec_doc_kind(kind: RuleKind) -> Seq<char> {
    match kind {
        RuleKind::Fix => "Fix"@,
        RuleKind::Flag => "Flag"@,
        RuleKind::Both => "Fix and flag"@,
    }
}

fn doc_kind(kind: RuleKind) -> (r: &'static str)
    ensures
        r@ == spec_doc_kind(kind),
{
    match kind {
        RuleKind::Fix => "Fix",
        RuleKind::Flag => "Flag",
        RuleKind::Both => "Fix and flag",
    }
}

pub const CATALOG_TITLE: &'static str = "# Rules\n\n";

pub const CATALOG_INTRO: &'static str = "Every rule is always on. A rule either _fixes_ what it finds or only _flags_ it. A rule is flag-only when fixing it would mean guessing at your intent, so the tool reports it and leaves the change to you. This page is generated from the rules themselves, and the reasoning is the same text `markdown-style explain <rule>` prints.\n\n";

/// One rule's section of the catalog: its id as a heading, its kind and short
/// reason, then its rationale.
pub open spec fn catalog_section(rule: Rule) -> Seq<char> {
    "## "@ + rule.spec_id() + "\n\n"@ + "_"@ + spec_doc_kind(rule.spec_kind()) + "._ "@
        + rule.spec_short_reason() + "\n\n"@ + rule.spec_rationale() + "\n\n"@
}

pub open spec fn catalog_sections(rules: Seq<Rule>, n: int) -> Seq<char>
    decreases n,
{
    if n <= 0 {
        Seq::empty()
    } else {
        catalog_sections(rules, n - 1) + catalog_section(rules[n - 1])
    }
}

/// The catalog before formatting.
pub open spec fn catalog_raw(rules: Seq<Rule>) -> Seq<char> {
    CATALOG_TITLE@ + CATALOG_INTRO@ + catalog_sections(rules, rules.len() as int)
}

/// The full rule catalog as Markdown, generated from the registry so it cannot
/// drift from the code. The result is run through the formatter, so it is always
/// canonical and passes the tool's own rules.
pub fn rules_catalog() -> (r: String)
    ensures
        r@ == crate::spec_format_upto(
            crate::chars::trim_end(catalog_raw(crate::spec_default_rules())),
            crate::spec_default_rules(),
            crate::spec_default_rules().len() as int,
        ),
{
    let rules = crate::default_rules();
    let mut raw: Vec<char> = Vec::new();
    push_literal(&mut raw, CATALOG_TITLE);
    push_literal(&mut raw, CATALOG_INTRO);
    let ghost head = raw@;
    let mut i: usize = 0;
    while i < rules.len()
        invariant
            i <= rules@.len(),
            rules@ == crate::spec_default_rules(),
            raw@ == head + catalog_sections(rules@, i as int),
            head == CATALOG_TITLE@ + CATALOG_INTRO@,
        decreases rules@.len() - i,
    {
        let rule = &rules[i];
        let ghost before = raw@;
        let mut section: Vec<char> = Vec::new();
        push_literal(&mut section, "## ");
        push_literal(&mut section, rule.id());
        push_literal(&mut section, "\n\n");
        push_literal(&mut section, "_");
        push_literal(&mut section, doc_kind(rule.kind()));
        push_literal(&mut section, "._ ");
        push_literal(&mut section, rule.short_reason());
        push_literal(&mut section, "\n\n");
        push_literal(&mut section, rule.rationale());
        push_literal(&mut section, "\n\n");
        assert(section@ =~= catalog_section(rules@[i as int]));
        append(&mut raw, &section);
        assert(raw@ =~= head + catalog_sections(rules@, i + 1));
        i += 1;
    }
    let end = crate::chars::skip_space_back(&raw, 0, raw.len());
    assert(raw@.subrange(0, raw@.len() as int) =~= raw@);
    let trimmed = string_of(&raw, 0, end);
    crate::format(trimmed.as_str(), rules.as_slice())
}

} // verus!
