//! Character-level helpers shared by the rules: conversion between strings and
//! character sequences, Unicode whitespace, and trimming.
use vstd::prelude::*;

verus! {

/// The characters of `s`, in order.
pub fn chars_of(s: &str) -> (v: Vec<char>)
    ensures
        v@ == s@,
{
    let mut v: Vec<char> = Vec::new();
    for c in it: s.chars()
        invariant
            v@ == it.seq().take(it.index() as int),
            it.seq() == s@,
    {
        v.push(c);
    }
    v
}

/// Appends one character to a string: std's `String::push`, documented as
/// appending the given char to the end of the string. Nothing else is claimed.
#[verifier::external_body]
pub(crate) fn push_char(s: &mut String, c: char)
    ensures
        final(s)@ == old(s)@.push(c),
{
    s.push(c);
}

/// Appends `v[from..to]` to `out`.
pub fn push_chars(out: &mut String, v: &Vec<char>, from: usize, to: usize)
    requires
        from <= to <= v@.len(),
    ensures
        final(out)@ == old(out)@ + v@.subrange(from as int, to as int),
{
    let mut i = from;
    while i < to
        invariant
            from <= i <= to <= v@.len(),
            out@ == old(out)@ + v@.subrange(from as int, i as int),
        decreases to - i,
    {
        push_char(out, v[i]);
        i += 1;
        assert(out@ =~= old(out)@ + v@.subrange(from as int, i as int));
    }
}

/// The string holding the characters `v[from..to]`.
pub fn string_of(v: &Vec<char>, from: usize, to: usize) -> (s: String)
    requires
        from <= to <= v@.len(),
    ensures
        s@ == v@.subrange(from as int, to as int),
{
    let mut s = String::new();
    push_chars(&mut s, v, from, to);
    assert(s@ =~= v@.subrange(from as int, to as int));
    s
}

/// Appends a string slice to `out`.
pub fn push_str(out: &mut String, s: &str)
    ensures
        final(out)@ == old(out)@ + s@,
{
    let v = chars_of(s);
    push_chars(out, &v, 0, v.len());
    assert(v@.subrange(0, v@.len() as int) =~= v@);
}

/// Appends the characters of `v` to `out`.
pub fn append(out: &mut Vec<char>, v: &Vec<char>)
    ensures
        final(out)@ == old(out)@ + v@,
{
    let mut k: usize = 0;
    while k < v.len()
        invariant
            k <= v@.len(),
            out@ == old(out)@ + v@.take(k as int),
        decreases v@.len() - k,
    {
        out.push(v[k]);
        k += 1;
        assert(out@ =~= old(out)@ + v@.take(k as int));
    }
    assert(v@.take(k as int) =~= v@);
}

pub const DIGITS: [char; 10] = ['0', '1', '2', '3', '4', '5', '6', '7', '8', '9'];

/// The decimal numeral of `n`.
pub open spec fn decimal(n: nat) -> Seq<char>
    decreases n,
{
    if n < 10 {
        seq![DIGITS@[n as int]]
    } else {
        decimal(n / 10).push(DIGITS@[(n % 10) as int])
    }
}

/// The decimal numeral of `n`.
pub fn decimal_of(n: usize) -> (v: Vec<char>)
    ensures
        v@ == decimal(n as nat),
    decreases n,
{
    if n < 10 {
        let mut v: Vec<char> = Vec::new();
        v.push(DIGITS[n]);
        assert(v@ =~= decimal(n as nat));
        v
    } else {
        let mut v = decimal_of(n / 10);
        v.push(DIGITS[n % 10]);
        v
    }
}

/// The numeral of `n` is made of digits, and is a single one exactly when `n < 10`.
pub proof fn lemma_decimal_digits(n: nat)
    ensures
        decimal(n).len() >= 1,
        (n < 10) == (decimal(n).len() == 1),
        forall|k: int| 0 <= k < decimal(n).len() ==> '0' <= #[trigger] decimal(n)[k] <= '9',
    decreases n,
{
    if n >= 10 {
        lemma_decimal_digits(n / 10);
        let init = decimal(n / 10);
        assert forall|k: int| 0 <= k < decimal(n).len() implies '0' <= #[trigger] decimal(n)[k]
            <= '9' by {
            if k < init.len() {
                assert(decimal(n)[k] == init[k]);
            }
        }
    }
}

/// Different numbers have different numerals.
pub proof fn lemma_decimal_injective(a: nat, b: nat)
    requires
        decimal(a) == decimal(b),
    ensures
        a == b,
    decreases a,
{
    lemma_decimal_digits(a);
    lemma_decimal_digits(b);
    assert(DIGITS@ =~= seq!['0', '1', '2', '3', '4', '5', '6', '7', '8', '9']);
    if a >= 10 && b >= 10 {
        assert(decimal(a).drop_last() =~= decimal(a / 10));
        assert(decimal(b).drop_last() =~= decimal(b / 10));
        lemma_decimal_injective(a / 10, b / 10);
        assert(decimal(a).last() == DIGITS@[(a % 10) as int]);
        assert(decimal(b).last() == DIGITS@[(b % 10) as int]);
        assert(a % 10 == b % 10);
        assert(a == b) by (nonlinear_arith)
            requires
                a / 10 == b / 10,
                a % 10 == b % 10,
        ;
    } else if a < 10 && b < 10 {
        assert(decimal(a) == seq![DIGITS@[a as int]]);
        assert(decimal(b) == seq![DIGITS@[b as int]]);
        assert(seq![DIGITS@[a as int]][0] == DIGITS@[a as int]);
        assert(seq![DIGITS@[b as int]][0] == DIGITS@[b as int]);
        assert(DIGITS@[a as int] == DIGITS@[b as int]);
        assert(forall|i: int, j: int|
            0 <= i < 10 && 0 <= j < 10 && i != j ==> #[trigger] DIGITS@[i] != #[trigger] DIGITS@[j]);
    }
}

/// `s` with every occurrence of `pat`, leftmost first and not overlapping,
/// replaced by `rep`, as `str::replace` does for a non-empty pattern.
pub open spec fn replace_all(s: Seq<char>, pat: Seq<char>, rep: Seq<char>) -> Seq<char>
    decreases s.len(),
{
    if pat.len() == 0 || s.len() < pat.len() {
        s
    } else if s.take(pat.len() as int) == pat {
        rep + replace_all(s.skip(pat.len() as int), pat, rep)
    } else {
        seq![s[0]] + replace_all(s.drop_first(), pat, rep)
    }
}

pub fn starts_with_at(s: &Vec<char>, i: usize, pat: &Vec<char>) -> (b: bool)
    requires
        i <= s@.len(),
    ensures
        b == (i + pat@.len() <= s@.len() && s@.subrange(i as int, i + pat@.len()) == pat@),
{
    let _n = s.len();
    if pat.len() > s.len() - i {
        return false;
    }
    let mut k: usize = 0;
    while k < pat.len()
        invariant
            k <= pat@.len(),
            i + pat@.len() <= s.len(),
            forall|m: int| 0 <= m < k ==> s@[i + m] == pat@[m],
        decreases pat@.len() - k,
    {
        if s[i + k] != pat[k] {
            assert(s@.subrange(i as int, i + pat@.len())[k as int] != pat@[k as int]);
            return false;
        }
        k += 1;
    }
    assert(s@.subrange(i as int, i + pat@.len()) =~= pat@);
    true
}

pub fn replace(s: &Vec<char>, pat: &Vec<char>, rep: &Vec<char>) -> (r: Vec<char>)
    requires
        pat@.len() > 0,
    ensures
        r@ == replace_all(s@, pat@, rep@),
{
    let mut out: Vec<char> = Vec::new();
    let mut i: usize = 0;
    assert(s@.skip(0) =~= s@);
    while i < s.len()
        invariant
            i <= s@.len(),
            pat@.len() > 0,
            out@ + replace_all(s@.skip(i as int), pat@, rep@) == replace_all(s@, pat@, rep@),
        decreases s@.len() - i,
    {
        let ghost t = s@.skip(i as int);
        if starts_with_at(s, i, pat) {
            assert(t.take(pat@.len() as int) =~= s@.subrange(i as int, i + pat@.len()));
            assert(t.skip(pat@.len() as int) =~= s@.skip(i + pat@.len()));
            let ghost before = out@;
            let mut k: usize = 0;
            while k < rep.len()
                invariant
                    k <= rep@.len(),
                    out@ == before + rep@.take(k as int),
                decreases rep@.len() - k,
            {
                out.push(rep[k]);
                k += 1;
                assert(out@ =~= before + rep@.take(k as int));
            }
            assert(rep@.take(k as int) =~= rep@);
            assert(out@ + replace_all(s@.skip(i + pat@.len()), pat@, rep@) =~= before + replace_all(
                t,
                pat@,
                rep@,
            ));
            i = i + pat.len();
        } else {
            proof {
                if t.len() >= pat@.len() {
                    assert(t.take(pat@.len() as int) =~= s@.subrange(i as int, i + pat@.len()));
                }
            }
            assert(t.drop_first() =~= s@.skip(i + 1));
            assert(out@.push(s@[i as int]) + replace_all(s@.skip(i + 1), pat@, rep@) =~= out@
                + replace_all(t, pat@, rep@)) by {
                if t.len() < pat@.len() {
                    // The tail is too short to hold the pattern: it stays as it is.
                    assert(replace_all(s@.skip(i + 1), pat@, rep@) == s@.skip(i + 1));
                }
            }
            out.push(s[i]);
            i += 1;
        }
    }
    assert(out@ =~= out@ + replace_all(s@.skip(i as int), pat@, rep@));
    out
}

/// Unicode `White_Space`, the property behind `char::is_whitespace` and `str::trim`.
pub open spec fn is_space(c: char) -> bool {
    ||| ('\u{9}' <= c && c <= '\u{d}')
    ||| c == ' '
    ||| c == '\u{85}'
    ||| c == '\u{a0}'
    ||| c == '\u{1680}'
    ||| ('\u{2000}' <= c && c <= '\u{200a}')
    ||| c == '\u{2028}'
    ||| c == '\u{2029}'
    ||| c == '\u{202f}'
    ||| c == '\u{205f}'
    ||| c == '\u{3000}'
}

/// Whether `c` is Unicode whitespace.
pub fn is_whitespace(c: char) -> (b: bool)
    ensures
        b == is_space(c),
{
    ('\u{9}' <= c && c <= '\u{d}') || c == ' ' || c == '\u{85}' || c == '\u{a0}' || c
        == '\u{1680}' || ('\u{2000}' <= c && c <= '\u{200a}') || c == '\u{2028}' || c
        == '\u{2029}' || c == '\u{202f}' || c == '\u{205f}' || c == '\u{3000}'
}

/// `s` without its leading whitespace.
pub open spec fn trim_start(s: Seq<char>) -> Seq<char>
    decreases s.len(),
{
    if s.len() > 0 && is_space(s[0]) {
        trim_start(s.drop_first())
    } else {
        s
    }
}

/// `s` without its trailing whitespace.
pub open spec fn trim_end(s: Seq<char>) -> Seq<char>
    decreases s.len(),
{
    if s.len() > 0 && is_space(s.last()) {
        trim_end(s.drop_last())
    } else {
        s
    }
}

/// `s` without leading and trailing whitespace, as `str::trim` gives it.
pub open spec fn trim(s: Seq<char>) -> Seq<char> {
    trim_end(trim_start(s))
}

/// Whether every character of `s` is whitespace.
pub open spec fn all_space(s: Seq<char>) -> bool {
    forall|i: int| 0 <= i < s.len() ==> is_space(#[trigger] s[i])
}

pub proof fn lemma_trim_start_all_space(s: Seq<char>)
    ensures
        (trim_start(s).len() == 0) == all_space(s),
    decreases s.len(),
{
    if s.len() > 0 && is_space(s[0]) {
        lemma_trim_start_all_space(s.drop_first());
        if all_space(s.drop_first()) {
            assert forall|i: int| 0 <= i < s.len() implies is_space(#[trigger] s[i]) by {
                if i > 0 {
                    assert(s[i] == s.drop_first()[i - 1]);
                }
            }
        }
        if all_space(s) {
            assert forall|i: int| 0 <= i < s.drop_first().len() implies is_space(
                #[trigger] s.drop_first()[i],
            ) by {
                assert(s.drop_first()[i] == s[i + 1]);
            }
        }
    }
}

pub proof fn lemma_trim_start_first(s: Seq<char>)
    ensures
        trim_start(s).len() > 0 ==> !is_space(trim_start(s)[0]),
    decreases s.len(),
{
    if s.len() > 0 && is_space(s[0]) {
        lemma_trim_start_first(s.drop_first());
    }
}

pub proof fn lemma_trim_end_keeps_first(s: Seq<char>)
    requires
        s.len() > 0,
        !is_space(s[0]),
    ensures
        trim_end(s).len() > 0,
    decreases s.len(),
{
    if s.len() > 1 && is_space(s.last()) {
        lemma_trim_end_keeps_first(s.drop_last());
    }
}

/// `trim(s)` is empty exactly when `s` is all whitespace.
pub proof fn lemma_trim_empty(s: Seq<char>)
    ensures
        (trim(s).len() == 0) == all_space(s),
{
    lemma_trim_start_all_space(s);
    lemma_trim_start_first(s);
    if trim_start(s).len() > 0 {
        lemma_trim_end_keeps_first(trim_start(s));
    }
}

/// Whether `s` begins with something other than whitespace.
pub open spec fn starts_plainly(s: Seq<char>) -> bool {
    s.len() > 0 && !is_space(s[0])
}

/// A trimmed text that is not empty begins with a non-space.
pub proof fn lemma_trim_starts_plainly(t: Seq<char>)
    ensures
        trim(t).len() > 0 ==> starts_plainly(trim(t)),
{
    lemma_trim_start_first(t);
    lemma_trim_end_prefix(trim_start(t));
}

/// `trim_start(s)` drops a run of leading whitespace.
pub proof fn lemma_trim_start_at(s: Seq<char>) -> (i: int)
    ensures
        0 <= i <= s.len(),
        trim_start(s) == s.skip(i),
        forall|j: int| 0 <= j < i ==> is_space(#[trigger] s[j]),
    decreases s.len(),
{
    if s.len() > 0 && is_space(s[0]) {
        let i0 = lemma_trim_start_at(s.drop_first());
        assert(s.drop_first().skip(i0) =~= s.skip(i0 + 1));
        assert forall|j: int| 0 <= j < i0 + 1 implies is_space(#[trigger] s[j]) by {
            if j > 0 {
                assert(s[j] == s.drop_first()[j - 1]);
            }
        }
        i0 + 1
    } else {
        assert(s.skip(0) =~= s);
        0
    }
}

/// `trim_end(s)` drops a run of trailing whitespace.
pub proof fn lemma_trim_end_at(s: Seq<char>) -> (j: int)
    ensures
        0 <= j <= s.len(),
        trim_end(s) == s.take(j),
        forall|q: int| j <= q < s.len() ==> is_space(#[trigger] s[q]),
    decreases s.len(),
{
    if s.len() > 0 && is_space(s.last()) {
        let j0 = lemma_trim_end_at(s.drop_last());
        assert(s.drop_last().take(j0) =~= s.take(j0));
        assert forall|q: int| j0 <= q < s.len() implies is_space(#[trigger] s[q]) by {
            if q < s.len() - 1 {
                assert(s[q] == s.drop_last()[q]);
            }
        }
        j0
    } else {
        assert(s.take(s.len() as int) =~= s);
        s.len() as int
    }
}

/// Trimming a stretch of `s` gives a smaller stretch of it, cut next to the
/// whitespace it dropped.
pub proof fn lemma_trim_subrange(s: Seq<char>, a: int, b: int) -> (r: (int, int))
    requires
        0 <= a <= b <= s.len(),
    ensures
        a <= r.0 <= r.1 <= b,
        trim(s.subrange(a, b)) == s.subrange(r.0, r.1),
        r.0 == a || is_space(s[r.0 - 1]),
        r.1 == b || is_space(s[r.1]),
        all_space(s.subrange(a, r.0)),
        all_space(s.subrange(r.1, b)),
{
    let x = s.subrange(a, b);
    let i = lemma_trim_start_at(x);
    let y = x.skip(i);
    let j = lemma_trim_end_at(y);
    assert(y.take(j) =~= s.subrange(a + i, a + i + j));
    assert forall|q: int| 0 <= q < s.subrange(a, a + i).len() implies is_space(
        #[trigger] s.subrange(a, a + i)[q],
    ) by {
        assert(s.subrange(a, a + i)[q] == x[q]);
    }
    assert forall|q: int| 0 <= q < s.subrange(a + i + j, b).len() implies is_space(
        #[trigger] s.subrange(a + i + j, b)[q],
    ) by {
        assert(s.subrange(a + i + j, b)[q] == y[j + q]);
    }
    if i > 0 {
        assert(s[a + i - 1] == x[i - 1]);
    }
    if a + i + j < b {
        assert(s[a + i + j] == y[j]);
    }
    (a + i, a + i + j)
}

/// The characters of `s` that are not whitespace, in order.
pub open spec fn visible(s: Seq<char>) -> Seq<char>
    decreases s.len(),
{
    if s.len() == 0 {
        Seq::empty()
    } else if is_space(s.last()) {
        visible(s.drop_last())
    } else {
        visible(s.drop_last()).push(s.last())
    }
}

pub proof fn lemma_visible_concat(a: Seq<char>, b: Seq<char>)
    ensures
        visible(a + b) == visible(a) + visible(b),
    decreases b.len(),
{
    if b.len() == 0 {
        assert(a + b =~= a);
        assert(visible(a) + visible(b) =~= visible(a));
    } else {
        lemma_visible_concat(a, b.drop_last());
        assert((a + b).drop_last() =~= a + b.drop_last());
        assert((a + b).last() == b.last());
        assert(visible(a + b) =~= visible(a) + visible(b));
    }
}

pub proof fn lemma_visible_all_space(a: Seq<char>)
    requires
        all_space(a),
    ensures
        visible(a).len() == 0,
    decreases a.len(),
{
    if a.len() > 0 {
        assert forall|i: int| 0 <= i < a.drop_last().len() implies is_space(
            #[trigger] a.drop_last()[i],
        ) by {
            assert(a.drop_last()[i] == a[i]);
        }
        lemma_visible_all_space(a.drop_last());
        assert(is_space(a[a.len() - 1]));
    }
}

/// `trim_end(s)` is a prefix of `s`.
pub proof fn lemma_trim_end_prefix(s: Seq<char>)
    ensures
        trim_end(s).len() <= s.len(),
        forall|k: int| 0 <= k < trim_end(s).len() ==> #[trigger] trim_end(s)[k] == s[k],
    decreases s.len(),
{
    if s.len() > 0 && is_space(s.last()) {
        lemma_trim_end_prefix(s.drop_last());
    }
}

/// `trim_end` keeps everything up to a non-whitespace character.
pub proof fn lemma_trim_end_keeps(s: Seq<char>, j: int)
    requires
        0 <= j < s.len(),
        !is_space(s[j]),
    ensures
        trim_end(s).len() > j,
    decreases s.len(),
{
    if s.len() > 0 && is_space(s.last()) {
        lemma_trim_end_keeps(s.drop_last(), j);
    }
}

/// Trailing whitespace appended to `a` is trimmed away again.
pub proof fn lemma_trim_end_append_space(a: Seq<char>, b: Seq<char>)
    requires
        all_space(b),
    ensures
        trim_end(a + b) == trim_end(a),
    decreases b.len(),
{
    if b.len() == 0 {
        assert(a + b =~= a);
    } else {
        assert((a + b).drop_last() =~= a + b.drop_last());
        assert((a + b).last() == b[b.len() - 1]);
        lemma_trim_end_append_space(a, b.drop_last());
    }
}

/// Where two sequences agree on `a`'s indices, advancing through `a` stops at
/// the same place in both, or runs to the end of `a` in both.
pub proof fn lemma_advance_agree(a: Seq<char>, y: Seq<char>, i: int, p: spec_fn(char) -> bool)
    requires
        0 <= i <= a.len() <= y.len(),
        forall|k: int| 0 <= k < a.len() ==> y[k] == a[k],
    ensures
        advance(a, i, p) < a.len() ==> advance(y, i, p) == advance(a, i, p),
        advance(a, i, p) >= a.len() ==> advance(y, i, p) == advance(y, a.len() as int, p),
    decreases a.len() - i,
{
    if i < a.len() && p(a[i]) {
        assert(y[i] == a[i]);
        lemma_advance_agree(a, y, i + 1, p);
    } else if i < a.len() {
        assert(y[i] == a[i]);
    }
}

/// The index of the first non-whitespace character of `v[from..to]`, or `to`.
pub fn skip_space(v: &Vec<char>, from: usize, to: usize) -> (i: usize)
    requires
        from <= to <= v@.len(),
    ensures
        from <= i <= to,
        v@.subrange(i as int, to as int) == trim_start(v@.subrange(from as int, to as int)),
{
    let mut i = from;
    while i < to && is_whitespace(v[i])
        invariant
            from <= i <= to <= v@.len(),
            trim_start(v@.subrange(i as int, to as int)) == trim_start(
                v@.subrange(from as int, to as int),
            ),
        decreases to - i,
    {
        assert(v@.subrange(i as int, to as int).drop_first() =~= v@.subrange(
            i + 1,
            to as int,
        ));
        i += 1;
    }
    i
}

/// The end of `v[from..to]` once its trailing whitespace is dropped.
pub fn skip_space_back(v: &Vec<char>, from: usize, to: usize) -> (j: usize)
    requires
        from <= to <= v@.len(),
    ensures
        from <= j <= to,
        v@.subrange(from as int, j as int) == trim_end(v@.subrange(from as int, to as int)),
{
    let mut j = to;
    while j > from && is_whitespace(v[j - 1])
        invariant
            from <= j <= to <= v@.len(),
            trim_end(v@.subrange(from as int, j as int)) == trim_end(
                v@.subrange(from as int, to as int),
            ),
        decreases j,
    {
        assert(v@.subrange(from as int, j as int).drop_last() =~= v@.subrange(
            from as int,
            j - 1,
        ));
        j -= 1;
    }
    j
}

/// The bounds of `trim(v[from..to])` within `v`.
pub fn trim_range(v: &Vec<char>, from: usize, to: usize) -> (r: (usize, usize))
    requires
        from <= to <= v@.len(),
    ensures
        from <= r.0 <= r.1 <= to,
        v@.subrange(r.0 as int, r.1 as int) == trim(v@.subrange(from as int, to as int)),
{
    let a = skip_space(v, from, to);
    let b = skip_space_back(v, a, to);
    (a, b)
}

/// Whether `v[from..to]` is all whitespace, that is whether it trims to nothing.
pub fn is_blank(v: &Vec<char>, from: usize, to: usize) -> (b: bool)
    requires
        from <= to <= v@.len(),
    ensures
        b == all_space(v@.subrange(from as int, to as int)),
        b == (trim(v@.subrange(from as int, to as int)).len() == 0),
{
    let a = skip_space(v, from, to);
    proof {
        lemma_trim_start_all_space(v@.subrange(from as int, to as int));
        lemma_trim_empty(v@.subrange(from as int, to as int));
        assert(v@.subrange(a as int, to as int).len() == to - a);
    }
    a == to
}

/// The characters `v[from..to]` as a vector of their own.
pub fn sub_vec(v: &Vec<char>, from: usize, to: usize) -> (r: Vec<char>)
    requires
        from <= to <= v@.len(),
    ensures
        r@ == v@.subrange(from as int, to as int),
{
    let mut r: Vec<char> = Vec::new();
    let mut i = from;
    while i < to
        invariant
            from <= i <= to <= v@.len(),
            r@ == v@.subrange(from as int, i as int),
        decreases to - i,
    {
        r.push(v[i]);
        i += 1;
        assert(r@ =~= v@.subrange(from as int, i as int));
    }
    r
}

/// The first index at or after `i` whose character fails `p` (or the end).
pub open spec fn advance(s: Seq<char>, i: int, p: spec_fn(char) -> bool) -> int
    decreases s.len() - i,
{
    if 0 <= i < s.len() && p(s[i]) {
        advance(s, i + 1, p)
    } else {
        i
    }
}

/// The smallest `j <= i` such that every character in `s[j..i]` passes `p`.
pub open spec fn retreat(s: Seq<char>, i: int, p: spec_fn(char) -> bool) -> int
    decreases i,
{
    if 0 < i <= s.len() && p(s[i - 1]) {
        retreat(s, i - 1, p)
    } else {
        i
    }
}

pub proof fn lemma_advance(s: Seq<char>, i: int, p: spec_fn(char) -> bool)
    requires
        0 <= i <= s.len(),
    ensures
        i <= advance(s, i, p) <= s.len(),
        advance(s, i, p) < s.len() ==> !p(s[advance(s, i, p)]),
        forall|k: int| i <= k < advance(s, i, p) ==> p(#[trigger] s[k]),
    decreases s.len() - i,
{
    if i < s.len() && p(s[i]) {
        lemma_advance(s, i + 1, p);
    }
}

pub proof fn lemma_retreat(s: Seq<char>, i: int, p: spec_fn(char) -> bool)
    requires
        0 <= i <= s.len(),
    ensures
        0 <= retreat(s, i, p) <= i,
        retreat(s, i, p) > 0 ==> !p(s[retreat(s, i, p) - 1]),
        forall|k: int| retreat(s, i, p) <= k < i ==> p(#[trigger] s[k]),
    decreases i,
{
    if i > 0 && p(s[i - 1]) {
        lemma_retreat(s, i - 1, p);
    }
}

/// Whitespace, as a predicate.
pub open spec fn space_pred() -> spec_fn(char) -> bool {
    |c: char| is_space(c)
}

/// Anything but whitespace, as a predicate.
pub open spec fn non_space_pred() -> spec_fn(char) -> bool {
    |c: char| !is_space(c)
}

/// The first index at or after `i` that is not whitespace (or the end).
pub fn skip_spaces(v: &Vec<char>, i: usize) -> (j: usize)
    requires
        i <= v@.len(),
    ensures
        j == advance(v@, i as int, space_pred()),
        i <= j <= v@.len(),
{
    let mut j = i;
    while j < v.len() && is_whitespace(v[j])
        invariant
            i <= j <= v@.len(),
            advance(v@, j as int, space_pred()) == advance(v@, i as int, space_pred()),
        decreases v@.len() - j,
    {
        j += 1;
    }
    j
}

/// The start of the run of non-whitespace characters that ends at `i`.
pub fn word_start(v: &Vec<char>, i: usize) -> (j: usize)
    requires
        i <= v@.len(),
    ensures
        j == retreat(v@, i as int, non_space_pred()),
        j <= i,
{
    let mut j = i;
    while j > 0 && !is_whitespace(v[j - 1])
        invariant
            j <= i <= v@.len(),
            retreat(v@, j as int, non_space_pred()) == retreat(v@, i as int, non_space_pred()),
        decreases j,
    {
        j -= 1;
    }
    j
}

/// Unicode `Uppercase`, as `char::is_uppercase` decides it.
pub uninterp spec fn upper_case(c: char) -> bool;

/// Unicode `Alphabetic`, as `char::is_alphabetic` decides it.
pub uninterp spec fn alphabetic(c: char) -> bool;

/// `Alphabetic` or `Numeric`, as `char::is_alphanumeric` decides it.
pub uninterp spec fn alphanumeric(c: char) -> bool;

/// The lowercase mapping of a string, as `str::to_lowercase` gives it.
pub uninterp spec fn lowercase(s: Seq<char>) -> Seq<char>;

/// std's `char::is_uppercase`: whether `c` has the Unicode `Uppercase`
/// property. The property's table is not restated; the result is named.
#[verifier::external_body]
pub(crate) fn is_uppercase(c: char) -> (b: bool)
    ensures
        b == upper_case(c),
{
    c.is_uppercase()
}

/// std's `char::is_alphabetic`: whether `c` has the Unicode `Alphabetic`
/// property. The property's table is not restated; the result is named.
#[verifier::external_body]
pub(crate) fn is_alphabetic(c: char) -> (b: bool)
    ensures
        b == alphabetic(c),
{
    c.is_alphabetic()
}

/// std's `char::is_alphanumeric`: `Alphabetic` or `Numeric`. The tables are
/// not restated; the result is named.
#[verifier::external_body]
pub(crate) fn is_alphanumeric(c: char) -> (b: bool)
    ensures
        b == alphanumeric(c),
{
    c.is_alphanumeric()
}

/// std's `str::to_lowercase`: the Unicode lowercase mapping of each character,
/// with the final-sigma rule. The mapping is not restated; the result is named.
#[verifier::external_body]
pub(crate) fn to_lowercase(s: &str) -> (r: String)
    ensures
        r@ == lowercase(s@),
{
    s.to_lowercase()
}

} // verus!
