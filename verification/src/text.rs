//! Splitting source text into lines that keep their terminators, and the line
//! ending a document mostly uses.
use vstd::prelude::*;
use vstd::string::*;
use crate::chars::chars_of;

verus! {

/// A single source line: its content without the terminator, and the terminator
/// itself (`"\n"`, `"\r\n"`, or `""` for a final line with no trailing newline).
pub struct Line<'a> {
    pub content: &'a str,
    pub terminator: &'a str,
}

impl<'a> View for Line<'a> {
    type V = (Seq<char>, Seq<char>);

    open spec fn view(&self) -> (Seq<char>, Seq<char>) {
        (self.content@, self.terminator@)
    }
}

/// The LF line ending.
pub open spec fn lf() -> Seq<char> {
    seq!['\n']
}

/// The CRLF line ending.
pub open spec fn crlf() -> Seq<char> {
    seq!['\r', '\n']
}

/// The first index at or after `from` where `s` holds `c`.
pub open spec fn index_of(s: Seq<char>, c: char, from: nat) -> Option<nat>
    decreases s.len() - from,
{
    if from >= s.len() {
        None
    } else if s[from as int] == c {
        Some(from)
    } else {
        index_of(s, c, from + 1)
    }
}

pub proof fn lemma_index_of(s: Seq<char>, c: char, from: nat)
    ensures
        index_of(s, c, from) matches Some(i) ==> from <= i < s.len() && s[i as int] == c && (
        forall|k: int| from <= k < i ==> s[k] != c),
        index_of(s, c, from) is None ==> forall|k: int| from <= k < s.len() ==> s[k] != c,
    decreases s.len() - from,
{
    if from < s.len() && s[from as int] != c {
        lemma_index_of(s, c, from + 1);
    }
}

/// A raw line (the text before a `\n`) split into content and terminator.
pub open spec fn cut_line(raw: Seq<char>) -> (Seq<char>, Seq<char>) {
    if raw.len() > 0 && raw.last() == '\r' {
        (raw.drop_last(), crlf())
    } else {
        (raw, lf())
    }
}

/// The lines of `s`: pieces between `\n`s, each with its terminator; a final
/// piece without `\n` has the empty terminator, and none follows a final `\n`.
pub open spec fn spec_split_lines(s: Seq<char>) -> Seq<(Seq<char>, Seq<char>)>
    decreases s.len(),
{
    match index_of(s, '\n', 0) {
        None => seq![(s, Seq::<char>::empty())],
        Some(i) => {
            proof {
                lemma_index_of(s, '\n', 0);
            }
            if i + 1 >= s.len() {
                seq![cut_line(s.take(i as int))]
            } else {
                seq![cut_line(s.take(i as int))] + spec_split_lines(s.skip((i + 1) as int))
            }
        },
    }
}

/// The text that a sequence of lines spells out.
pub open spec fn join_lines(lines: Seq<(Seq<char>, Seq<char>)>) -> Seq<char>
    decreases lines.len(),
{
    if lines.len() == 0 {
        Seq::empty()
    } else {
        lines[0].0 + lines[0].1 + join_lines(lines.drop_first())
    }
}

/// Joining one more line appends it.
pub proof fn lemma_join_lines_push(lines: Seq<(Seq<char>, Seq<char>)>, l: (Seq<char>, Seq<char>))
    ensures
        join_lines(lines.push(l)) == join_lines(lines) + l.0 + l.1,
    decreases lines.len(),
{
    if lines.len() == 0 {
        reveal_with_fuel(join_lines, 2);
        assert(lines.push(l).drop_first() =~= Seq::<(Seq<char>, Seq<char>)>::empty());
        assert(join_lines(lines.push(l)) =~= join_lines(lines) + l.0 + l.1);
    } else {
        lemma_join_lines_push(lines.drop_first(), l);
        assert(lines.push(l).drop_first() =~= lines.drop_first().push(l));
        assert(join_lines(lines.push(l)) =~= join_lines(lines) + l.0 + l.1);
    }
}

/// Joining a prefix one line longer appends that line.
pub proof fn lemma_join_lines_take(lines: Seq<(Seq<char>, Seq<char>)>, i: int)
    requires
        0 <= i < lines.len(),
    ensures
        join_lines(lines.take(i + 1)) == join_lines(lines.take(i)) + lines[i].0 + lines[i].1,
{
    assert(lines.take(i + 1) =~= lines.take(i).push(lines[i]));
    lemma_join_lines_push(lines.take(i), lines[i]);
}

/// Joining two runs of lines one after the other joins their texts.
pub proof fn lemma_join_lines_concat(a: Seq<(Seq<char>, Seq<char>)>, b: Seq<(Seq<char>, Seq<char>)>)
    ensures
        join_lines(a + b) == join_lines(a) + join_lines(b),
    decreases a.len(),
{
    if a.len() == 0 {
        assert(a + b =~= b);
        assert(join_lines(a) + join_lines(b) =~= join_lines(b));
    } else {
        lemma_join_lines_concat(a.drop_first(), b);
        assert((a + b).drop_first() =~= a.drop_first() + b);
        assert(join_lines(a + b) =~= join_lines(a) + join_lines(b));
    }
}

/// The views of a vector of lines.
pub open spec fn lines_view(lines: Seq<Line>) -> Seq<(Seq<char>, Seq<char>)> {
    lines.map_values(|l: Line| l@)
}

/// Splitting loses nothing: the lines, each followed by its terminator, spell
/// out the source exactly.
pub proof fn lemma_split_lines_rejoin(s: Seq<char>)
    ensures
        join_lines(spec_split_lines(s)) == s,
    decreases s.len(),
{
    lemma_index_of(s, '\n', 0);
    match index_of(s, '\n', 0) {
        None => {
            reveal_with_fuel(join_lines, 2);
            assert(join_lines(spec_split_lines(s)) =~= s);
        },
        Some(i) => {
            let raw = s.take(i as int);
            assert(cut_line(raw).0 + cut_line(raw).1 =~= s.take((i + 1) as int));
            if i + 1 >= s.len() {
                reveal_with_fuel(join_lines, 2);
                assert(join_lines(spec_split_lines(s)) =~= s);
            } else {
                lemma_split_lines_rejoin(s.skip((i + 1) as int));
                let ls = spec_split_lines(s);
                assert(ls.drop_first() =~= spec_split_lines(s.skip((i + 1) as int)));
                assert(s.take((i + 1) as int) + s.skip((i + 1) as int) =~= s);
            }
        },
    }
}

/// Whether `content` ends with a carriage return.
pub open spec fn ends_in_cr(content: Seq<char>) -> bool {
    content.len() > 0 && content.last() == '\r'
}

/// `content` without the carriage returns at its end.
pub open spec fn without_trailing_cr(content: Seq<char>) -> Seq<char>
    decreases content.len(),
{
    if ends_in_cr(content) {
        without_trailing_cr(content.drop_last())
    } else {
        content
    }
}

/// Dropping trailing carriage returns leaves a prefix that ends in none.
pub proof fn lemma_without_trailing_cr(content: Seq<char>)
    ensures
        !ends_in_cr(without_trailing_cr(content)),
        without_trailing_cr(content).len() <= content.len(),
        without_trailing_cr(content) == content.take(without_trailing_cr(content).len() as int),
    decreases content.len(),
{
    if ends_in_cr(content) {
        lemma_without_trailing_cr(content.drop_last());
        let w = without_trailing_cr(content.drop_last());
        assert(content.drop_last().take(w.len() as int) =~= content.take(w.len() as int));
    } else {
        assert(content.take(content.len() as int) =~= content);
    }
}

/// `content` without its trailing carriage returns, as characters.
pub fn trailing_cr_dropped(content: &str) -> (v: Vec<char>)
    ensures
        v@ == without_trailing_cr(content@),
{
    let mut v = chars_of(content);
    let ghost all = content@;
    while v.len() > 0 && v[v.len() - 1] == '\r'
        invariant
            without_trailing_cr(v@) == without_trailing_cr(all),
        decreases v.len(),
    {
        let ghost before = v@;
        v.pop();
        assert(v@ =~= before.drop_last());
    }
    v
}

/// Whether `ls` is a list of lines that splitting could have produced: there is
/// at least one; no content holds a `\n`; every terminator is `\n` or `\r\n`,
/// but the last may be missing, and then the last line has text unless it is
/// the only one; and no content before a bare `\n` ends with `\r`.
pub open spec fn well_formed_lines(ls: Seq<(Seq<char>, Seq<char>)>) -> bool {
    &&& ls.len() > 0
    &&& forall|i: int| 0 <= i < ls.len() ==> !(#[trigger] ls[i]).0.contains('\n')
    &&& forall|i: int|
        0 <= i < ls.len() ==> (#[trigger] ls[i]).1 == lf() || ls[i].1 == crlf() || (ls[i].1.len()
            == 0 && i == ls.len() - 1)
    &&& (ls.last().1.len() == 0 ==> ls.len() == 1 || ls.last().0.len() > 0)
    &&& forall|i: int| 0 <= i < ls.len() && (#[trigger] ls[i]).1 == lf() ==> !ends_in_cr(ls[i].0)
}

/// `index_of` finds the first `c` at or after `from`.
pub proof fn lemma_index_of_first(s: Seq<char>, c: char, from: nat, p: nat)
    requires
        from <= p < s.len(),
        s[p as int] == c,
        forall|k: int| from <= k < p ==> s[k] != c,
    ensures
        index_of(s, c, from) == Some(p),
    decreases p - from,
{
    if from < p {
        lemma_index_of_first(s, c, from + 1, p);
    }
}

/// The lines of `s` are well formed.
pub proof fn lemma_split_lines_well_formed(s: Seq<char>)
    ensures
        well_formed_lines(spec_split_lines(s)),
    decreases s.len(),
{
    lemma_split_lines_terminators(s);
    lemma_index_of(s, '\n', 0);
    let ls = spec_split_lines(s);
    match index_of(s, '\n', 0) {
        None => {
            assert(!ls[0].0.contains('\n'));
            assert(ls.len() == 1);
            assert(forall|i: int| 0 <= i < ls.len() ==> !(#[trigger] ls[i]).0.contains('\n'));
            assert(ls.last().1.len() == 0);
            assert(forall|i: int|
                0 <= i < ls.len() && (#[trigger] ls[i]).1 == lf() ==> !ends_in_cr(ls[i].0));
        },
        Some(i) => {
            let raw = s.take(i as int);
            let first = cut_line(raw);
            assert(!raw.contains('\n'));
            assert(!first.0.contains('\n')) by {
                if raw.len() > 0 && raw.last() == '\r' {
                    assert forall|k: int| 0 <= k < first.0.len() implies first.0[k] != '\n' by {
                        assert(first.0[k] == raw[k]);
                    }
                }
            }
            assert(first.1 == lf() ==> !ends_in_cr(first.0));
            assert(ls[0] == first);
            if i + 1 < s.len() {
                let rest = spec_split_lines(s.skip((i + 1) as int));
                lemma_split_lines_well_formed(s.skip((i + 1) as int));
                assert(ls == seq![first] + rest);
                assert forall|k: int| 0 <= k < ls.len() implies !(#[trigger] ls[k]).0.contains('\n') by {
                    if k > 0 {
                        assert(ls[k] == rest[k - 1]);
                    }
                }
                assert forall|k: int| 0 <= k < ls.len() && (#[trigger] ls[k]).1 == lf() implies !ends_in_cr(
                    ls[k].0,
                ) by {
                    if k > 0 {
                        assert(ls[k] == rest[k - 1]);
                    }
                }
                assert(ls.last() == rest.last());
            } else {
                assert(ls.len() == 1);
                assert(forall|k: int| 0 <= k < ls.len() ==> !(#[trigger] ls[k]).0.contains('\n'));
                assert(forall|k: int| 0 <= k < ls.len() && (#[trigger] ls[k]).1 == lf() ==> !ends_in_cr(ls[k].0));
                assert(ls.last().1.len() > 0);
            }
        },
    }
}

/// Splitting a well-formed list of lines, once joined, gives it back.
pub proof fn lemma_split_join(ls: Seq<(Seq<char>, Seq<char>)>)
    requires
        well_formed_lines(ls),
    ensures
        spec_split_lines(join_lines(ls)) == ls,
    decreases ls.len(),
{
    let s = join_lines(ls);
    let first = ls[0];
    let rest = ls.drop_first();
    assert(s == first.0 + first.1 + join_lines(rest));
    assert(!first.0.contains('\n'));
    if first.1.len() == 0 {
        assert(ls.len() == 1);
        assert(rest.len() == 0);
        assert(s =~= first.0);
        assert(first.1 =~= Seq::<char>::empty());
        lemma_index_of(s, '\n', 0);
        if index_of(s, '\n', 0) is Some {
            let i = index_of(s, '\n', 0)->0;
            assert(s[i as int] == first.0[i as int]);
        }
        assert(ls =~= seq![(s, Seq::<char>::empty())]);
    } else {
        let p = (first.0.len() + first.1.len() - 1) as nat;
        assert(s[p as int] == '\n');
        assert forall|k: int| 0 <= k < p implies s[k] != '\n' by {
            if k < first.0.len() {
                assert(s[k] == first.0[k]);
            } else {
                assert(first.1 == crlf());
                assert(s[k] == '\r');
            }
        }
        lemma_index_of_first(s, '\n', 0, p);
        let raw = s.take(p as int);
        if first.1 == crlf() {
            assert(raw =~= first.0.push('\r'));
            assert(raw.drop_last() =~= first.0);
        } else {
            assert(raw =~= first.0);
        }
        assert(cut_line(raw) == first);
        assert(s.skip(p + 1int) =~= join_lines(rest));
        if rest.len() == 0 {
            assert(join_lines(rest).len() == 0);
            assert(ls =~= seq![first]);
        } else {
            assert forall|i: int| 0 <= i < rest.len() implies !(#[trigger] rest[i]).0.contains('\n') by {
                assert(rest[i] == ls[i + 1]);
            }
            assert forall|i: int| 0 <= i < rest.len() implies (#[trigger] rest[i]).1 == lf()
                || rest[i].1 == crlf() || (rest[i].1.len() == 0 && i == rest.len() - 1) by {
                assert(rest[i] == ls[i + 1]);
            }
            assert forall|i: int| 0 <= i < rest.len() && (#[trigger] rest[i]).1 == lf() implies !ends_in_cr(
                rest[i].0,
            ) by {
                assert(rest[i] == ls[i + 1]);
            }
            assert(rest.last() == ls.last());
            lemma_split_join(rest);
            assert(join_lines(rest) == rest[0].0 + rest[0].1 + join_lines(rest.drop_first()));
            assert(join_lines(rest).len() > 0);
            assert(ls =~= seq![first] + rest);
        }
    }
}

/// Every line's terminator is `\n`, `\r\n`, or empty, and only the last may be empty.
pub proof fn lemma_split_lines_terminators(s: Seq<char>)
    ensures
        spec_split_lines(s).len() > 0,
        forall|k: int|
            0 <= k < spec_split_lines(s).len() ==> {
                let t = #[trigger] spec_split_lines(s)[k].1;
                t == lf() || t == crlf() || (t.len() == 0 && k == spec_split_lines(s).len() - 1)
            },
    decreases s.len(),
{
    lemma_index_of(s, '\n', 0);
    match index_of(s, '\n', 0) {
        None => {},
        Some(i) => {
            if i + 1 < s.len() {
                lemma_split_lines_terminators(s.skip((i + 1) as int));
                let rest = spec_split_lines(s.skip((i + 1) as int));
                assert forall|k: int| 1 <= k < spec_split_lines(s).len() implies spec_split_lines(
                    s,
                )[k] == rest[k - 1] by {}
            }
        },
    }
}

/// Split source into lines, preserving each line's terminator so the original
/// text, including its line-ending style, can be reconstructed exactly.
pub fn split_lines<'a>(source: &'a str) -> (lines: Vec<Line<'a>>)
    ensures
        lines_view(lines@) == spec_split_lines(source@),
{
    let chars = chars_of(source);
    let n = chars.len();
    let ghost s = source@;
    let lf_lit: &'static str = "\n";
    let crlf_lit: &'static str = "\r\n";
    let none_lit: &'static str = "";
    proof {
        reveal_strlit("\n");
        reveal_strlit("\r\n");
        reveal_strlit("");
        assert(lf_lit@ =~= lf());
        assert(crlf_lit@ =~= crlf());
    }
    let mut lines: Vec<Line<'a>> = Vec::new();
    let mut start: usize = 0;
    assert(s.skip(0) =~= s);
    assert(lines_view(lines@) =~= Seq::empty());
    assert(lines_view(lines@) + spec_split_lines(s.skip(0)) =~= spec_split_lines(s));
    loop
        invariant
            chars@ == s,
            s == source@,
            n == s.len(),
            start == 0 || start < n,
            lf_lit@ == lf(),
            crlf_lit@ == crlf(),
            none_lit@ == Seq::<char>::empty(),
            spec_split_lines(s) == lines_view(lines@) + spec_split_lines(s.skip(start as int)),
        decreases n - start,
    {
        let ghost t = s.skip(start as int);
        let mut j = start;
        while j < n && chars[j] != '\n'
            invariant
                start <= j <= n,
                chars@ == s,
                n == s.len(),
                t == s.skip(start as int),
                index_of(t, '\n', 0) == index_of(t, '\n', (j - start) as nat),
            decreases n - j,
        {
            j += 1;
        }
        if j == n {
            assert(t =~= s.subrange(start as int, n as int));
            lines.push(Line { content: source.substring_char(start, n), terminator: none_lit });
            assert(lines_view(lines@) =~= spec_split_lines(s));
            return lines;
        }
        let (end, terminator) = if j > start && chars[j - 1] == '\r' {
            (j - 1, crlf_lit)
        } else {
            (j, lf_lit)
        };
        let line = Line { content: source.substring_char(start, end), terminator };
        proof {
            let i = (j - start) as nat;
            assert(index_of(t, '\n', 0) == Some(i));
            assert(t.take(i as int) =~= s.subrange(start as int, j as int));
            assert(line@ == cut_line(t.take(i as int)));
            assert(t.skip((i + 1) as int) =~= s.skip((j + 1) as int));
        }
        lines.push(line);
        if j + 1 == n {
            assert(lines_view(lines@) =~= spec_split_lines(s));
            return lines;
        }
        assert(lines_view(lines@) =~= lines_view(lines@.drop_last()).push(line@));
        start = j + 1;
    }
}

/// How many of the lines end with the terminator `t`.
pub open spec fn count_terminators(lines: Seq<(Seq<char>, Seq<char>)>, t: Seq<char>) -> nat
    decreases lines.len(),
{
    if lines.len() == 0 {
        0
    } else {
        count_terminators(lines.drop_last(), t) + if lines.last().1 == t {
            1nat
        } else {
            0nat
        }
    }
}

/// The line ending `s` mostly uses: CRLF when more lines end in CRLF than in
/// LF, LF otherwise (so LF settles a tie, and a text without line endings is LF).
pub open spec fn spec_dominant_newline(s: Seq<char>) -> Seq<char> {
    let lines = spec_split_lines(s);
    if count_terminators(lines, crlf()) > count_terminators(lines, lf()) {
        crlf()
    } else {
        lf()
    }
}

/// The line ending the source mostly uses, with LF settling a tie.
///
/// Fixers that insert a line ending ask for this rather than looking for a
/// single `\r\n`, so one stray CRLF in an LF file cannot spread its style
/// through the rest of the document. The `line-endings` rule normalises the
/// stragglers using the same majority.
pub fn dominant_newline(source: &str) -> (nl: &'static str)
    ensures
        nl@ == spec_dominant_newline(source@),
{
    let lines = split_lines(source);
    let ghost ls = spec_split_lines(source@);
    let mut crlf_count: usize = 0;
    let mut lf_count: usize = 0;
    let mut i: usize = 0;
    proof {
        lemma_split_lines_terminators(source@);
        reveal_strlit("\n");
        reveal_strlit("\r\n");
    }
    while i < lines.len()
        invariant
            i <= lines@.len(),
            lines_view(lines@) == ls,
            ls == spec_split_lines(source@),
            crlf_count == count_terminators(ls.take(i as int), crlf()),
            lf_count == count_terminators(ls.take(i as int), lf()),
            crlf_count <= i,
            lf_count <= i,
            forall|k: int|
                0 <= k < ls.len() ==> {
                    let t = #[trigger] ls[k].1;
                    t == lf() || t == crlf() || t.len() == 0
                },
        decreases lines@.len() - i,
    {
        let len = lines[i].terminator.unicode_len();
        assert(ls.take((i + 1) as int).drop_last() =~= ls.take(i as int));
        assert(ls[i as int] == lines@[i as int]@);
        if len == 2 {
            crlf_count += 1;
        } else if len == 1 {
            lf_count += 1;
        }
        i += 1;
    }
    assert(ls.take(i as int) =~= ls);
    if crlf_count > lf_count {
        "\r\n"
    } else {
        "\n"
    }
}

} // verus!
