//! The headings of a document with their levels, as the heading rules see them.
use vstd::prelude::*;
use crate::ast::{Edge, NodeKind, kind_from_name, kind_of};
use crate::chars::{advance, trim, trim_range};
use crate::chars::chars_of;
use crate::rules::heading_style::{is_all_of, underline_level};
use crate::text::{lines_view, spec_split_lines, split_lines};

verus! {

/// A `#`.
pub open spec fn hash_pred() -> spec_fn(char) -> bool {
    |c: char| c == '#'
}

/// The level of a heading that starts at `start_column` of line `start_line`
/// and ends on line `end_line`, read from the source lines: the run of `#` at
/// its start for a one-line heading, the underline (from the heading's column
/// on) for a setext heading; 0 where neither gives a level.
pub open spec fn heading_level(
    contents: Seq<Seq<char>>,
    start_line: int,
    start_column: int,
    end_line: int,
) -> nat {
    let a = start_column - 1;
    if start_line < end_line {
        let u = contents[end_line - 1];
        if a <= u.len() {
            underline_level(u.subrange(a, u.len() as int))
        } else {
            0
        }
    } else {
        let c = contents[start_line - 1];
        if a <= c.len() {
            (advance(c, a, hash_pred()) - a) as nat
        } else {
            0
        }
    }
}

/// The headings of an outline whose level the source gives, in document
/// order, as their first line, column and level.
pub open spec fn headings_of(contents: Seq<Seq<char>>, edges: Seq<Edge>) -> Seq<(usize, usize, nat)>
    decreases edges.len(),
{
    if edges.len() == 0 {
        Seq::empty()
    } else {
        let before = headings_of(contents, edges.drop_last());
        match edges.last() {
            Edge::Open { name, start_line, start_column, end_line, .. } => {
                if kind_of(name@) == NodeKind::Heading && 1 <= start_line && start_line <= end_line
                    && end_line <= contents.len() && 1 <= start_column && heading_level(
                    contents,
                    start_line as int,
                    start_column as int,
                    end_line as int,
                ) > 0 {
                    before.push(
                        (
                            start_line,
                            start_column,
                            heading_level(
                                contents,
                                start_line as int,
                                start_column as int,
                                end_line as int,
                            ),
                        ),
                    )
                } else {
                    before
                }
            },
            Edge::Close => before,
        }
    }
}

/// The contents of the lines of `s`, without their terminators.
pub open spec fn contents_of(s: Seq<char>) -> Seq<Seq<char>> {
    spec_split_lines(s).map_values(|l: (Seq<char>, Seq<char>)| l.0)
}

/// The contents of the lines of `source`, each as its characters.
pub fn line_contents(source: &str) -> (cs: Vec<Vec<char>>)
    ensures
        cs@.map_values(|v: Vec<char>| v@) == contents_of(source@),
{
    let lines = split_lines(source);
    let ghost lv = lines_view(lines@);
    let mut cs: Vec<Vec<char>> = Vec::new();
    let mut i: usize = 0;
    while i < lines.len()
        invariant
            i <= lines@.len(),
            lv == lines_view(lines@),
            lv == spec_split_lines(source@),
            cs@.len() == i,
            forall|k: int| 0 <= k < i ==> (#[trigger] cs@[k])@ == lv[k].0,
        decreases lines@.len() - i,
    {
        cs.push(chars_of(lines[i].content));
        i += 1;
    }
    assert(cs@.map_values(|v: Vec<char>| v@) =~= contents_of(source@));
    cs
}

/// The views of headings found by `collect_headings`.
pub open spec fn headings_view(hs: Seq<(usize, usize, usize)>) -> Seq<(usize, usize, nat)> {
    hs.map_values(|h: (usize, usize, usize)| (h.0, h.1, h.2 as nat))
}

fn level_at(contents: &Vec<Vec<char>>, start_line: usize, start_column: usize, end_line: usize) -> (level: usize)
    requires
        1 <= start_line <= end_line <= contents@.len(),
        1 <= start_column,
    ensures
        level == heading_level(
            contents@.map_values(|v: Vec<char>| v@),
            start_line as int,
            start_column as int,
            end_line as int,
        ),
{
    let ghost cs = contents@.map_values(|v: Vec<char>| v@);
    let a = start_column - 1;
    if start_line < end_line {
        let u = &contents[end_line - 1];
        assert(cs[end_line - 1] == u@);
        if a <= u.len() {
            let (x, y) = trim_range(u, a, u.len());
            if is_all_of(u, x, y, '=') {
                1
            } else if is_all_of(u, x, y, '-') {
                2
            } else {
                0
            }
        } else {
            0
        }
    } else {
        let c = &contents[start_line - 1];
        assert(cs[start_line - 1] == c@);
        if a <= c.len() {
            let mut j = a;
            while j < c.len() && c[j] == '#'
                invariant
                    a <= j <= c@.len(),
                    advance(c@, j as int, hash_pred()) == advance(c@, a as int, hash_pred()),
                decreases c@.len() - j,
            {
                j += 1;
            }
            j - a
        } else {
            0
        }
    }
}

/// The headings of an outline with their levels, as `headings_of` gives them.
pub fn collect_headings(contents: &Vec<Vec<char>>, outline: &Vec<Edge>) -> (hs: Vec<
    (usize, usize, usize),
>)
    ensures
        headings_view(hs@) == headings_of(contents@.map_values(|v: Vec<char>| v@), outline@),
{
    let ghost cs = contents@.map_values(|v: Vec<char>| v@);
    let mut hs: Vec<(usize, usize, usize)> = Vec::new();
    let mut i: usize = 0;
    while i < outline.len()
        invariant
            i <= outline@.len(),
            cs == contents@.map_values(|v: Vec<char>| v@),
            headings_view(hs@) == headings_of(cs, outline@.take(i as int)),
        decreases outline@.len() - i,
    {
        let ghost prefix = outline@.take(i + 1);
        assert(prefix.drop_last() =~= outline@.take(i as int));
        assert(prefix.last() == outline@[i as int]);
        match outline[i] {
            Edge::Open { name, start_line, start_column, end_line, .. } => {
                if kind_from_name(name) == NodeKind::Heading && 1 <= start_line && start_line
                    <= end_line && end_line <= contents.len() && 1 <= start_column {
                    let level = level_at(contents, start_line, start_column, end_line);
                    if level > 0 {
                        let ghost before = headings_view(hs@);
                        hs.push((start_line, start_column, level));
                        assert(headings_view(hs@) =~= before.push(
                            (start_line, start_column, level as nat),
                        ));
                    }
                }
            },
            Edge::Close => {},
        }
        i += 1;
    }
    assert(outline@.take(i as int) =~= outline@);
    hs
}

} // verus!
