//! The internal representation of a parsed document: the outline of its
//! nodes, as a depth-first walk, and the kinds of block the rules care about.
use vstd::prelude::*;
use crate::chars::chars_of;

verus! {

/// The kinds of node the rules tell apart. Every other node, block or inline,
/// is `Other`.
#[derive(Clone, Copy, Debug, PartialEq, Eq, Structural)]
pub enum NodeKind {
    Document,
    FrontMatter,
    BlockQuote,
    Item,
    Paragraph,
    Heading,
    Other,
}

/// One step of a depth-first walk over a parsed document. `Open` starts a node,
/// named by its parser, with the 1-based line and column where it begins and
/// the line and column where it ends; `Close` ends the node opened most
/// recently.
#[derive(Clone, Copy, Debug)]
pub enum Edge {
    Open {
        name: &'static str,
        start_line: usize,
        start_column: usize,
        end_line: usize,
        end_column: usize,
    },
    Close,
}

/// Whether two strings hold the same characters.
pub fn same_text(a: &str, b: &str) -> (r: bool)
    ensures
        r == (a@ == b@),
{
    let x = chars_of(a);
    let y = chars_of(b);
    if x.len() != y.len() {
        return false;
    }
    let mut i: usize = 0;
    while i < x.len()
        invariant
            i <= x@.len(),
            x@.len() == y@.len(),
            x@ == a@,
            y@ == b@,
            forall|k: int| 0 <= k < i ==> x@[k] == y@[k],
        decreases x@.len() - i,
    {
        if x[i] != y[i] {
            return false;
        }
        i += 1;
    }
    assert(x@ =~= y@);
    true
}

/// The kind of a node, from the name its parser gives it.
pub open spec fn kind_of(name: Seq<char>) -> NodeKind {
    if name == "document"@ {
        NodeKind::Document
    } else if name == "frontmatter"@ {
        NodeKind::FrontMatter
    } else if name == "block_quote"@ {
        NodeKind::BlockQuote
    } else if name == "item"@ {
        NodeKind::Item
    } else if name == "paragraph"@ {
        NodeKind::Paragraph
    } else if name == "heading"@ {
        NodeKind::Heading
    } else {
        NodeKind::Other
    }
}

/// The kind of a node, from the name its parser gives it.
pub fn kind_from_name(name: &str) -> (k: NodeKind)
    ensures
        k == kind_of(name@),
{
    if same_text(name, "document") {
        NodeKind::Document
    } else if same_text(name, "frontmatter") {
        NodeKind::FrontMatter
    } else if same_text(name, "block_quote") {
        NodeKind::BlockQuote
    } else if same_text(name, "item") {
        NodeKind::Item
    } else if same_text(name, "paragraph") {
        NodeKind::Paragraph
    } else if same_text(name, "heading") {
        NodeKind::Heading
    } else {
        NodeKind::Other
    }
}

/// The kinds of the nodes that are open after walking `edges`, outermost
/// first. A `Close` with nothing open is ignored.
pub open spec fn open_kinds(edges: Seq<Edge>) -> Seq<NodeKind>
    decreases edges.len(),
{
    if edges.len() == 0 {
        Seq::empty()
    } else {
        let before = open_kinds(edges.drop_last());
        match edges.last() {
            Edge::Open { name, .. } => before.push(kind_of(name@)),
            Edge::Close => if before.len() > 0 {
                before.drop_last()
            } else {
                before
            },
        }
    }
}

} // verus!
