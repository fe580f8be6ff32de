//! A Markdown document: its source text and the outline of its parsed nodes.
use vstd::prelude::*;
use comrak::arena_tree::NodeEdge;
use crate::ast::Edge;

verus! {

/// The outline that comrak's parser gives `source`: the `traverse` walk of the
/// tree that `comrak::parse_document` builds, with the table and front-matter
/// (`---`) extensions on, each node reduced to its `xml_node_name` and source
/// position.
pub uninterp spec fn markdown_outline(source: Seq<char>) -> Seq<Edge>;

/// Parses `source` with comrak (`comrak::parse_document`, table extension and
/// `---` front matter on) and walks the tree with `traverse`: each start of a
/// node becomes an `Edge::Open` with the node's `xml_node_name` and its
/// `sourcepos` start line, start column, end line and end column, each end an
/// `Edge::Close`. The contract claims only that the result is a function of the
/// source text; nothing is stated of its shape.
#[verifier::external_body]
fn parse_outline(source: &str) -> (edges: Vec<Edge>)
    ensures
        edges@ == markdown_outline(source@),
{
    let arena = comrak::Arena::new();
    let mut options = comrak::Options::default();
    options.extension.table = true;
    options.extension.front_matter_delimiter = Some("---".to_string());
    let mut edges = Vec::new();
    for edge in comrak::parse_document(&arena, source, &options).traverse() {
        let NodeEdge::Start(node) = edge else { edges.push(Edge::Close); continue };
        let ast = node.data();
        let (start, end) = (ast.sourcepos.start, ast.sourcepos.end);
        let name = ast.value.xml_node_name();
        edges.push(Edge::Open { name, start_line: start.line, start_column: start.column, end_line: end.line, end_column: end.column });
    }
    edges
}

/// A Markdown source and its parsed outline.
pub struct Document {
    pub source: String,
    pub outline: Vec<Edge>,
}

impl Document {
    /// Parses `source`.
    pub fn new(source: &str) -> (doc: Document)
        ensures
            doc.source@ == source@,
            doc.outline@ == markdown_outline(source@),
    {
        let outline = parse_outline(source);
        Document { source: source.to_string(), outline }
    }
}

} // verus!
