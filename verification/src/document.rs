//! From markdown text to records: the parser's outline of the document, the
//! tree that it stands for, then the flattener.

use crate::extract::EncodingError;
use crate::flatten::{flatten, flattens_to, record_count};
use crate::outline::{build_tree, outline_view, tree_of};
use crate::record::MarkdownRecord;
use crate::tree::{NodeKind, NodeKindView, NodeView};
use comrak::nodes::NodeValue;
use vstd::prelude::*;

verus! {

/// The nodes of the tree that `comrak::parse_document` gives for a markdown
/// text under the default options, in document order: for each node its
/// depth, counted from 1 at the root, and its kind with what the flattener
/// reads of it.
pub uninterp spec fn document_outline(markdown: Seq<char>) -> Seq<(nat, NodeKindView)>;

/// `comrak::parse_document` with the default options, on a new arena. The
/// tree is handed over as a list: `descendants` walks the root and all
/// nodes below it in document order, and `ancestors` counts a node and the
/// nodes above it. The only claim is that the same text always gives the
/// same list.
#[verifier::external_body]
fn parse_outline(markdown: &str) -> (outline: Vec<(usize, NodeKind)>)
    ensures
        outline_view(outline@) == document_outline(markdown@),
{
    let arena = comrak::Arena::new();
    let root = comrak::parse_document(&arena, markdown, &comrak::ComrakOptions::default());
    root.descendants().map(|node| (node.ancestors().count(), match &node.data.borrow().value {
        NodeValue::Heading(heading) => NodeKind::Heading(heading.level),
        NodeValue::Paragraph => NodeKind::Paragraph,
        NodeValue::CodeBlock(block) => NodeKind::CodeBlock { info: block.info.clone(), literal: block.literal.clone() },
        NodeValue::Text(text) => NodeKind::Text(text.clone()),
        NodeValue::Code(code) => NodeKind::Code(code.literal.clone()),
        _ => NodeKind::Other,
    })).collect()
}

/// The document tree of a markdown text.
pub open spec fn document_tree(markdown: Seq<char>) -> NodeView {
    tree_of(document_outline(markdown))
}

/// Parses a markdown text and flattens the document: one record for each
/// top-level heading, paragraph and code block, in document order.
pub fn parse(markdown: &str) -> (outcome: Result<Vec<MarkdownRecord>, EncodingError>)
    ensures
        flattens_to(document_tree(markdown@).children, outcome),
        outcome matches Ok(records) ==> records.len() == record_count(
            document_tree(markdown@).children,
        ),
        outcome matches Ok(records) ==> forall|i: int|
            0 <= i < records.len() ==> (#[trigger] records[i]).position == i + 1,
{
    let outline = parse_outline(markdown);
    let root = build_tree(&outline);
    flatten(&root)
}

} // verus!
