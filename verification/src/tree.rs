//! The document tree that the flattener reads, and the text fragments that
//! it takes from a subtree.

use vstd::prelude::*;

verus! {

/// What a node of the document tree is.
#[derive(Debug, PartialEq, Eq)]
pub enum NodeKind {
    /// A heading with its level.
    Heading(u32),
    /// A paragraph.
    Paragraph,
    /// A fenced or indented code block: the language tag of the fence and
    /// the code itself.
    CodeBlock { info: Vec<u8>, literal: Vec<u8> },
    /// A run of text.
    Text(Vec<u8>),
    /// An inline code span.
    Code(Vec<u8>),
    /// Any other block or inline: a list, a table, emphasis, a link, ...
    Other,
}

/// A node of the document tree with its children in document order.
#[derive(Debug, PartialEq, Eq)]
pub struct DocNode {
    pub kind: NodeKind,
    pub children: Vec<DocNode>,
}

/// A node kind as a mathematical value.
pub enum NodeKindView {
    Heading(u32),
    Paragraph,
    CodeBlock { info: Seq<u8>, literal: Seq<u8> },
    Text(Seq<u8>),
    Code(Seq<u8>),
    Other,
}

/// A node with its subtree as a mathematical value.
pub struct NodeView {
    pub kind: NodeKindView,
    pub children: Seq<NodeView>,
}

impl View for NodeKind {
    type V = NodeKindView;

    open spec fn view(&self) -> NodeKindView {
        match self {
            NodeKind::Heading(level) => NodeKindView::Heading(*level),
            NodeKind::Paragraph => NodeKindView::Paragraph,
            NodeKind::CodeBlock { info, literal } => NodeKindView::CodeBlock {
                info: info@,
                literal: literal@,
            },
            NodeKind::Text(text) => NodeKindView::Text(text@),
            NodeKind::Code(literal) => NodeKindView::Code(literal@),
            NodeKind::Other => NodeKindView::Other,
        }
    }
}

/// A node with its subtree as a mathematical value: its kind, and its
/// children in order, each with its subtree.
pub open spec fn node_view(node: DocNode) -> NodeView
    decreases node,
{
    NodeView {
        kind: node.kind@,
        children: Seq::new(
            node.children.len() as nat,
            |i: int|
                if 0 <= i < node.children.len() {
                    node_view(node.children[i])
                } else {
                    arbitrary()
                },
        ),
    }
}

impl View for DocNode {
    type V = NodeView;

    open spec fn view(&self) -> NodeView {
        node_view(*self)
    }
}

/// The views of the nodes of a sequence.
pub open spec fn node_views(nodes: Seq<DocNode>) -> Seq<NodeView> {
    Seq::new(nodes.len(), |i: int| nodes[i]@)
}

/// The children of a node's view are the views of its children.
pub proof fn lemma_children_view(node: DocNode)
    ensures
        node@.children == node_views(node.children@),
{
    assert(node@.children =~= node_views(node.children@));
}

/// A copy of a node kind.
pub fn clone_kind(kind: &NodeKind) -> (copy: NodeKind)
    ensures
        copy@ == kind@,
{
    match kind {
        NodeKind::Heading(level) => NodeKind::Heading(*level),
        NodeKind::Paragraph => NodeKind::Paragraph,
        NodeKind::CodeBlock { info, literal } => NodeKind::CodeBlock {
            info: info.clone(),
            literal: literal.clone(),
        },
        NodeKind::Text(text) => NodeKind::Text(text.clone()),
        NodeKind::Code(literal) => NodeKind::Code(literal.clone()),
        NodeKind::Other => NodeKind::Other,
    }
}

/// The bytes that a node contributes by itself: the text of a `Text` node,
/// the literal of an inline `Code` node, nothing for any other node.
pub open spec fn own_fragments(node: NodeView) -> Seq<Seq<u8>> {
    match node.kind {
        NodeKindView::Text(text) => seq![text],
        NodeKindView::Code(literal) => seq![literal],
        _ => Seq::empty(),
    }
}

/// What the nodes of a sequence contribute by themselves, in order. Their
/// children are not looked at.
pub open spec fn direct_fragments(nodes: Seq<NodeView>) -> Seq<Seq<u8>>
    decreases nodes.len(),
{
    if nodes.len() == 0 {
        Seq::empty()
    } else {
        direct_fragments(nodes.drop_last()) + own_fragments(nodes.last())
    }
}

/// What a node and all its descendants contribute, in depth-first
/// pre-order: the node first, then the subtrees of its children in order.
pub open spec fn subtree_fragments(node: NodeView) -> Seq<Seq<u8>>
    decreases node, node.children.len() + 1,
{
    own_fragments(node) + children_fragments(node, node.children.len())
}

/// What the subtrees of the first `n` children of a node contribute.
pub open spec fn children_fragments(node: NodeView, n: nat) -> Seq<Seq<u8>>
    decreases node, n,
{
    if 0 < n <= node.children.len() {
        children_fragments(node, (n - 1) as nat) + subtree_fragments(node.children[n - 1])
    } else {
        Seq::empty()
    }
}

} // verus!
