//! A document as a list: its nodes in document order, each with its depth
//! in the tree. The tree is built back from the list.

use crate::tree::{clone_kind, lemma_children_view, node_views, DocNode, NodeKind, NodeKindView, NodeView};
use vstd::prelude::*;

verus! {

/// An outline as a mathematical value: for each node its depth and its kind.
pub open spec fn outline_view(outline: Seq<(usize, NodeKind)>) -> Seq<(nat, NodeKindView)> {
    Seq::new(outline.len(), |i: int| (outline[i].0 as nat, outline[i].1@))
}

/// A node without children and of no particular kind.
pub open spec fn lone_node() -> NodeView {
    NodeView { kind: NodeKindView::Other, children: Seq::empty() }
}

/// The node at index `at` with its subtree: its children are the nodes one
/// level deeper among those that follow it, up to the first that is not
/// deeper than the node itself.
pub open spec fn subtree_at(outline: Seq<(nat, NodeKindView)>, at: int) -> NodeView
    decreases outline.len() - at, 0nat,
{
    if 0 <= at < outline.len() {
        NodeView { kind: outline[at].1, children: children_in(outline, outline[at].0 + 1, at + 1) }
    } else {
        lone_node()
    }
}

/// The subtrees of the nodes of depth `depth` from index `from` on, up to
/// the first node that is less deep. Deeper nodes on the way belong to one
/// of those subtrees, or to none where a level was skipped.
pub open spec fn children_in(outline: Seq<(nat, NodeKindView)>, depth: nat, from: int) -> Seq<
    NodeView,
>
    decreases outline.len() - from, 1nat,
{
    if 0 <= from < outline.len() && outline[from].0 >= depth {
        if outline[from].0 == depth {
            seq![subtree_at(outline, from)] + children_in(outline, depth, from + 1)
        } else {
            children_in(outline, depth, from + 1)
        }
    } else {
        Seq::empty()
    }
}

/// The tree that an outline stands for: the subtree of its first node. An
/// empty outline stands for a lone node of no particular kind.
pub open spec fn tree_of(outline: Seq<(nat, NodeKindView)>) -> NodeView {
    subtree_at(outline, 0)
}

/// The outline of a tree whose root stands at the given depth: the root,
/// then the outlines of the subtrees of its children, one level deeper, in
/// order.
pub open spec fn outline_of(node: NodeView, depth: nat) -> Seq<(nat, NodeKindView)>
    decreases node, node.children.len() + 1,
{
    seq![(depth, node.kind)] + children_outline(node, 0, depth + 1)
}

/// The outlines of the subtrees of the children of a node from the `k`-th
/// on, each at the given depth.
pub open spec fn children_outline(node: NodeView, k: nat, depth: nat) -> Seq<(nat, NodeKindView)>
    decreases node, node.children.len() - k,
{
    if k < node.children.len() {
        outline_of(node.children[k as int], depth) + children_outline(node, k + 1, depth)
    } else {
        Seq::empty()
    }
}

/// Every node in the outline of a tree is at least as deep as the root.
proof fn lemma_outline_depths(node: NodeView, depth: nat, i: int)
    requires
        0 <= i < outline_of(node, depth).len(),
    ensures
        outline_of(node, depth)[i].0 >= depth,
        i > 0 ==> outline_of(node, depth)[i].0 > depth,
    decreases node, node.children.len() + 1,
{
    if i > 0 {
        lemma_children_outline_depths(node, 0, depth + 1, i - 1);
    }
}

/// Every node in the outlines of the children's subtrees is at least as
/// deep as the children.
proof fn lemma_children_outline_depths(node: NodeView, k: nat, depth: nat, i: int)
    requires
        0 <= i < children_outline(node, k, depth).len(),
    ensures
        children_outline(node, k, depth)[i].0 >= depth,
    decreases node, node.children.len() - k,
{
    let first = outline_of(node.children[k as int], depth);
    if i < first.len() {
        lemma_outline_depths(node.children[k as int], depth, i);
    } else {
        lemma_children_outline_depths(node, k + 1, depth, i - first.len());
    }
}

/// Nodes deeper than `depth` are passed over when the children of that
/// depth are collected.
proof fn lemma_deeper_passed_over(
    outline: Seq<(nat, NodeKindView)>,
    depth: nat,
    from: int,
    to: int,
)
    requires
        0 <= from <= to <= outline.len(),
        forall|i: int| from <= i < to ==> (#[trigger] outline[i]).0 > depth,
    ensures
        children_in(outline, depth, from) == children_in(outline, depth, to),
    decreases to - from,
{
    if from < to {
        lemma_deeper_passed_over(outline, depth, from + 1, to);
    }
}

/// Within a longer outline, the outline of a tree gives the tree back,
/// where what follows it is not deeper than its root.
proof fn lemma_subtree_of_outline(
    node: NodeView,
    depth: nat,
    before: Seq<(nat, NodeKindView)>,
    after: Seq<(nat, NodeKindView)>,
)
    requires
        after.len() == 0 || after[0].0 <= depth,
    ensures
        subtree_at(before + outline_of(node, depth) + after, before.len() as int) == node,
    decreases node, node.children.len() + 1,
{
    let outline = before + outline_of(node, depth) + after;
    let head = before + seq![(depth, node.kind)];
    assert(outline =~= head + children_outline(node, 0, depth + 1) + after);
    lemma_children_of_outline(node, 0, depth + 1, head, after);
    assert(node.children.skip(0) =~= node.children);
}

/// Within a longer outline, the outlines of the children's subtrees give
/// the children back, where what follows them is less deep than they.
proof fn lemma_children_of_outline(
    node: NodeView,
    k: nat,
    depth: nat,
    before: Seq<(nat, NodeKindView)>,
    after: Seq<(nat, NodeKindView)>,
)
    requires
        k <= node.children.len(),
        after.len() == 0 || after[0].0 < depth,
    ensures
        children_in(
            before + children_outline(node, k, depth) + after,
            depth,
            before.len() as int,
        ) == node.children.skip(k as int),
    decreases node, node.children.len() - k,
{
    let outline = before + children_outline(node, k, depth) + after;
    if k < node.children.len() {
        let child = node.children[k as int];
        let first = outline_of(child, depth);
        let rest = children_outline(node, k + 1, depth);
        let start = before.len() as int;
        assert(outline =~= before + first + (rest + after));
        assert(outline =~= (before + first) + rest + after);
        if rest.len() > 0 {
            assert(rest[0] == outline_of(node.children[k as int + 1], depth)[0]);
        }
        lemma_subtree_of_outline(child, depth, before, rest + after);
        assert forall|i: int| start + 1 <= i < start + first.len() implies (#[trigger] outline[i]).0
            > depth by {
            lemma_outline_depths(child, depth, i - start);
        }
        lemma_deeper_passed_over(outline, depth, start + 1, start + first.len());
        lemma_children_of_outline(node, k + 1, depth, before + first, after);
    }
}

/// Building the tree back from the outline of a tree gives the tree.
pub proof fn lemma_tree_of_outline(tree: NodeView, depth: nat)
    ensures
        tree_of(outline_of(tree, depth)) == tree,
{
    lemma_subtree_of_outline(tree, depth, Seq::empty(), Seq::empty());
    assert(Seq::<(nat, NodeKindView)>::empty() + outline_of(tree, depth) + Seq::empty()
        =~= outline_of(tree, depth));
}

/// Builds the node at index `at` with its subtree. Past the end of the
/// outline there is a lone node.
pub fn build_subtree(outline: &Vec<(usize, NodeKind)>, at: usize) -> (node: DocNode)
    ensures
        node@ == subtree_at(outline_view(outline@), at as int),
    decreases outline.len() - at,
{
    if at >= outline.len() {
        let node = DocNode { kind: NodeKind::Other, children: Vec::new() };
        proof {
            lemma_children_view(node);
            assert(node@.children == Seq::<NodeView>::empty());
        }
        return node;
    }
    let depth = outline[at].0;
    let ghost entries = outline_view(outline@);
    let mut children: Vec<DocNode> = Vec::new();
    let mut next: usize = at + 1;
    while next < outline.len() && outline[next].0 > depth
        invariant
            at < next <= outline.len(),
            depth == outline[at as int].0,
            entries == outline_view(outline@),
            node_views(children@) + children_in(entries, (depth + 1) as nat, next as int)
                == children_in(entries, (depth + 1) as nat, at + 1),
        decreases outline.len() - next,
    {
        if outline[next].0 - 1 == depth {
            let child = build_subtree(outline, next);
            children.push(child);
        }
        next += 1;
    }
    let node = DocNode { kind: clone_kind(&outline[at].1), children };
    proof {
        lemma_children_view(node);
    }
    node
}

/// Builds the tree that an outline stands for.
pub fn build_tree(outline: &Vec<(usize, NodeKind)>) -> (root: DocNode)
    ensures
        root@ == tree_of(outline_view(outline@)),
{
    build_subtree(outline, 0)
}

} // verus!
