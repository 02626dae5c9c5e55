//! What holds of every flattened document: how positions, hierarchies and
//! anchors of the records relate to the nodes and to each other.

use crate::anchor::{lemma_unique_anchor_is_new, slug};
use crate::document::document_tree;
use crate::extract::{heading_content, EncodingError};
use crate::flatten::{
    flattens_to, gives_record, heading_anchor, kept_open, record_count, record_of, records_of,
    state_after,
};
use crate::record::{views, MarkdownRecord, RecordView};
use crate::tree::{
    children_fragments, direct_fragments, own_fragments, subtree_fragments, NodeKindView, NodeView,
};
use vstd::prelude::*;

verus! {

/// The texts of the headings that are open after the nodes, outermost
/// first: each heading closes the open headings from its own level on and
/// is then open itself.
pub open spec fn open_headings(nodes: Seq<NodeView>) -> Seq<Seq<char>>
    decreases nodes.len(),
{
    if nodes.len() == 0 {
        Seq::empty()
    } else {
        match nodes.last().kind {
            NodeKindView::Heading(level) => kept_open(open_headings(nodes.drop_last()), level).push(
                heading_content(nodes.last()),
            ),
            _ => open_headings(nodes.drop_last()),
        }
    }
}

/// The index of the last heading record at or before index `i`, or -1 where
/// there is none.
pub open spec fn last_heading(records: Seq<RecordView>, i: int) -> int
    decreases i + 1,
{
    if i < 0 || i >= records.len() {
        -1
    } else if records[i].kind is Heading {
        i
    } else {
        last_heading(records, i - 1)
    }
}

/// The state counts the records, keeps the open headings, and has given out
/// finitely many anchors.
pub proof fn lemma_state_after(nodes: Seq<NodeView>)
    ensures
        state_after(nodes).position == record_count(nodes),
        state_after(nodes).stack == open_headings(nodes),
        state_after(nodes).issued.finite(),
        records_of(nodes).len() == record_count(nodes),
        record_count(nodes) <= nodes.len(),
    decreases nodes.len(),
{
    if nodes.len() > 0 {
        lemma_state_after(nodes.drop_last());
    }
}

/// Position contiguity: the records' positions are 1, 2, ..., N in order,
/// where N is the number of top-level headings, paragraphs and code blocks.
pub proof fn lemma_positions_contiguous(nodes: Seq<NodeView>)
    ensures
        records_of(nodes).len() == record_count(nodes),
        forall|i: int|
            0 <= i < records_of(nodes).len() ==> (#[trigger] records_of(nodes)[i]).position == i
                + 1,
    decreases nodes.len(),
{
    lemma_state_after(nodes);
    if nodes.len() > 0 {
        lemma_positions_contiguous(nodes.drop_last());
        lemma_state_after(nodes.drop_last());
    }
}

/// The records of a prefix of the nodes are a prefix of the records of all
/// of them.
pub proof fn lemma_records_grow(nodes: Seq<NodeView>, k: int)
    requires
        0 <= k <= nodes.len(),
    ensures
        records_of(nodes.take(k)).is_prefix_of(records_of(nodes)),
    decreases nodes.len(),
{
    if k < nodes.len() {
        lemma_records_grow(nodes.drop_last(), k);
        assert(nodes.drop_last().take(k) == nodes.take(k));
    } else {
        assert(nodes.take(k) == nodes);
    }
}

/// The record of the `k`-th node stands at the index that counts the
/// records of the nodes before it, and is the record that the node gives in
/// the state after those nodes.
pub proof fn lemma_record_of_node(nodes: Seq<NodeView>, k: int)
    requires
        0 <= k < nodes.len(),
        gives_record(nodes[k]),
    ensures
        record_count(nodes.take(k)) < records_of(nodes).len(),
        Some(records_of(nodes)[record_count(nodes.take(k)) as int]) == record_of(
            state_after(nodes.take(k)),
            nodes[k],
        ),
{
    let upto = nodes.take(k + 1);
    assert(upto.drop_last() == nodes.take(k));
    lemma_state_after(nodes.take(k));
    lemma_records_grow(nodes, k + 1);
    assert(records_of(nodes)[record_count(nodes.take(k)) as int] == records_of(
        upto,
    )[record_count(nodes.take(k)) as int]);
}

/// Hierarchy: the record of a paragraph or code block carries the headings
/// that are open after the nodes before it. The record of a heading carries
/// those of them that stay open under its level, which are fewer than its
/// level; its own text is not among them and is opened after them.
pub proof fn lemma_hierarchy(nodes: Seq<NodeView>, k: int)
    requires
        0 <= k < nodes.len(),
        gives_record(nodes[k]),
    ensures
        ({
            let record = records_of(nodes)[record_count(nodes.take(k)) as int];
            match nodes[k].kind {
                NodeKindView::Heading(level) => {
                    &&& record.hierarchy == kept_open(open_headings(nodes.take(k)), level)
                    &&& open_headings(nodes.take(k + 1)) == record.hierarchy.push(record.content)
                    &&& level >= 1 ==> record.hierarchy.len() < level
                },
                _ => record.hierarchy == open_headings(nodes.take(k)),
            }
        }),
{
    lemma_record_of_node(nodes, k);
    lemma_state_after(nodes.take(k));
    assert(nodes.take(k + 1).drop_last() == nodes.take(k));
}

/// The state's anchor is the anchor of the last heading record, every
/// heading record has an anchor that has been given out, and every other
/// record has the anchor of the last heading record before it.
proof fn lemma_anchors(nodes: Seq<NodeView>)
    ensures
        ({
            let records = records_of(nodes);
            let state = state_after(nodes);
            let j = last_heading(records, records.len() - 1);
            &&& state.issued.finite()
            &&& j < 0 ==> state.anchor is None
            &&& j >= 0 ==> state.anchor == records[j].anchor
            &&& forall|i: int|
                0 <= i < records.len() && (#[trigger] records[i]).kind is Heading ==> records[i].anchor is Some
                    && state.issued.contains(records[i].anchor->0)
            &&& forall|i: int|
                0 <= i < records.len() ==> {
                    let h = #[trigger] last_heading(records, i);
                    &&& h < 0 ==> records[i].anchor is None
                    &&& h >= 0 ==> records[i].anchor == records[h].anchor
                }
        }),
    decreases nodes.len(),
{
    let records = records_of(nodes);
    if nodes.len() > 0 {
        let before = nodes.drop_last();
        let earlier = records_of(before);
        let n = earlier.len() as int;
        lemma_anchors(before);
        assert forall|i: int| 0 <= i < n implies #[trigger] last_heading(records, i)
            == last_heading(earlier, i) by {
            lemma_last_heading_of_prefix(earlier, records, i);
        }
        lemma_last_heading_of_prefix(earlier, records, n - 1);
        lemma_last_heading_is_last(earlier, n - 1);
        assert forall|i: int| 0 <= i < records.len() implies {
            let h = #[trigger] last_heading(records, i);
            &&& h < 0 ==> records[i].anchor is None
            &&& h >= 0 ==> records[i].anchor == records[h].anchor
        } by {
            if i < n {
                lemma_last_heading_is_last(earlier, i);
            }
        }
    }
}

/// The last heading at or before an index is found in the prefix that holds
/// the index.
proof fn lemma_last_heading_of_prefix(part: Seq<RecordView>, all: Seq<RecordView>, i: int)
    requires
        part.is_prefix_of(all),
        i < part.len(),
    ensures
        last_heading(all, i) == last_heading(part, i),
    decreases i + 1,
{
    if i >= 0 && !(part[i].kind is Heading) {
        lemma_last_heading_of_prefix(part, all, i - 1);
    }
}

/// Anchor monotonicity: a record carries the anchor of the last heading
/// record at or before it, and none where no heading record stands there. A
/// heading record always carries an anchor.
pub proof fn lemma_anchor_follows_heading(nodes: Seq<NodeView>, i: int)
    requires
        0 <= i < records_of(nodes).len(),
    ensures
        ({
            let records = records_of(nodes);
            let h = last_heading(records, i);
            &&& h <= i
            &&& h < 0 ==> records[i].anchor is None
            &&& h >= 0 ==> records[h].kind is Heading && records[h].anchor is Some
                && records[i].anchor == records[h].anchor
            &&& forall|j: int| h < j <= i ==> !((#[trigger] records[j]).kind is Heading)
        }),
{
    lemma_anchors(nodes);
    lemma_last_heading_is_last(records_of(nodes), i);
}

/// `last_heading` gives a heading record, with no heading record after it up
/// to the index.
proof fn lemma_last_heading_is_last(records: Seq<RecordView>, i: int)
    requires
        -1 <= i < records.len(),
    ensures
        -1 <= last_heading(records, i) <= i,
        last_heading(records, i) >= 0 ==> records[last_heading(records, i)].kind is Heading,
        forall|j: int|
            last_heading(records, i) < j <= i ==> !((#[trigger] records[j]).kind is Heading),
    decreases i + 1,
{
    if i >= 0 && !(records[i].kind is Heading) {
        lemma_last_heading_is_last(records, i - 1);
    }
}

/// Slug uniqueness: two heading records of one document never carry the
/// same anchor, whatever their texts.
pub proof fn lemma_heading_anchors_distinct(nodes: Seq<NodeView>, i: int, j: int)
    requires
        0 <= i < j < records_of(nodes).len(),
        records_of(nodes)[i].kind is Heading,
        records_of(nodes)[j].kind is Heading,
    ensures
        records_of(nodes)[i].anchor is Some,
        records_of(nodes)[j].anchor is Some,
        records_of(nodes)[i].anchor != records_of(nodes)[j].anchor,
    decreases nodes.len(),
{
    let before = nodes.drop_last();
    lemma_anchors(nodes);
    if j < records_of(before).len() {
        lemma_heading_anchors_distinct(before, i, j);
    } else {
        lemma_anchors(before);
        let state = state_after(before);
        lemma_unique_anchor_is_new(slug(heading_content(nodes.last())), state.issued);
    }
}

/// Determinism: two outcomes of flattening the same nodes agree. Both fail,
/// or both succeed with records that are equal field by field.
pub proof fn lemma_flatten_deterministic(
    nodes: Seq<NodeView>,
    first: Result<Vec<MarkdownRecord>, EncodingError>,
    second: Result<Vec<MarkdownRecord>, EncodingError>,
)
    requires
        flattens_to(nodes, first),
        flattens_to(nodes, second),
    ensures
        first is Ok <==> second is Ok,
        first is Ok ==> views(first->Ok_0@) == views(second->Ok_0@),
        first is Err ==> first->Err_0 == second->Err_0,
{
}

/// Determinism: two outcomes of parsing and flattening the same markdown
/// text agree.
pub proof fn lemma_parse_deterministic(
    markdown: Seq<char>,
    first: Result<Vec<MarkdownRecord>, EncodingError>,
    second: Result<Vec<MarkdownRecord>, EncodingError>,
)
    requires
        flattens_to(document_tree(markdown).children, first),
        flattens_to(document_tree(markdown).children, second),
    ensures
        first is Ok <==> second is Ok,
        first is Ok ==> views(first->Ok_0@) == views(second->Ok_0@),
        first is Err ==> first->Err_0 == second->Err_0,
{
}

/// Heading extraction is not recursive: the content of a heading depends on
/// the kinds of its direct children alone, not on what stands below them.
pub proof fn lemma_heading_ignores_grandchildren(a: NodeView, b: NodeView)
    requires
        a.children.len() == b.children.len(),
        forall|i: int| 0 <= i < a.children.len() ==> a.children[i].kind == b.children[i].kind,
    ensures
        direct_fragments(a.children) == direct_fragments(b.children),
        heading_content(a) == heading_content(b),
{
    lemma_direct_fragments_by_kind(a.children, b.children);
}

/// The direct fragments of two node sequences with the same kinds are the
/// same.
proof fn lemma_direct_fragments_by_kind(a: Seq<NodeView>, b: Seq<NodeView>)
    requires
        a.len() == b.len(),
        forall|i: int| 0 <= i < a.len() ==> a[i].kind == b[i].kind,
    ensures
        direct_fragments(a) == direct_fragments(b),
    decreases a.len(),
{
    if a.len() > 0 {
        lemma_direct_fragments_by_kind(a.drop_last(), b.drop_last());
    }
}

/// The path leads from the node to one of its descendants: each step is the
/// index of a child.
pub open spec fn is_path(node: NodeView, path: Seq<int>) -> bool
    decreases path.len(),
{
    path.len() == 0 || (0 <= path[0] < node.children.len() && is_path(
        node.children[path[0]],
        path.drop_first(),
    ))
}

/// The descendant that the path leads to.
pub open spec fn descendant(node: NodeView, path: Seq<int>) -> NodeView
    decreases path.len(),
{
    if path.len() == 0 {
        node
    } else {
        descendant(node.children[path[0]], path.drop_first())
    }
}

/// What the subtree of the `i`-th child contributes is among what the
/// subtrees of the first `n` children contribute, for `i < n`.
proof fn lemma_child_within(node: NodeView, i: int, n: nat, fragment: Seq<u8>)
    requires
        0 <= i < n <= node.children.len(),
        subtree_fragments(node.children[i]).contains(fragment),
    ensures
        children_fragments(node, n).contains(fragment),
    decreases n,
{
    let child = subtree_fragments(node.children[n - 1]);
    let earlier = children_fragments(node, (n - 1) as nat);
    if i == n - 1 {
        let at = choose|at: int| 0 <= at < child.len() && child[at] == fragment;
        assert((earlier + child)[earlier.len() + at] == fragment);
    } else {
        lemma_child_within(node, i, (n - 1) as nat, fragment);
        let at = choose|at: int| 0 <= at < earlier.len() && earlier[at] == fragment;
        assert((earlier + child)[at] == fragment);
    }
}

/// Paragraph extraction is recursive: what a text or inline code node at
/// any depth below a node contributes is among what the node's subtree
/// contributes.
pub proof fn lemma_subtree_reaches_descendants(node: NodeView, path: Seq<int>, fragment: Seq<u8>)
    requires
        is_path(node, path),
        own_fragments(descendant(node, path)).contains(fragment),
    ensures
        subtree_fragments(node).contains(fragment),
    decreases path.len(),
{
    let own = own_fragments(node);
    let below = children_fragments(node, node.children.len());
    if path.len() == 0 {
        let at = choose|at: int| 0 <= at < own.len() && own[at] == fragment;
        assert((own + below)[at] == fragment);
    } else {
        lemma_subtree_reaches_descendants(node.children[path[0]], path.drop_first(), fragment);
        lemma_child_within(node, path[0], node.children.len(), fragment);
        let at = choose|at: int| 0 <= at < below.len() && below[at] == fragment;
        assert((own + below)[own.len() + at] == fragment);
    }
}

} // verus!
