//! The flattener: one pass over the top-level nodes of a document that keeps
//! the open headings, the current anchor and the position, and gives one
//! record for each heading, paragraph and code block.

use crate::anchor::{slug, unique_anchor, Anchorizer};
use crate::extract::{
    all_valid, heading_content, heading_text, paragraph_content, paragraph_text, EncodingError,
};
use crate::laws::{lemma_positions_contiguous, lemma_state_after};
use crate::record::{optional_text, views, KindView, MarkdownRecord, MarkdownRecordKind, RecordView};
use crate::text::{decode, texts};
use crate::tree::{
    direct_fragments, lemma_children_view, node_views, subtree_fragments, DocNode, NodeKind,
    NodeKindView, NodeView,
};
use vstd::prelude::*;
use vstd::utf8::*;

verus! {

/// What the flattener remembers between two top-level nodes.
pub struct State {
    /// The anchors given out so far.
    pub anchorizer: Anchorizer,
    /// The anchor of the last heading, if there was one.
    pub anchor: Option<String>,
    /// The number of records given so far.
    pub position: u64,
    /// The texts of the open headings, outermost first.
    pub stack: Vec<String>,
}

/// The flattener's state as a mathematical value.
pub struct StateView {
    pub issued: Set<Seq<char>>,
    pub anchor: Option<Seq<char>>,
    pub position: nat,
    pub stack: Seq<Seq<char>>,
}

impl View for State {
    type V = StateView;

    open spec fn view(&self) -> StateView {
        StateView {
            issued: self.anchorizer@,
            anchor: optional_text(self.anchor),
            position: self.position as nat,
            stack: texts(self.stack@),
        }
    }
}

/// The state before the first node: no anchor given out, no heading seen,
/// no record given, no heading open.
pub open spec fn initial_state() -> StateView {
    StateView { issued: Set::empty(), anchor: None, position: 0, stack: Seq::empty() }
}

/// The open headings that stay open under a new heading of the given
/// level: the first `level - 1` of them, or all where there are fewer. A
/// level of 0 leaves none open.
pub open spec fn kept_open(stack: Seq<Seq<char>>, level: u32) -> Seq<Seq<char>> {
    if level == 0 {
        Seq::empty()
    } else if stack.len() >= level {
        stack.take(level - 1)
    } else {
        stack
    }
}

/// The anchor that a heading with this content gets in state `s`.
pub open spec fn heading_anchor(s: StateView, node: NodeView) -> Seq<char> {
    unique_anchor(slug(heading_content(node)), s.issued)
}

/// The record of a heading of the given level, met in state `s`.
pub open spec fn heading_record(s: StateView, node: NodeView, level: u32) -> RecordView {
    RecordView {
        kind: KindView::Heading,
        position: s.position + 1,
        hierarchy: kept_open(s.stack, level),
        anchor: Some(heading_anchor(s, node)),
        content: heading_content(node),
    }
}

/// The state after a heading of the given level, met in state `s`.
pub open spec fn heading_state(s: StateView, node: NodeView, level: u32) -> StateView {
    StateView {
        issued: s.issued.insert(heading_anchor(s, node)),
        anchor: Some(heading_anchor(s, node)),
        position: s.position + 1,
        stack: kept_open(s.stack, level).push(heading_content(node)),
    }
}

/// The record of a paragraph met in state `s`.
pub open spec fn paragraph_record(s: StateView, node: NodeView) -> RecordView {
    RecordView {
        kind: KindView::Paragraph,
        position: s.position + 1,
        hierarchy: s.stack,
        anchor: s.anchor,
        content: paragraph_content(node),
    }
}

/// The record of a code block met in state `s`.
pub open spec fn code_record(s: StateView, info: Seq<u8>, literal: Seq<u8>) -> RecordView {
    RecordView {
        kind: KindView::Code(decode_utf8(info)),
        position: s.position + 1,
        hierarchy: s.stack,
        anchor: s.anchor,
        content: decode_utf8(literal),
    }
}

/// The state after a paragraph or a code block met in state `s`: one more
/// record has been given.
pub open spec fn counted(s: StateView) -> StateView {
    StateView { position: s.position + 1, ..s }
}

/// Every byte string that the flattener takes from a top-level node is
/// valid UTF-8.
pub open spec fn decodable(node: NodeView) -> bool {
    match node.kind {
        NodeKindView::Heading(_) => all_valid(direct_fragments(node.children)),
        NodeKindView::Paragraph => all_valid(subtree_fragments(node)),
        NodeKindView::CodeBlock { info, literal } => valid_utf8(info) && valid_utf8(literal),
        _ => true,
    }
}

/// The record that a top-level node gives in state `s`: one for a heading,
/// a paragraph or a code block, none for any other node.
pub open spec fn record_of(s: StateView, node: NodeView) -> Option<RecordView> {
    match node.kind {
        NodeKindView::Heading(level) => Some(heading_record(s, node, level)),
        NodeKindView::Paragraph => Some(paragraph_record(s, node)),
        NodeKindView::CodeBlock { info, literal } => Some(code_record(s, info, literal)),
        _ => None,
    }
}

/// The state after a top-level node met in state `s`.
pub open spec fn advance(s: StateView, node: NodeView) -> StateView {
    match node.kind {
        NodeKindView::Heading(level) => heading_state(s, node, level),
        NodeKindView::Paragraph => counted(s),
        NodeKindView::CodeBlock { .. } => counted(s),
        _ => s,
    }
}

/// The state after the nodes, from the initial state.
pub open spec fn state_after(nodes: Seq<NodeView>) -> StateView
    decreases nodes.len(),
{
    if nodes.len() == 0 {
        initial_state()
    } else {
        advance(state_after(nodes.drop_last()), nodes.last())
    }
}

/// The records that the nodes give, in order.
pub open spec fn records_of(nodes: Seq<NodeView>) -> Seq<RecordView>
    decreases nodes.len(),
{
    if nodes.len() == 0 {
        Seq::empty()
    } else {
        match record_of(state_after(nodes.drop_last()), nodes.last()) {
            Some(record) => records_of(nodes.drop_last()).push(record),
            None => records_of(nodes.drop_last()),
        }
    }
}

/// The node gives a record: it is a heading, a paragraph or a code block.
pub open spec fn gives_record(node: NodeView) -> bool {
    node.kind is Heading || node.kind is Paragraph || node.kind is CodeBlock
}

/// The number of nodes that give a record.
pub open spec fn record_count(nodes: Seq<NodeView>) -> nat
    decreases nodes.len(),
{
    if nodes.len() == 0 {
        0
    } else if gives_record(nodes.last()) {
        record_count(nodes.drop_last()) + 1
    } else {
        record_count(nodes.drop_last())
    }
}

/// Every node of the sequence is decodable.
pub open spec fn all_decodable(nodes: Seq<NodeView>) -> bool {
    forall|k: int| 0 <= k < nodes.len() ==> decodable(#[trigger] nodes[k])
}

/// What flattening the top-level nodes gives: their records where every
/// node is decodable, the encoding error where one is not.
pub open spec fn flattens_to(
    nodes: Seq<NodeView>,
    outcome: Result<Vec<MarkdownRecord>, EncodingError>,
) -> bool {
    match outcome {
        Ok(records) => all_decodable(nodes) && views(records@) == records_of(nodes),
        Err(_) => !all_decodable(nodes),
    }
}

impl Default for State {
    /// The state before the first node.
    fn default() -> (state: State)
        ensures
            state@ == initial_state(),
    {
        State::new()
    }
}

impl State {
    /// The state before the first node.
    pub fn new() -> (state: State)
        ensures
            state@ == initial_state(),
    {
        let state = State { anchorizer: Anchorizer::new(), anchor: None, position: 0, stack: Vec::new() };
        assert(state@.stack =~= Seq::empty());
        state
    }
}

/// Closes the open headings that do not stay open under a new heading of
/// the given level.
pub fn close_headings(stack: &mut Vec<String>, level: u32)
    ensures
        texts(final(stack)@) == kept_open(texts(old(stack)@), level),
{
    while stack.len() > 0 && stack.len() >= level as usize
        invariant
            stack.len() <= old(stack).len(),
            stack.len() == old(stack).len() || stack.len() >= level - 1,
            texts(stack@) == texts(old(stack)@).take(stack.len() as int),
        decreases stack.len(),
    {
        stack.pop();
    }
}

/// Handles a heading of the given level: closes the headings that do not
/// stay open, gives the heading's record with a new anchor, and opens the
/// heading.
pub fn parse_header(
    state: &mut State,
    records: &mut Vec<MarkdownRecord>,
    node: &DocNode,
    level: u32,
) -> (done: Result<(), EncodingError>)
    requires
        old(state).position < u64::MAX,
    ensures
        done is Ok <==> all_valid(direct_fragments(node@.children)),
        done is Ok ==> final(state)@ == heading_state(old(state)@, node@, level),
        done is Ok ==> views(final(records)@) == views(old(records)@).push(
            heading_record(old(state)@, node@, level),
        ),
        done is Err ==> *final(state) == *old(state) && *final(records) == *old(records),
{
    let content = match heading_text(node) {
        Ok(content) => content,
        Err(e) => {
            return Err(e);
        },
    };
    close_headings(&mut state.stack, level);
    state.position += 1;
    let hierarchy = state.stack.clone();
    let anchor = state.anchorizer.anchorize(content.clone());
    state.anchor = Some(anchor.clone());
    state.stack.push(content.clone());
    records.push(
        MarkdownRecord {
            content,
            anchor: Some(anchor),
            hierarchy,
            position: state.position,
            kind: MarkdownRecordKind::Heading,
        },
    );
    proof {
        assert(state@.stack =~= heading_state(old(state)@, node@, level).stack);
        assert(views(records@) =~= views(old(records)@).push(
            heading_record(old(state)@, node@, level),
        ));
    }
    Ok(())
}

/// Handles a paragraph: gives its record under the open headings and the
/// current anchor.
pub fn parse_paragraph(state: &mut State, records: &mut Vec<MarkdownRecord>, node: &DocNode) -> (done:
    Result<(), EncodingError>)
    requires
        old(state).position < u64::MAX,
    ensures
        done is Ok <==> all_valid(subtree_fragments(node@)),
        done is Ok ==> final(state)@ == counted(old(state)@),
        done is Ok ==> views(final(records)@) == views(old(records)@).push(
            paragraph_record(old(state)@, node@),
        ),
        done is Err ==> *final(state) == *old(state) && *final(records) == *old(records),
{
    let content = match paragraph_text(node) {
        Ok(content) => content,
        Err(e) => {
            return Err(e);
        },
    };
    state.position += 1;
    let hierarchy = state.stack.clone();
    records.push(
        MarkdownRecord {
            kind: MarkdownRecordKind::Paragraph,
            position: state.position,
            hierarchy,
            anchor: state.anchor.clone(),
            content,
        },
    );
    Ok(())
}

/// Handles a code block: gives its record, with the code as it stands,
/// under the open headings and the current anchor.
pub fn parse_code_block(
    state: &mut State,
    records: &mut Vec<MarkdownRecord>,
    info: &Vec<u8>,
    literal: &Vec<u8>,
) -> (done: Result<(), EncodingError>)
    requires
        old(state).position < u64::MAX,
    ensures
        done is Ok <==> valid_utf8(info@) && valid_utf8(literal@),
        done is Ok ==> final(state)@ == counted(old(state)@),
        done is Ok ==> views(final(records)@) == views(old(records)@).push(
            code_record(old(state)@, info@, literal@),
        ),
        done is Err ==> *final(state) == *old(state) && *final(records) == *old(records),
{
    let tag = match decode(info.clone()) {
        Ok(tag) => tag,
        Err(_) => {
            return Err(EncodingError {});
        },
    };
    let content = match decode(literal.clone()) {
        Ok(content) => content,
        Err(_) => {
            return Err(EncodingError {});
        },
    };
    state.position += 1;
    let hierarchy = state.stack.clone();
    records.push(
        MarkdownRecord {
            kind: MarkdownRecordKind::Code(tag),
            content,
            position: state.position,
            hierarchy,
            anchor: state.anchor.clone(),
        },
    );
    proof {
        assert(views(records@) =~= views(old(records)@).push(
            code_record(old(state)@, info@, literal@),
        ));
    }
    Ok(())
}

/// What a record sequence becomes when a node that may give a record has
/// been handled.
pub open spec fn with_record(records: Seq<RecordView>, record: Option<RecordView>) -> Seq<
    RecordView,
> {
    match record {
        Some(record) => records.push(record),
        None => records,
    }
}

/// Handles one top-level node: a heading, a paragraph or a code block
/// gives a record, any other node is passed over.
pub fn visit(state: &mut State, records: &mut Vec<MarkdownRecord>, node: &DocNode) -> (done: Result<
    (),
    EncodingError,
>)
    requires
        old(state).position < u64::MAX,
    ensures
        done is Ok <==> decodable(node@),
        done is Ok ==> final(state)@ == advance(old(state)@, node@),
        done is Ok ==> views(final(records)@) == with_record(
            views(old(records)@),
            record_of(old(state)@, node@),
        ),
        done is Err ==> *final(state) == *old(state) && *final(records) == *old(records),
{
    match &node.kind {
        NodeKind::Heading(level) => parse_header(state, records, node, *level),
        NodeKind::Paragraph => parse_paragraph(state, records, node),
        NodeKind::CodeBlock { info, literal } => parse_code_block(state, records, info, literal),
        _ => Ok(()),
    }
}

/// Flattens a document: one record for each heading, paragraph and code
/// block among the children of the root, in document order. Fails, with no
/// record given, where a byte string that it has to read is not valid
/// UTF-8.
pub fn flatten(root: &DocNode) -> (outcome: Result<Vec<MarkdownRecord>, EncodingError>)
    ensures
        flattens_to(root@.children, outcome),
        outcome matches Ok(records) ==> records.len() == record_count(root@.children),
        outcome matches Ok(records) ==> forall|i: int|
            0 <= i < records.len() ==> (#[trigger] records[i]).position == i + 1,
{
    let mut state = State::new();
    let mut records: Vec<MarkdownRecord> = Vec::new();
    let mut i: usize = 0;
    proof {
        lemma_children_view(*root);
    }
    while i < root.children.len()
        invariant
            i <= root.children.len(),
            root@.children == node_views(root.children@),
            state@ == state_after(root@.children.take(i as int)),
            views(records@) == records_of(root@.children.take(i as int)),
            all_decodable(root@.children.take(i as int)),
        decreases root.children.len() - i,
    {
        proof {
            lemma_state_after(root@.children.take(i as int));
            assert(root@.children.take(i + 1).drop_last() == root@.children.take(i as int));
            assert(root@.children.take(i + 1).last() == root.children[i as int]@);
        }
        match visit(&mut state, &mut records, &root.children[i]) {
            Ok(()) => {},
            Err(e) => {
                return Err(e);
            },
        }
        i += 1;
    }
    proof {
        assert(root@.children.take(i as int) == root@.children);
        lemma_positions_contiguous(root@.children);
        assert forall|i: int| 0 <= i < records.len() implies (#[trigger] records[i]).position == i
            + 1 by {
            assert(views(records@)[i] == records[i]@);
        }
    }
    Ok(records)
}

} // verus!
