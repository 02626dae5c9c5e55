//! Plain text out of a subtree: which fragments are collected, how they are
//! decoded and how they are joined.

use crate::text::{decode, join, join_spaced, texts};
use crate::tree::{
    children_fragments, direct_fragments, lemma_children_view, node_views, own_fragments,
    subtree_fragments, DocNode, NodeKind, NodeView,
};
use vstd::prelude::*;
use vstd::string::*;
use vstd::utf8::*;

verus! {

/// A byte string taken from the document is not valid UTF-8.
#[derive(Debug, Clone, Copy, PartialEq, Eq, Structural)]
pub struct EncodingError {}

impl EncodingError {
    /// The error in words.
    pub fn description(&self) -> (words: String)
        ensures
            words@ == "invalid UTF-8 in the text of the document"@,
    {
        String::from_str("invalid UTF-8 in the text of the document")
    }
}

/// Every fragment is valid UTF-8.
pub open spec fn all_valid(fragments: Seq<Seq<u8>>) -> bool {
    forall|i: int| 0 <= i < fragments.len() ==> valid_utf8(#[trigger] fragments[i])
}

/// The fragments, each decoded from UTF-8.
pub open spec fn decode_all(fragments: Seq<Seq<u8>>) -> Seq<Seq<char>> {
    Seq::new(fragments.len(), |i: int| decode_utf8(fragments[i]))
}

/// The content of a heading: what its direct children contribute, decoded
/// and joined by single spaces.
pub open spec fn heading_content(node: NodeView) -> Seq<char> {
    join_spaced(decode_all(direct_fragments(node.children)))
}

/// The content of a paragraph: what all its descendants contribute, decoded
/// and joined by single spaces.
pub open spec fn paragraph_content(node: NodeView) -> Seq<char> {
    join_spaced(decode_all(subtree_fragments(node)))
}

/// Validity and decoding go through concatenation.
pub proof fn lemma_fragments_concat(a: Seq<Seq<u8>>, b: Seq<Seq<u8>>)
    ensures
        all_valid(a + b) <==> all_valid(a) && all_valid(b),
        decode_all(a + b) == decode_all(a) + decode_all(b),
{
    if all_valid(a + b) {
        assert forall|i: int| 0 <= i < a.len() implies valid_utf8(#[trigger] a[i]) by {
            assert((a + b)[i] == a[i]);
        }
        assert forall|i: int| 0 <= i < b.len() implies valid_utf8(#[trigger] b[i]) by {
            assert((a + b)[a.len() + i] == b[i]);
        }
    }
}

/// Decodes what a node contributes by itself and appends it to `content`.
pub fn push_own(node: &DocNode, content: &mut Vec<String>) -> (done: Result<(), EncodingError>)
    ensures
        done is Ok <==> all_valid(own_fragments(node@)),
        done is Ok ==> texts(final(content)@) == texts(old(content)@) + decode_all(
            own_fragments(node@),
        ),
        done is Err ==> *final(content) == *old(content),
{
    let bytes = match &node.kind {
        NodeKind::Text(text) => text,
        NodeKind::Code(literal) => literal,
        _ => {
            return Ok(());
        },
    };
    match decode(bytes.clone()) {
        Ok(fragment) => {
            content.push(fragment);
            Ok(())
        },
        Err(_) => {
            assert(!valid_utf8(own_fragments(node@)[0]));
            Err(EncodingError {})
        },
    }
}

/// The subtrees of the first `n` children contribute a prefix of what the
/// subtrees of the first `m` children contribute, for `n <= m`.
pub proof fn lemma_children_fragments_grow(node: NodeView, n: nat, m: nat)
    requires
        n <= m <= node.children.len(),
    ensures
        children_fragments(node, n).is_prefix_of(children_fragments(node, m)),
    decreases m,
{
    if n < m {
        lemma_children_fragments_grow(node, n, (m - 1) as nat);
    }
}

/// Visits a node and all its descendants in depth-first pre-order and
/// appends to `content` what each contributes, decoded.
pub fn iter_nodes(node: &DocNode, content: &mut Vec<String>) -> (done: Result<(), EncodingError>)
    ensures
        done is Ok <==> all_valid(subtree_fragments(node@)),
        done is Ok ==> texts(final(content)@) == texts(old(content)@) + decode_all(
            subtree_fragments(node@),
        ),
        texts(old(content)@).is_prefix_of(texts(final(content)@)),
    decreases node,
{
    let ghost before = texts(content@);
    proof {
        lemma_children_view(*node);
    }
    match push_own(node, content) {
        Ok(()) => {},
        Err(e) => {
            proof {
                lemma_fragments_concat(
                    own_fragments(node@),
                    children_fragments(node@, node.children.len() as nat),
                );
            }
            return Err(e);
        },
    }
    let mut i: usize = 0;
    while i < node.children.len()
        invariant
            i <= node.children.len(),
            before == texts(old(content)@),
            node@.children == node_views(node.children@),
            all_valid(own_fragments(node@) + children_fragments(node@, i as nat)),
            texts(content@) == before + decode_all(
                own_fragments(node@) + children_fragments(node@, i as nat),
            ),
        decreases node.children.len() - i,
    {
        let ghost seen = own_fragments(node@) + children_fragments(node@, i as nat);
        let ghost child = subtree_fragments(node.children[i as int]@);
        proof {
            assert(own_fragments(node@) + children_fragments(node@, (i + 1) as nat) == seen
                + child);
            lemma_fragments_concat(seen, child);
        }
        match iter_nodes(&node.children[i], content) {
            Ok(()) => {},
            Err(e) => {
                proof {
                    lemma_children_fragments_grow(
                        node@,
                        (i + 1) as nat,
                        node.children.len() as nat,
                    );
                    let k = choose|k: int| 0 <= k < child.len() && !valid_utf8(child[k]);
                    let at = own_fragments(node@).len() + children_fragments(
                        node@,
                        i as nat,
                    ).len() + k;
                    assert(children_fragments(node@, (i + 1) as nat)[children_fragments(
                        node@,
                        i as nat,
                    ).len() + k] == child[k]);
                    assert(subtree_fragments(node@)[at] == child[k]);
                }
                return Err(e);
            },
        }
        i += 1;
    }
    Ok(())
}

/// The text of a heading: what its direct children contribute, joined by
/// single spaces. The children's own children are not visited.
pub fn heading_text(node: &DocNode) -> (text: Result<String, EncodingError>)
    ensures
        text is Ok <==> all_valid(direct_fragments(node@.children)),
        text matches Ok(s) ==> s@ == heading_content(node@),
{
    let mut content: Vec<String> = Vec::new();
    let mut i: usize = 0;
    proof {
        lemma_children_view(*node);
    }
    while i < node.children.len()
        invariant
            i <= node.children.len(),
            node@.children == node_views(node.children@),
            all_valid(direct_fragments(node@.children.take(i as int))),
            texts(content@) == decode_all(direct_fragments(node@.children.take(i as int))),
        decreases node.children.len() - i,
    {
        let ghost seen = direct_fragments(node@.children.take(i as int));
        let ghost own = own_fragments(node.children[i as int]@);
        proof {
            assert(node@.children.take(i + 1).drop_last() == node@.children.take(i as int));
            lemma_fragments_concat(seen, own);
        }
        match push_own(&node.children[i], &mut content) {
            Ok(()) => {},
            Err(e) => {
                proof {
                    lemma_direct_fragments_grow(node@.children, i + 1);
                }
                return Err(e);
            },
        }
        i += 1;
    }
    proof {
        assert(node@.children.take(i as int) == node@.children);
    }
    Ok(join(&content))
}

/// The direct fragments of a prefix of the nodes are a prefix of the direct
/// fragments of all of them.
pub proof fn lemma_direct_fragments_grow(nodes: Seq<NodeView>, n: int)
    requires
        0 <= n <= nodes.len(),
    ensures
        direct_fragments(nodes.take(n)).is_prefix_of(direct_fragments(nodes)),
    decreases nodes.len(),
{
    if n < nodes.len() {
        lemma_direct_fragments_grow(nodes.drop_last(), n);
        assert(nodes.drop_last().take(n) == nodes.take(n));
    } else {
        assert(nodes.take(n) == nodes);
    }
}

/// The text of a paragraph: what the paragraph and all its descendants
/// contribute, in depth-first pre-order, joined by single spaces.
pub fn paragraph_text(node: &DocNode) -> (text: Result<String, EncodingError>)
    ensures
        text is Ok <==> all_valid(subtree_fragments(node@)),
        text matches Ok(s) ==> s@ == paragraph_content(node@),
{
    let mut content: Vec<String> = Vec::new();
    match iter_nodes(node, &mut content) {
        Ok(()) => {
            Ok(join(&content))
        },
        Err(e) => Err(e),
    }
}

} // verus!
