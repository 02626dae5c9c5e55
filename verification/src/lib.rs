//! Flattens a markdown document into an ordered sequence of records for
//! full-text indexing: one record for each top-level heading, paragraph and
//! code block, with its position, the headings it stands under, the anchor
//! of the nearest heading and its plain text.
//!
//! - `tree`: the document tree and the text fragments of a subtree.
//! - `outline`: the tree as the list of its nodes with their depths.
//! - `text`: decoding, joining and decimal numbers.
//! - `extract`: the plain text of a heading and of a paragraph.
//! - `anchor`: unique anchors for headings.
//! - `record`: the records.
//! - `flatten`: the pass over the top-level nodes.
//! - `document`: from markdown text to records.
//! - `laws`: what holds of every flattened document.

pub mod anchor;
pub mod document;
pub mod extract;
pub mod flatten;
pub mod laws;
pub mod outline;
pub mod record;
pub mod text;
pub mod tree;
