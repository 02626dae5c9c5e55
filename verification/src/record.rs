//! The records that flattening a document gives.

use crate::text::texts;
use vstd::prelude::*;

verus! {

/// What kind of content a record holds.
#[derive(Debug, Clone, PartialEq, Eq)]
pub enum MarkdownRecordKind {
    /// A heading.
    Heading,
    /// A paragraph.
    Paragraph,
    /// A code block, with the language tag of its fence (empty where it has
    /// none).
    Code(String),
}

/// One unit of indexable content.
#[derive(Debug, Clone, PartialEq, Eq)]
pub struct MarkdownRecord {
    /// What the record holds.
    pub kind: MarkdownRecordKind,
    /// The place of the record in the output, counted from 1.
    pub position: u64,
    /// The texts of the headings that are open where the record stands,
    /// outermost first. A heading's own text is not among them.
    pub hierarchy: Vec<String>,
    /// The anchor of the nearest heading at or before the record.
    pub anchor: Option<String>,
    /// The plain text of the record.
    pub content: String,
}

/// A record kind as a mathematical value.
pub enum KindView {
    Heading,
    Paragraph,
    Code(Seq<char>),
}

/// A record as a mathematical value.
pub struct RecordView {
    pub kind: KindView,
    pub position: nat,
    pub hierarchy: Seq<Seq<char>>,
    pub anchor: Option<Seq<char>>,
    pub content: Seq<char>,
}

/// The characters of an optional string.
pub open spec fn optional_text(s: Option<String>) -> Option<Seq<char>> {
    match s {
        Some(s) => Some(s@),
        None => None,
    }
}

impl View for MarkdownRecordKind {
    type V = KindView;

    open spec fn view(&self) -> KindView {
        match self {
            MarkdownRecordKind::Heading => KindView::Heading,
            MarkdownRecordKind::Paragraph => KindView::Paragraph,
            MarkdownRecordKind::Code(info) => KindView::Code(info@),
        }
    }
}

impl View for MarkdownRecord {
    type V = RecordView;

    open spec fn view(&self) -> RecordView {
        RecordView {
            kind: self.kind@,
            position: self.position as nat,
            hierarchy: texts(self.hierarchy@),
            anchor: optional_text(self.anchor),
            content: self.content@,
        }
    }
}

/// The records of a sequence as mathematical values.
pub open spec fn views(records: Seq<MarkdownRecord>) -> Seq<RecordView> {
    Seq::new(records.len(), |i: int| records[i]@)
}

impl Default for MarkdownRecordKind {
    /// A record is a paragraph unless something else is said.
    fn default() -> (kind: MarkdownRecordKind)
        ensures
            kind@ == KindView::Paragraph,
    {
        MarkdownRecordKind::Paragraph
    }
}

impl Default for MarkdownRecord {
    /// An empty paragraph that stands nowhere.
    fn default() -> (record: MarkdownRecord)
        ensures
            record@ == (RecordView {
                kind: KindView::Paragraph,
                position: 0,
                hierarchy: Seq::empty(),
                anchor: None,
                content: Seq::empty(),
            }),
    {
        let record = MarkdownRecord {
            kind: MarkdownRecordKind::Paragraph,
            position: 0,
            hierarchy: Vec::new(),
            anchor: None,
            content: String::new(),
        };
        assert(record@.hierarchy =~= Seq::empty());
        record
    }
}

} // verus!
