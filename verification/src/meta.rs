//! Data model: page ranges, spans, edit operations, section definitions and
//! the per-document metadata record.

use vstd::prelude::*;

verus! {

/// An inclusive range `[start, end]` of page numbers. Pages are numbered
/// from 1; a well-formed range satisfies `1 <= start <= end`.
#[derive(Clone, Copy, Debug, PartialEq, Eq)]
pub struct PageRange {
    pub start: usize,
    pub end: usize,
}

impl PageRange {
    /// Structural validity of a page range: it names at least one page and
    /// page numbers are positive.
    pub open spec fn wf(self) -> bool {
        1 <= self.start && self.start <= self.end
    }
}

/// Which part of the concatenated page-range text belongs to a section.
/// A section with no span uses the whole concatenation.
#[derive(Clone, Copy, Debug, PartialEq, Eq)]
pub enum Span {
    /// The half-open byte range `[start, end)` of the concatenated text.
    Bounded { start: usize, end: usize },
    /// From byte `start` to the end of the concatenated text.
    Open { start: usize },
}

/// A recorded edit operation. `Delete` marks the inclusive byte range
/// `[start, end]` of the working text for removal.
#[derive(Clone, Copy, Debug, PartialEq, Eq)]
pub enum Op {
    Delete { start: usize, end: usize },
}

/// Semantic classification of a section; carries no behaviour relevant to
/// extraction.
#[derive(Clone, Debug, PartialEq, Eq)]
pub enum SectionKind {
    Merit { subkind: Option<Vec<u8>> },
    Condition,
    Tilt,
}

/// Mathematical model of a `SectionKind`.
pub ghost enum KindModel {
    Merit { subkind: Option<Seq<u8>> },
    Condition,
    Tilt,
}

impl DeepView for SectionKind {
    type V = KindModel;

    open spec fn deep_view(&self) -> KindModel {
        match self {
            SectionKind::Merit { subkind: None } => KindModel::Merit { subkind: None },
            SectionKind::Merit { subkind: Some(s) } => KindModel::Merit { subkind: Some(s@) },
            SectionKind::Condition => KindModel::Condition,
            SectionKind::Tilt => KindModel::Tilt,
        }
    }
}

/// A named, classified fragment of the source document, anchored to a page
/// range, an optional byte span and an ordered log of edit operations.
/// The operation log keeps authoring order; a safe application order is
/// re-derived at extraction time.
#[derive(Clone, Debug, PartialEq, Eq)]
pub struct SectionDefinition {
    pub name: Vec<u8>,
    pub pages: PageRange,
    pub span: Option<Span>,
    pub kind: SectionKind,
    pub ops: Vec<Op>,
}

/// Mathematical model of a `SectionDefinition`.
pub ghost struct SectionModel {
    pub name: Seq<u8>,
    pub pages: PageRange,
    pub span: Option<Span>,
    pub kind: KindModel,
    pub ops: Seq<Op>,
}

impl DeepView for SectionDefinition {
    type V = SectionModel;

    open spec fn deep_view(&self) -> SectionModel {
        SectionModel {
            name: self.name@,
            pages: self.pages,
            span: self.span,
            kind: self.kind.deep_view(),
            ops: self.ops@,
        }
    }
}

/// One metadata record per distinct source-document content hash.
#[derive(Clone, Debug, PartialEq, Eq)]
pub struct SourceMeta {
    pub hash: u64,
    pub timestamp: u64,
    pub sections: Vec<SectionDefinition>,
}

/// Mathematical model of a `SourceMeta` record.
pub ghost struct MetaModel {
    pub hash: u64,
    pub timestamp: u64,
    pub sections: Seq<SectionModel>,
}

impl DeepView for SourceMeta {
    type V = MetaModel;

    open spec fn deep_view(&self) -> MetaModel {
        MetaModel {
            hash: self.hash,
            timestamp: self.timestamp,
            sections: self.sections.deep_view(),
        }
    }
}

/// The model of the section that `SourceMeta::add_section` appends.
pub open spec fn fresh_section_model(name: Seq<u8>) -> SectionModel {
    SectionModel {
        name: name,
        pages: PageRange { start: 1, end: 2 },
        span: None,
        kind: KindModel::Merit { subkind: None },
        ops: Seq::empty(),
    }
}

/// The model of the record created for a hash with no matching sidecar.
pub open spec fn fresh_meta_model(hash: u64) -> MetaModel {
    MetaModel { hash: hash, timestamp: 0, sections: Seq::empty() }
}

impl SourceMeta {
    /// A fresh, empty record for a document hash never seen before.
    pub fn new_empty(hash: u64) -> (r: SourceMeta)
        ensures
            r.deep_view() == fresh_meta_model(hash),
    {
        let r = SourceMeta { hash, timestamp: 0, sections: Vec::new() };
        proof {
            assert(r.deep_view().sections =~= fresh_meta_model(hash).sections);
        }
        r
    }

    /// Appends a new section with the given name, a placeholder page range,
    /// no span, the default classification and an empty operation log.
    pub fn add_section(&mut self, name: Vec<u8>)
        ensures
            final(self).hash == old(self).hash,
            final(self).timestamp == old(self).timestamp,
            final(self).deep_view().sections
                == old(self).deep_view().sections.push(fresh_section_model(name@)),
    {
        self.sections.push(SectionDefinition {
            name,
            pages: PageRange { start: 1, end: 2 },
            span: None,
            kind: SectionKind::Merit { subkind: None },
            ops: Vec::new(),
        });
        proof {
            assert(self.deep_view().sections
                =~= old(self).deep_view().sections.push(self.sections@.last().deep_view()));
            assert(self.sections@.last().deep_view().ops =~= Seq::<Op>::empty());
        }
    }
}

impl SectionDefinition {
    /// Replaces the section's span; no other field changes.
    pub fn set_span(&mut self, span: Option<Span>)
        ensures
            *final(self) == (SectionDefinition { span, ..*old(self) }),
    {
        self.span = span;
    }

    /// Replaces the section's page range; no other field changes.
    pub fn set_pages(&mut self, start: usize, end: usize)
        ensures
            *final(self) == (SectionDefinition {
                pages: PageRange { start, end },
                ..*old(self)
            }),
    {
        self.pages = PageRange { start, end };
    }

    /// Records the deletion of the non-empty half-open selection
    /// `[start, end)` of the working text as an inclusive `Delete` range,
    /// appended to the operation log in authoring order.
    pub fn push_delete(&mut self, start: usize, end: usize)
        requires
            start < end,
        ensures
            final(self).name == old(self).name,
            final(self).pages == old(self).pages,
            final(self).span == old(self).span,
            final(self).kind == old(self).kind,
            final(self).ops@ == old(self).ops@.push(Op::Delete {
                start,
                end: (end - 1) as usize,
            }),
    {
        let op = Op::Delete { start, end: end - 1 };
        self.ops.push(op);
    }
}

} // verus!
