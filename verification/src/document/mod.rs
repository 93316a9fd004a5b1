//! The document model — the trusted runtime view of a `.cull` package.
//!
//! [`build_document`] validates the package's semantic structure at load —
//! chunk-graph invariants, style/content/image reference resolution, and the
//! INFO count cross-checks — then hands back a [`DocumentModel`] that the
//! layout, visibility and selection layers treat as trusted. No geometry
//! lives here.

pub mod graph;
pub mod load;
pub mod model;
pub mod style;
pub mod tree;

use vstd::prelude::*;
use crate::reader::chunk::ChunkKind;

pub use model::{build_document, DocumentModel};
pub use style::{resolve_style, ResolvedStyle};

verus! {

/// A load-time document validation failure.
#[derive(Debug, Clone, PartialEq, Eq)]
pub struct DocumentError {
    /// The failure discriminant.
    pub kind: DocumentErrorKind,
    /// A human-readable detail.
    pub message: String,
}

/// The discriminant of a document build failure.
#[derive(Debug, Clone, Copy, PartialEq, Eq, Structural)]
pub enum DocumentErrorKind {
    /// A required section (INFO, CHNK) is absent.
    MissingSection,
    /// The chunk graph violates a structural invariant.
    InvalidChunkGraph,
    /// A chunk references a style, content payload, or image that does not
    /// exist.
    DanglingReference,
    /// An INFO count disagrees with the decoded section.
    CountMismatch,
    /// A chunk's content is of the wrong kind for its chunk kind.
    InvalidContent,
}

/// The name of a document error kind.
pub open spec fn document_error_kind_name(k: DocumentErrorKind) -> Seq<char> {
    match k {
        DocumentErrorKind::MissingSection => "MissingSection"@,
        DocumentErrorKind::InvalidChunkGraph => "InvalidChunkGraph"@,
        DocumentErrorKind::DanglingReference => "DanglingReference"@,
        DocumentErrorKind::CountMismatch => "CountMismatch"@,
        DocumentErrorKind::InvalidContent => "InvalidContent"@,
    }
}

impl DocumentErrorKind {
    /// The variant's name.
    pub fn name(self) -> (r: &'static str)
        ensures
            r@ == document_error_kind_name(self),
    {
        match self {
            DocumentErrorKind::MissingSection => "MissingSection",
            DocumentErrorKind::InvalidChunkGraph => "InvalidChunkGraph",
            DocumentErrorKind::DanglingReference => "DanglingReference",
            DocumentErrorKind::CountMismatch => "CountMismatch",
            DocumentErrorKind::InvalidContent => "InvalidContent",
        }
    }
}

/// The text of a document error: its kind and its message.
pub open spec fn document_error_text(e: DocumentError) -> Seq<char> {
    document_error_kind_name(e.kind) + ": "@ + e.message@
}

impl DocumentError {
    /// The error's text: `"<kind>: <message>"`.
    pub fn render(&self) -> (r: String)
        ensures
            r@ == document_error_text(*self),
    {
        let mut text = crate::text::to_owned_string(self.kind.name());
        crate::text::push_str(&mut text, ": ");
        crate::text::push_str(&mut text, self.message.as_str());
        text
    }
}

impl DocumentError {
    /// Construct a document error.
    pub fn new(kind: DocumentErrorKind, message: String) -> (r: Self)
        ensures
            r.kind == kind,
            r.message@ == message@,
    {
        DocumentError { kind, message }
    }
}

/// The structural wrappers: `document`, `list`, `table`, `table_row`.
pub fn is_structural_kind(kind: ChunkKind) -> (r: bool)
    ensures
        r == crate::reader::chunk::kind_is_structural(kind),
{
    kind.is_structural()
}

/// Whether a kind is inline (nested inside block chunks): `run`, `link`,
/// `br`.
pub open spec fn inline_kind(kind: ChunkKind) -> bool {
    kind == ChunkKind::Run || kind == ChunkKind::Link || kind == ChunkKind::Br
}

/// Whether a kind is a block-level renderable kind.
pub open spec fn block_kind(kind: ChunkKind) -> bool {
    kind == ChunkKind::Heading1 || kind == ChunkKind::Heading2 || kind == ChunkKind::Heading3 || kind
        == ChunkKind::Heading4 || kind == ChunkKind::Heading5 || kind == ChunkKind::Heading6 || kind
        == ChunkKind::Paragraph || kind == ChunkKind::Quote || kind == ChunkKind::ListItem || kind
        == ChunkKind::CodeBlock || kind == ChunkKind::TableCell || kind == ChunkKind::Image || kind
        == ChunkKind::Caption || kind == ChunkKind::Hr
}

/// True for inline kinds: `run`, `link`, `br`.
pub fn is_inline_kind(kind: ChunkKind) -> (r: bool)
    ensures
        r == inline_kind(kind),
{
    match kind {
        ChunkKind::Run | ChunkKind::Link | ChunkKind::Br => true,
        _ => false,
    }
}

/// True for block-level renderable kinds.
pub fn is_block_kind(kind: ChunkKind) -> (r: bool)
    ensures
        r == block_kind(kind),
{
    match kind {
        ChunkKind::Heading1 | ChunkKind::Heading2 | ChunkKind::Heading3 | ChunkKind::Heading4
        | ChunkKind::Heading5 | ChunkKind::Heading6 | ChunkKind::Paragraph | ChunkKind::Quote
        | ChunkKind::ListItem | ChunkKind::CodeBlock | ChunkKind::TableCell | ChunkKind::Image
        | ChunkKind::Caption | ChunkKind::Hr => true,
        _ => false,
    }
}

/// Every kind is exactly one of structural, inline or block.
pub proof fn lemma_kind_classes_partition(kind: ChunkKind)
    ensures
        crate::reader::chunk::kind_is_structural(kind) || inline_kind(kind) || block_kind(kind),
        !(crate::reader::chunk::kind_is_structural(kind) && inline_kind(kind)),
        !(crate::reader::chunk::kind_is_structural(kind) && block_kind(kind)),
        !(inline_kind(kind) && block_kind(kind)),
{
}

} // verus!
