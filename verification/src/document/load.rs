//! Building the document model: required sections, the chunk-graph
//! invariants, reference resolution, and the INFO count cross-checks.

use vstd::prelude::*;
use crate::document::graph::{dense, graph_spec, validate_graph};
use crate::document::style::{default_style, resolve_spec, resolve_style, ResolvedStyle};
use crate::document::{DocumentError, DocumentErrorKind};
use crate::error::Error;
use crate::reader::chunk::{ChunkExtra, ChunkExtraView, ChunkKind, ChunkRecord, ChunkSection};
use crate::reader::content::{ContentData, ContentDataView, ContentPayload, ContentPayloadView, PayloadKind};
use crate::reader::glyph::{Atlas, AtlasView};
use crate::reader::image::{ImageRecord, ImageRecordView};
use crate::reader::info::{Info, InfoView};
use crate::reader::style::{StyleRecord, StyleRecordView};
use crate::reader::Package;
use crate::text::{push_str, to_owned_string};

verus! {

/// The content-reference failure of a chunk, if any: an image chunk must
/// reference an `image_ref` payload naming an existing image; any other
/// chunk's payload, when present, must be text.
pub open spec fn content_ref_error(c: ChunkRecord, content: Seq<ContentPayloadView>, image_count: nat) -> Option<DocumentErrorKind> {
    if c.content_index == 0 {
        None
    } else {
        let idx = c.content_index - 1;
        if c.kind == ChunkKind::Image {
            if idx >= content.len() {
                Some(DocumentErrorKind::InvalidContent)
            } else if content[idx].kind != PayloadKind::ImageRef {
                Some(DocumentErrorKind::InvalidContent)
            } else {
                match content[idx].data {
                    ContentDataView::ImageRef(id) => if id >= image_count {
                        Some(DocumentErrorKind::DanglingReference)
                    } else {
                        None
                    },
                    ContentDataView::Text(_) => Some(DocumentErrorKind::InvalidContent),
                }
            }
        } else if idx < content.len() && content[idx].kind != PayloadKind::TextUtf8 {
            Some(DocumentErrorKind::InvalidContent)
        } else {
            None
        }
    }
}

/// The resolved style a chunk's `style_id` selects (the defaults when the
/// table has no such record).
pub open spec fn chunk_style(styles: Seq<StyleRecordView>, style_id: u32) -> ResolvedStyle {
    if style_id < styles.len() {
        resolve_spec(styles[style_id as int].properties, styles[style_id as int].properties.len())
    } else {
        default_style()
    }
}

/// The reference failure of one chunk, if any, in check order: style id
/// within the INFO style count, content index within the INFO content
/// count, the content kind, then the style's font id within the atlas
/// table (at least one slot).
pub open spec fn chunk_refs(
    c: ChunkRecord,
    styles: Seq<StyleRecordView>,
    content: Seq<ContentPayloadView>,
    image_count: nat,
    atlas_count: nat,
    style_count: u32,
    content_count: u32,
) -> Option<DocumentErrorKind> {
    if c.style_id >= style_count {
        Some(DocumentErrorKind::DanglingReference)
    } else if c.content_index != 0 && c.content_index > content_count {
        Some(DocumentErrorKind::DanglingReference)
    } else if content_ref_error(c, content, image_count) is Some {
        content_ref_error(c, content, image_count)
    } else if chunk_style(styles, c.style_id).font_id >= (if atlas_count > 1 { atlas_count } else { 1 }) as u32 {
        Some(DocumentErrorKind::DanglingReference)
    } else {
        None
    }
}

/// The first reference failure among the first `n` chunks.
pub open spec fn refs_spec(
    chunks: Seq<ChunkRecord>,
    n: nat,
    styles: Seq<StyleRecordView>,
    content: Seq<ContentPayloadView>,
    image_count: nat,
    atlas_count: nat,
    style_count: u32,
    content_count: u32,
) -> Option<DocumentErrorKind>
    decreases n,
{
    if n == 0 {
        None
    } else {
        match refs_spec(chunks, (n - 1) as nat, styles, content, image_count, atlas_count, style_count, content_count) {
            Some(k) => Some(k),
            None => chunk_refs(chunks[n - 1], styles, content, image_count, atlas_count, style_count, content_count),
        }
    }
}

/// A decoded optional section: empty when absent, `None` when decoding
/// fails.
pub open spec fn optional_section<V>(payload: Option<Seq<u8>>, decoded: Result<Seq<V>, crate::error::ErrorKind>) -> Option<Seq<V>> {
    match payload {
        None => Some(Seq::empty()),
        Some(_) => match decoded {
            Ok(v) => Some(v),
            Err(_) => None,
        },
    }
}

/// The STYL records of a package (empty without STYL; `None` when they do
/// not decode).
pub open spec fn styles_of(pkg: &Package) -> Option<Seq<StyleRecordView>> {
    optional_section(
        pkg.payload_of(3),
        crate::reader::style::styles_spec(
            if pkg.payload_of(3) is Some { pkg.payload_of(3)->Some_0 } else { Seq::empty() },
        ),
    )
}

/// The CONT payloads of a package.
pub open spec fn content_of(pkg: &Package) -> Option<Seq<ContentPayloadView>> {
    optional_section(
        pkg.payload_of(4),
        crate::reader::content::content_spec(
            if pkg.payload_of(4) is Some { pkg.payload_of(4)->Some_0 } else { Seq::empty() },
        ),
    )
}

/// The GLYF atlases of a package.
pub open spec fn atlases_of(pkg: &Package) -> Option<Seq<AtlasView>> {
    optional_section(
        pkg.payload_of(5),
        crate::reader::glyph::atlases_spec(
            if pkg.payload_of(5) is Some { pkg.payload_of(5)->Some_0 } else { Seq::empty() },
        ),
    )
}

/// The IMGS images of a package.
pub open spec fn images_of(pkg: &Package) -> Option<Seq<ImageRecordView>> {
    optional_section(
        pkg.payload_of(6),
        crate::reader::image::images_spec(
            if pkg.payload_of(6) is Some { pkg.payload_of(6)->Some_0 } else { Seq::empty() },
        ),
    )
}

/// The outcome of validating the chunk graph and its references: the graph
/// invariants, then the STYL, CONT, IMGS and GLYF sections must decode,
/// then every chunk's references must resolve.
pub open spec fn validate_spec(chunks: Seq<ChunkRecord>, pkg: &Package, info: InfoView) -> Result<(), DocumentErrorKind> {
    match graph_spec(chunks) {
        Err(k) => Err(k),
        Ok(()) => if styles_of(pkg) is None || content_of(pkg) is None || images_of(pkg) is None
            || atlases_of(pkg) is None {
            Err(DocumentErrorKind::InvalidChunkGraph)
        } else {
            match refs_spec(
                chunks,
                chunks.len(),
                styles_of(pkg)->Some_0,
                content_of(pkg)->Some_0,
                images_of(pkg)->Some_0.len(),
                atlases_of(pkg)->Some_0.len(),
                info.style_count,
                info.content_count,
            ) {
                Some(k) => Err(k),
                None => Ok(()),
            }
        }
    }
}

/// A reader failure during a build, as a document error.
pub(crate) fn build_failed(error: Error) -> (r: DocumentError)
    ensures
        r.kind == DocumentErrorKind::InvalidChunkGraph,
{
    let mut message = to_owned_string("document build failed: ");
    push_str(&mut message, error.message.as_str());
    DocumentError::new(DocumentErrorKind::InvalidChunkGraph, message)
}

fn reference_error(kind: DocumentErrorKind, message: &str) -> (r: DocumentError)
    ensures
        r.kind == kind,
{
    DocumentError::new(kind, to_owned_string(message))
}

/// The STYL records, or none when absent.
pub(crate) fn styles_or_empty(package: &Package) -> (r: Result<Vec<StyleRecord>, DocumentError>)
    ensures
        match styles_of(package) {
            Some(v) => r matches Ok(x) && x@.map_values(|s: StyleRecord| s@) == v,
            None => r matches Err(e) && e.kind == DocumentErrorKind::InvalidChunkGraph,
        },
{
    match package.styles() {
        Err(e) => Err(build_failed(e)),
        Ok(None) => {
            let out: Vec<StyleRecord> = Vec::new();
            assert(out@.map_values(|s: StyleRecord| s@) =~= Seq::<StyleRecordView>::empty());
            Ok(out)
        },
        Ok(Some(records)) => Ok(records),
    }
}

/// The CONT payloads, or none when absent.
pub(crate) fn content_or_empty(package: &Package) -> (r: Result<Vec<ContentPayload>, DocumentError>)
    ensures
        match content_of(package) {
            Some(v) => r matches Ok(x) && x@.map_values(|c: ContentPayload| c@) == v,
            None => r matches Err(e) && e.kind == DocumentErrorKind::InvalidChunkGraph,
        },
{
    match package.content() {
        Err(e) => Err(build_failed(e)),
        Ok(None) => {
            let out: Vec<ContentPayload> = Vec::new();
            assert(out@.map_values(|c: ContentPayload| c@) =~= Seq::<ContentPayloadView>::empty());
            Ok(out)
        },
        Ok(Some(payloads)) => Ok(payloads),
    }
}

/// The GLYF atlases, or none when absent.
pub(crate) fn atlases_or_empty(package: &Package) -> (r: Result<Vec<Atlas>, DocumentError>)
    ensures
        match atlases_of(package) {
            Some(v) => r matches Ok(x) && x@.map_values(|a: Atlas| a@) == v,
            None => r matches Err(e) && e.kind == DocumentErrorKind::InvalidChunkGraph,
        },
{
    match package.atlases() {
        Err(e) => Err(build_failed(e)),
        Ok(None) => {
            let out: Vec<Atlas> = Vec::new();
            assert(out@.map_values(|a: Atlas| a@) =~= Seq::<AtlasView>::empty());
            Ok(out)
        },
        Ok(Some(atlases)) => Ok(atlases),
    }
}

/// The IMGS images, or none when absent.
pub(crate) fn images_or_empty(package: &Package) -> (r: Result<Vec<ImageRecord>, DocumentError>)
    ensures
        match images_of(package) {
            Some(v) => r matches Ok(x) && x@.map_values(|i: ImageRecord| i@) == v,
            None => r matches Err(e) && e.kind == DocumentErrorKind::InvalidChunkGraph,
        },
{
    match package.images() {
        Err(e) => Err(build_failed(e)),
        Ok(None) => {
            let out: Vec<ImageRecord> = Vec::new();
            assert(out@.map_values(|i: ImageRecord| i@) =~= Seq::<ImageRecordView>::empty());
            Ok(out)
        },
        Ok(Some(images)) => Ok(images),
    }
}

/// The reference checks of one chunk.
fn check_chunk_refs(
    chunk: &ChunkRecord,
    style_records: &Vec<StyleRecord>,
    content: &Vec<ContentPayload>,
    image_count: usize,
    atlas_count: usize,
    info: &Info,
) -> (r: Result<(), DocumentError>)
    ensures
        match chunk_refs(
            *chunk,
            style_records@.map_values(|s: StyleRecord| s@),
            content@.map_values(|c: ContentPayload| c@),
            image_count as nat,
            atlas_count as nat,
            info.style_count,
            info.content_count,
        ) {
            None => r is Ok,
            Some(k) => r matches Err(e) && e.kind == k,
        },
{
    let ghost styles = style_records@.map_values(|s: StyleRecord| s@);
    let ghost cv = content@.map_values(|c: ContentPayload| c@);
    if chunk.style_id >= info.style_count {
        return Err(reference_error(DocumentErrorKind::DanglingReference, "chunk style_id out of range"));
    }
    if chunk.content_index != 0 {
        if chunk.content_index > info.content_count {
            return Err(reference_error(DocumentErrorKind::DanglingReference, "chunk content_index out of range"));
        }
        let idx = (chunk.content_index - 1) as usize;
        if chunk.kind == ChunkKind::Image {
            if idx >= content.len() {
                return Err(reference_error(DocumentErrorKind::InvalidContent, "image chunk must reference an image_ref payload"));
            }
            let payload = &content[idx];
            assert(cv[idx as int] == payload@);
            if payload.kind != PayloadKind::ImageRef {
                return Err(reference_error(DocumentErrorKind::InvalidContent, "image chunk must reference an image_ref payload"));
            }
            let image_id = match &payload.data {
                ContentData::ImageRef(image_id) => *image_id,
                ContentData::Text(_) => {
                    return Err(reference_error(DocumentErrorKind::InvalidContent, "image chunk must reference an image_ref payload"));
                },
            };
            if image_id as usize >= image_count {
                return Err(reference_error(DocumentErrorKind::DanglingReference, "image ref out of range"));
            }
        } else if idx < content.len() {
            assert(cv[idx as int] == content@[idx as int]@);
            if content[idx].kind != PayloadKind::TextUtf8 {
                return Err(reference_error(DocumentErrorKind::InvalidContent, "non-image chunk must reference a text payload"));
            }
        }
    }
    let style = if (chunk.style_id as usize) < style_records.len() {
        assert(styles[chunk.style_id as int] == style_records@[chunk.style_id as int]@);
        resolve_style(&style_records[chunk.style_id as usize])
    } else {
        ResolvedStyle::default()
    };
    let bound: u32 = if atlas_count > 1 { atlas_count as u32 } else { 1 };
    if style.font_id >= bound {
        return Err(reference_error(DocumentErrorKind::DanglingReference, "style font_id out of range"));
    }
    Ok(())
}

proof fn lemma_refs_err_sticks(
    chunks: Seq<ChunkRecord>,
    m: nat,
    n: nat,
    styles: Seq<StyleRecordView>,
    content: Seq<ContentPayloadView>,
    image_count: nat,
    atlas_count: nat,
    style_count: u32,
    content_count: u32,
)
    requires
        m <= n,
        refs_spec(chunks, m, styles, content, image_count, atlas_count, style_count, content_count) is Some,
    ensures
        refs_spec(chunks, n, styles, content, image_count, atlas_count, style_count, content_count) == refs_spec(
            chunks,
            m,
            styles,
            content,
            image_count,
            atlas_count,
            style_count,
            content_count,
        ),
    decreases n - m,
{
    if m < n {
        lemma_refs_err_sticks(chunks, m, (n - 1) as nat, styles, content, image_count, atlas_count, style_count, content_count);
    }
}

/// Validate the chunk-graph invariants and resolve every reference.
pub(crate) fn validate_chunk_graph(chunks: &[ChunkRecord], package: &Package, info: &Info) -> (r: Result<(), DocumentError>)
    requires
        dense(chunks@),
    ensures
        match validate_spec(chunks@, package, info@) {
            Ok(()) => r is Ok,
            Err(k) => r matches Err(e) && e.kind == k,
        },
{
    validate_graph(chunks)?;
    let style_records = styles_or_empty(package)?;
    let content = content_or_empty(package)?;
    let images = images_or_empty(package)?;
    let atlases = atlases_or_empty(package)?;
    let ghost styles = style_records@.map_values(|s: StyleRecord| s@);
    let ghost cv = content@.map_values(|c: ContentPayload| c@);
    let image_count = images.len();
    let atlas_count = atlases.len();
    assert(image_count == images_of(package)->Some_0.len());
    assert(atlas_count == atlases_of(package)->Some_0.len());
    let mut i: usize = 0;
    while i < chunks.len()
        invariant
            i <= chunks@.len(),
            styles == style_records@.map_values(|s: StyleRecord| s@),
            cv == content@.map_values(|c: ContentPayload| c@),
            graph_spec(chunks@) is Ok,
            styles_of(package) == Some(styles),
            content_of(package) == Some(cv),
            images_of(package) is Some && images_of(package)->Some_0.len() == image_count,
            atlases_of(package) is Some && atlases_of(package)->Some_0.len() == atlas_count,
            refs_spec(chunks@, i as nat, styles, cv, image_count as nat, atlas_count as nat, info.style_count, info.content_count) is None,
        decreases chunks@.len() - i,
    {
        match check_chunk_refs(&chunks[i], &style_records, &content, image_count, atlas_count, info) {
            Ok(()) => {},
            Err(e) => {
                proof {
                    lemma_refs_err_sticks(chunks@, (i + 1) as nat, chunks@.len(), styles, cv, image_count as nat, atlas_count as nat, info.style_count, info.content_count);
                }
                return Err(e);
            },
        }
        i = i + 1;
    }
    Ok(())
}

} // verus!
