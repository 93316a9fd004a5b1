//! The trusted runtime model of a document and its construction.

use vstd::prelude::*;
use crate::document::graph::{chunk_at, dense, graph_spec};
use crate::document::load::{
    atlases_of, content_of, images_of, styles_of, validate_chunk_graph, validate_spec, atlases_or_empty,
    content_or_empty, images_or_empty, styles_or_empty,
};
use crate::document::style::{resolve_spec, resolve_style, ResolvedStyle};
use crate::document::{DocumentError, DocumentErrorKind};
use crate::reader::chunk::{ChunkExtra, ChunkExtraView, ChunkKind, ChunkRecord};
use crate::reader::content::{ContentData, ContentDataView, ContentPayload, ContentPayloadView};
use crate::reader::glyph::{Atlas, AtlasView};
use crate::reader::image::{ImageRecord, ImageRecordView};
use crate::reader::info::{Info, InfoView};
use crate::reader::style::{StyleRecord, StyleRecordView};
use crate::reader::Package;
use crate::text::{push_char, push_str, to_owned_string};

verus! {

/// The trusted runtime model of a document.
///
/// All document-order traversals are pre-order walks over the chunk tree.
#[derive(Debug)]
pub struct DocumentModel<'a> {
    package: &'a Package,
    info: Info,
    chunks: Vec<ChunkRecord>,
    extras: Vec<ChunkExtra>,
    styles: Vec<ResolvedStyle>,
    content: Vec<ContentPayload>,
    atlases: Vec<Atlas>,
    images: Vec<ImageRecord>,
    root: ChunkRecord,
}

/// The mathematical value of a [`DocumentModel`].
pub struct DocumentView {
    pub info: InfoView,
    pub chunks: Seq<ChunkRecord>,
    pub extras: Seq<ChunkExtraView>,
    pub styles: Seq<ResolvedStyle>,
    pub content: Seq<ContentPayloadView>,
    pub atlases: Seq<AtlasView>,
    pub images: Seq<ImageRecordView>,
    pub root: ChunkRecord,
}

impl<'a> View for DocumentModel<'a> {
    type V = DocumentView;

    closed spec fn view(&self) -> DocumentView {
        DocumentView {
            info: self.info@,
            chunks: self.chunks@,
            extras: self.extras@.map_values(|e: ChunkExtra| e@),
            styles: self.styles@,
            content: self.content@.map_values(|c: ContentPayload| c@),
            atlases: self.atlases@.map_values(|a: Atlas| a@),
            images: self.images@.map_values(|i: ImageRecord| i@),
            root: self.root,
        }
    }
}

/// The resolved style table: each record resolved against the defaults.
pub open spec fn resolved_table(styles: Seq<StyleRecordView>) -> Seq<ResolvedStyle> {
    styles.map_values(|r: StyleRecordView| resolve_spec(r.properties, r.properties.len()))
}

/// The outcome of building a document from a package: INFO and CHNK must
/// be present and decode; the chunk graph and its references must
/// validate; then the five INFO counts must match the decoded chunk,
/// style, content, atlas and image tables, in that order.
pub open spec fn build_spec(pkg: &Package) -> Result<DocumentView, DocumentErrorKind> {
    match pkg.payload_of(1) {
        None => Err(DocumentErrorKind::MissingSection),
        Some(ip) => match crate::reader::info::info_spec(ip) {
            Err(_) => Err(DocumentErrorKind::InvalidChunkGraph),
            Ok(info) => match pkg.payload_of(2) {
                None => Err(DocumentErrorKind::MissingSection),
                Some(cp) => match crate::reader::chunk::chunk_section_spec(cp) {
                    Err(_) => Err(DocumentErrorKind::InvalidChunkGraph),
                    Ok(cs) => match validate_spec(cs.chunks, pkg, info) {
                        Err(k) => Err(k),
                        Ok(()) => {
                            let styles = styles_of(pkg)->Some_0;
                            let content = content_of(pkg)->Some_0;
                            let atlases = atlases_of(pkg)->Some_0;
                            let images = images_of(pkg)->Some_0;
                            if info.chunk_count != cs.chunks.len() {
                                Err(DocumentErrorKind::CountMismatch)
                            } else if info.style_count != styles.len() {
                                Err(DocumentErrorKind::CountMismatch)
                            } else if info.content_count != content.len() {
                                Err(DocumentErrorKind::CountMismatch)
                            } else if info.atlas_count != atlases.len() {
                                Err(DocumentErrorKind::CountMismatch)
                            } else if info.image_count != images.len() {
                                Err(DocumentErrorKind::CountMismatch)
                            } else {
                                Ok(DocumentView {
                                    info,
                                    chunks: cs.chunks,
                                    extras: cs.extras,
                                    styles: resolved_table(styles),
                                    content,
                                    atlases,
                                    images,
                                    root: cs.chunks[0],
                                })
                            }
                        },
                    },
                },
            },
        },
    }
}

fn count_error(message: &str) -> (r: DocumentError)
    ensures
        r.kind == DocumentErrorKind::CountMismatch,
{
    DocumentError::new(DocumentErrorKind::CountMismatch, to_owned_string(message))
}

/// Resolve every style record.
fn resolve_all(records: &Vec<StyleRecord>) -> (r: Vec<ResolvedStyle>)
    ensures
        r@ == resolved_table(records@.map_values(|s: StyleRecord| s@)),
{
    let ghost views = records@.map_values(|s: StyleRecord| s@);
    let mut out: Vec<ResolvedStyle> = Vec::new();
    let mut i: usize = 0;
    while i < records.len()
        invariant
            i <= records@.len(),
            views == records@.map_values(|s: StyleRecord| s@),
            out@ == resolved_table(views).take(i as int),
        decreases records@.len() - i,
    {
        let s = resolve_style(&records[i]);
        out.push(s);
        assert(out@ =~= resolved_table(views).take((i + 1) as int));
        i = i + 1;
    }
    assert(resolved_table(views).take(records@.len() as int) =~= resolved_table(views));
    out
}

/// Build and validate a [`DocumentModel`] from a parsed package.
///
/// Validation order: required sections, then the chunk-graph invariants
/// and references (using the INFO counts), then the five INFO count
/// cross-checks.
pub fn build_document<'a>(package: &'a Package) -> (r: Result<DocumentModel<'a>, DocumentError>)
    ensures
        match build_spec(package) {
            Ok(v) => r matches Ok(m) && m@ == v && m.source() == package,
            Err(k) => r matches Err(e) && e.kind == k,
        },
{
    let info = match package.info() {
        Err(e) => {
            return Err(crate::document::load::build_failed(e));
        },
        Ok(None) => {
            return Err(DocumentError::new(DocumentErrorKind::MissingSection, to_owned_string("package has no INFO section")));
        },
        Ok(Some(info)) => info,
    };
    let section = match package.chunks() {
        Err(e) => {
            return Err(crate::document::load::build_failed(e));
        },
        Ok(None) => {
            return Err(DocumentError::new(DocumentErrorKind::MissingSection, to_owned_string("package has no CHNK section")));
        },
        Ok(Some(section)) => section,
    };
    proof {
        crate::reader::chunk::lemma_section_dense(package.payload_of(2)->Some_0);
    }
    let chunks = section.chunks;
    let extras = section.extras;
    validate_chunk_graph(chunks.as_slice(), package, &info)?;
    let style_records = styles_or_empty(package)?;
    let styles = resolve_all(&style_records);
    let content = content_or_empty(package)?;
    let atlases = atlases_or_empty(package)?;
    let images = images_or_empty(package)?;
    if info.chunk_count as usize != chunks.len() {
        return Err(count_error("INFO chunk_count differs from the CHNK records"));
    }
    if info.style_count as usize != styles.len() {
        return Err(count_error("INFO style_count differs from the STYL records"));
    }
    if info.content_count as usize != content.len() {
        return Err(count_error("INFO content_count differs from the CONT payloads"));
    }
    if info.atlas_count as usize != atlases.len() {
        return Err(count_error("INFO atlas_count differs from the GLYF atlases"));
    }
    if info.image_count as usize != images.len() {
        return Err(count_error("INFO image_count differs from the IMGS images"));
    }
    let root = chunks[0];
    Ok(DocumentModel { package, info, chunks, extras, styles, content, atlases, images, root })
}

impl<'a> DocumentModel<'a> {
    /// The package the model was built from.
    pub closed spec fn source(&self) -> &'a Package {
        self.package
    }

    /// The validated package this model was built from.
    pub fn package(&self) -> (r: &'a Package)
        ensures
            r == self.source(),
    {
        self.package
    }

    /// The validated INFO metadata.
    pub fn info(&self) -> (r: &Info)
        ensures
            r@ == self@.info,
    {
        &self.info
    }

    /// Chunk records indexed by id (`chunks[i]` has id `i + 1`).
    pub fn chunks(&self) -> (r: &[ChunkRecord])
        ensures
            r@ == self@.chunks,
    {
        self.chunks.as_slice()
    }

    /// Resolved styles indexed by style id (defaults applied).
    pub fn styles(&self) -> (r: &[ResolvedStyle])
        ensures
            r@ == self@.styles,
    {
        self.styles.as_slice()
    }

    /// Content payloads indexed by payload id.
    pub fn content(&self) -> (r: &[ContentPayload])
        ensures
            r@.map_values(|c: ContentPayload| c@) == self@.content,
    {
        self.content.as_slice()
    }

    /// Atlases indexed by font id.
    pub fn atlases(&self) -> (r: &[Atlas])
        ensures
            r@.map_values(|a: Atlas| a@) == self@.atlases,
    {
        self.atlases.as_slice()
    }

    /// Images indexed by image id.
    pub fn images(&self) -> (r: &[ImageRecord])
        ensures
            r@.map_values(|i: ImageRecord| i@) == self@.images,
    {
        self.images.as_slice()
    }

    /// The document root chunk.
    pub fn root(&self) -> (r: &ChunkRecord)
        ensures
            *r == self@.root,
    {
        &self.root
    }

    /// The chunk with the given id, or `None`.
    pub fn chunk(&self, id: u32) -> (r: Option<&ChunkRecord>)
        ensures
            match chunk_at(self@.chunks, id) {
                Some(c) => r matches Some(x) && *x == c,
                None => r is None,
            },
    {
        if id < 1 || id as usize > self.chunks.len() {
            return None;
        }
        Some(&self.chunks[(id - 1) as usize])
    }

    /// The child ids of a chunk, in document order (empty for leaves).
    pub fn child_ids(&self, id: u32) -> (r: Vec<u32>)
        ensures
            r@ == children_of(self@.chunks, id),
    {
        let chunk = match self.chunk(id) {
            Some(c) => c,
            None => {
                return Vec::new();
            },
        };
        let n = self.chunks.len();
        let mut out: Vec<u32> = Vec::new();
        let mut child = chunk.first_child_id;
        while child != 0 && out.len() <= n
            invariant_except_break
                n == self@.chunks.len(),
                out@.len() <= n + 1,
                children_of(self@.chunks, id) == child_walk(self@.chunks, *chunk, child, out@),
                chunk_at(self@.chunks, id) == Some(*chunk),
            ensures
                children_of(self@.chunks, id) == out@,
            decreases n + 1 - out@.len(),
        {
            out.push(child);
            if child == chunk.last_child_id {
                break;
            }
            match self.chunk(child) {
                Some(next) => {
                    child = next.next_id;
                },
                None => {
                    break;
                },
            }
        }
        out
    }

    /// All chunk ids in document order (a pre-order walk from the root).
    pub fn all_ids(&self) -> (r: Vec<u32>)
        ensures
            r@ == preorder(self@.chunks, seq![self@.root.id], self@.chunks.len()),
    {
        let n = self.chunks.len();
        let mut out: Vec<u32> = Vec::new();
        let mut stack: Vec<u32> = vec![self.root.id];
        let mut fuel: usize = n;
        assert(out@ + preorder(self@.chunks, stack@, fuel as nat) =~= preorder(self@.chunks, seq![self@.root.id], n as nat));
        while fuel > 0 && stack.len() > 0
            invariant
                n == self@.chunks.len(),
                fuel <= n,
                out@ + preorder(self@.chunks, stack@, fuel as nat) == preorder(self@.chunks, seq![self@.root.id], n as nat),
            decreases fuel,
        {
            let ghost before_out = out@;
            let ghost before_stack = stack@;
            let id = stack.pop().unwrap();
            out.push(id);
            let children = self.child_ids(id);
            let mut k = children.len();
            while k > 0
                invariant
                    k <= children@.len(),
                    stack@ == before_stack.drop_last() + children@.subrange(k as int, children@.len() as int).reverse(),
                decreases k,
            {
                k = k - 1;
                stack.push(children[k]);
                assert(children@.subrange(k as int, children@.len() as int).reverse() =~= children@.subrange(
                    (k + 1) as int,
                    children@.len() as int,
                ).reverse().push(children@[k as int]));
            }
            proof {
                assert(children@.subrange(0, children@.len() as int) =~= children@);
                assert(out@ + preorder(self@.chunks, stack@, (fuel - 1) as nat) =~= before_out + preorder(
                    self@.chunks,
                    before_stack,
                    fuel as nat,
                ));
            }
            fuel = fuel - 1;
        }
        assert(preorder(self@.chunks, stack@, fuel as nat) =~= Seq::<u32>::empty());
        assert(out@ + Seq::<u32>::empty() =~= out@);
        out
    }

    /// The extras attached to a chunk, in file order (empty when none).
    pub fn extras_for(&self, id: u32) -> (r: Vec<&ChunkExtra>)
        ensures
            r@.map_values(|e: &ChunkExtra| e@) == extras_of(self@.extras, id, self@.extras.len()),
    {
        let ghost xs = self@.extras;
        let mut out: Vec<&ChunkExtra> = Vec::new();
        let mut i: usize = 0;
        while i < self.extras.len()
            invariant
                xs == self@.extras,
                xs == self.extras@.map_values(|e: ChunkExtra| e@),
                i <= xs.len(),
                out@.map_values(|e: &ChunkExtra| e@) == extras_of(xs, id, i as nat),
            decreases xs.len() - i,
        {
            let ghost before = out@;
            if self.extras[i].chunk_id == id {
                out.push(&self.extras[i]);
                assert(out@.map_values(|e: &ChunkExtra| e@) =~= before.map_values(|e: &ChunkExtra| e@).push(xs[i as int]));
            }
            i = i + 1;
        }
        out
    }

    /// The text content of a single chunk's direct payload (no traversal).
    pub fn direct_text(&self, id: u32) -> (r: Option<&str>)
        ensures
            match direct_text_of(self@, id) {
                Some(t) => r matches Some(s) && s@ == t,
                None => r is None,
            },
    {
        let chunk = match self.chunk(id) {
            Some(c) => c,
            None => {
                return None;
            },
        };
        if chunk.content_index == 0 {
            return None;
        }
        let idx = (chunk.content_index - 1) as usize;
        if idx >= self.content.len() {
            return None;
        }
        let payload = &self.content[idx];
        assert(self@.content[idx as int] == payload@);
        match &payload.data {
            ContentData::Text(text) => Some(text.as_str()),
            ContentData::ImageRef(_) => None,
        }
    }

    /// The image id referenced by an image chunk's payload.
    pub fn image_ref(&self, id: u32) -> (r: Option<u32>)
        ensures
            r == image_ref_of(self@, id),
    {
        let chunk = match self.chunk(id) {
            Some(c) => c,
            None => {
                return None;
            },
        };
        if chunk.content_index == 0 {
            return None;
        }
        let idx = (chunk.content_index - 1) as usize;
        if idx >= self.content.len() {
            return None;
        }
        let payload = &self.content[idx];
        assert(self@.content[idx as int] == payload@);
        match &payload.data {
            ContentData::ImageRef(image_id) => Some(*image_id),
            ContentData::Text(_) => None,
        }
    }

    /// The plain text of a subtree in document order (used by selection and
    /// copy): block chunks concatenate their descendants; a chunk's direct
    /// text comes before its children's; `br` chunks contribute a newline.
    pub fn plain_text(&self, id: u32) -> (r: String)
        ensures
            r@ == plain(self@, seq![id], self@.chunks.len()),
    {
        let n = self.chunks.len();
        let mut out = String::new();
        let mut stack: Vec<u32> = vec![id];
        let mut fuel: usize = n;
        assert(out@ =~= Seq::<char>::empty());
        assert(stack@ =~= seq![id]);
        assert(out@ + plain(self@, stack@, fuel as nat) =~= plain(self@, seq![id], n as nat));
        while fuel > 0 && stack.len() > 0
            invariant
                n == self@.chunks.len(),
                out@ + plain(self@, stack@, fuel as nat) == plain(self@, seq![id], n as nat),
            decreases fuel,
        {
            let ghost before_out = out@;
            let ghost before_stack = stack@;
            let current = stack.pop().unwrap();
            match self.chunk(current) {
                None => {},
                Some(chunk) => {
                    if chunk.kind == ChunkKind::Br {
                        push_char(&mut out, '\n');
                    } else {
                        match self.direct_text(current) {
                            Some(text) => push_str(&mut out, text),
                            None => {},
                        }
                        let children = self.child_ids(current);
                        let mut k = children.len();
                        while k > 0
                            invariant
                                k <= children@.len(),
                                stack@ == before_stack.drop_last() + children@.subrange(k as int, children@.len() as int).reverse(),
                            decreases k,
                        {
                            k = k - 1;
                            stack.push(children[k]);
                            assert(children@.subrange(k as int, children@.len() as int).reverse() =~= children@.subrange(
                                (k + 1) as int,
                                children@.len() as int,
                            ).reverse().push(children@[k as int]));
                        }
                        assert(children@.subrange(0, children@.len() as int) =~= children@);
                    }
                },
            }
            proof {
                assert(out@ + plain(self@, stack@, (fuel - 1) as nat) =~= before_out + plain(self@, before_stack, fuel as nat));
            }
            fuel = fuel - 1;
        }
        assert(plain(self@, stack@, fuel as nat) =~= Seq::<char>::empty());
        assert(out@ + Seq::<char>::empty() =~= out@);
        out
    }
}

/// Walking a sibling ring from `child` with `acc` walked so far: each child
/// is taken, the walk stops after `last_child`, at an id with no chunk, at
/// id 0, or once it has taken more children than there are chunks.
pub open spec fn child_walk(chunks: Seq<ChunkRecord>, parent: ChunkRecord, child: u32, acc: Seq<u32>) -> Seq<u32>
    decreases chunks.len() + 1 - acc.len(),
    when acc.len() <= chunks.len() + 1
{
    if child == 0 || acc.len() > chunks.len() {
        acc
    } else {
        let acc2 = acc.push(child);
        if child == parent.last_child_id {
            acc2
        } else {
            match chunk_at(chunks, child) {
                None => acc2,
                Some(cc) => child_walk(chunks, parent, cc.next_id, acc2),
            }
        }
    }
}

/// The child ids of chunk `id` in ring order.
pub open spec fn children_of(chunks: Seq<ChunkRecord>, id: u32) -> Seq<u32> {
    match chunk_at(chunks, id) {
        None => Seq::empty(),
        Some(c) => child_walk(chunks, c, c.first_child_id, Seq::empty()),
    }
}

/// The pre-order walk from `stack` (top at the end), taking at most `fuel`
/// ids: the top id comes first, then its children's walks in ring order.
pub open spec fn preorder(chunks: Seq<ChunkRecord>, stack: Seq<u32>, fuel: nat) -> Seq<u32>
    decreases fuel,
{
    if fuel == 0 || stack.len() == 0 {
        Seq::empty()
    } else {
        let id = stack.last();
        seq![id] + preorder(chunks, stack.drop_last() + children_of(chunks, id).reverse(), (fuel - 1) as nat)
    }
}

/// The extras among the first `n` whose chunk is `id`, in order.
pub open spec fn extras_of(extras: Seq<ChunkExtraView>, id: u32, n: nat) -> Seq<ChunkExtraView>
    decreases n,
{
    if n == 0 {
        Seq::empty()
    } else if extras[n - 1].chunk_id == id {
        extras_of(extras, id, (n - 1) as nat).push(extras[n - 1])
    } else {
        extras_of(extras, id, (n - 1) as nat)
    }
}

/// The content payload a chunk references, if any.
pub open spec fn payload_of_chunk(m: DocumentView, id: u32) -> Option<ContentPayloadView> {
    match chunk_at(m.chunks, id) {
        None => None,
        Some(c) => if c.content_index == 0 || c.content_index - 1 >= m.content.len() {
            None
        } else {
            Some(m.content[c.content_index - 1])
        },
    }
}

/// A chunk's direct text, if its payload is text.
pub open spec fn direct_text_of(m: DocumentView, id: u32) -> Option<Seq<char>> {
    match payload_of_chunk(m, id) {
        Some(p) => match p.data {
            ContentDataView::Text(t) => Some(t),
            ContentDataView::ImageRef(_) => None,
        },
        None => None,
    }
}

/// A chunk's image id, if its payload is an image reference.
pub open spec fn image_ref_of(m: DocumentView, id: u32) -> Option<u32> {
    match payload_of_chunk(m, id) {
        Some(p) => match p.data {
            ContentDataView::ImageRef(i) => Some(i),
            ContentDataView::Text(_) => None,
        },
        None => None,
    }
}

/// The plain text of the walk from `stack`, taking at most `fuel` ids: a
/// `br` chunk gives a newline, any other chunk its direct text followed by
/// its children's text; ids without a chunk give nothing.
pub open spec fn plain(m: DocumentView, stack: Seq<u32>, fuel: nat) -> Seq<char>
    decreases fuel,
{
    if fuel == 0 || stack.len() == 0 {
        Seq::empty()
    } else {
        let id = stack.last();
        let rest = stack.drop_last();
        match chunk_at(m.chunks, id) {
            None => plain(m, rest, (fuel - 1) as nat),
            Some(c) => if c.kind == ChunkKind::Br {
                seq!['\n'] + plain(m, rest, (fuel - 1) as nat)
            } else {
                let own = match direct_text_of(m, id) {
                    Some(t) => t,
                    None => Seq::empty(),
                };
                own + plain(m, rest + children_of(m.chunks, id).reverse(), (fuel - 1) as nat)
            },
        }
    }
}

} // verus!
