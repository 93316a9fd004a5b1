//! CHNK section decoder: the chunk graph — fixed 44-byte chunk records
//! followed by variable extras. The reader validates the raw record
//! structure (dense ids, kind range, flag bits, depth, structural-flag
//! consistency); the document model validates the graph invariants.

pub mod flags;

use vstd::prelude::*;
use crate::error::{error_at, Error, ErrorKind};
use crate::limits::{MAX_CHUNK_COUNT, MAX_CHUNK_DEPTH, MAX_EXTRA_COUNT};
use crate::reader::cursor::{le_u16, le_u32, take_bytes, take_int, take_utf8, Cursor};

verus! {

/// The chunk record length in bytes.
pub const CHUNK_RECORD_LEN: usize = 44;

/// The chunk kinds (codes 1..=21 in declaration order).
#[derive(Debug, Clone, Copy, PartialEq, Eq, Hash, Structural)]
pub enum ChunkKind {
    /// `document` (1) — structural.
    Document,
    /// `heading1` (2).
    Heading1,
    /// `heading2` (3).
    Heading2,
    /// `heading3` (4).
    Heading3,
    /// `heading4` (5).
    Heading4,
    /// `heading5` (6).
    Heading5,
    /// `heading6` (7).
    Heading6,
    /// `paragraph` (8).
    Paragraph,
    /// `quote` (9).
    Quote,
    /// `list` (10) — structural.
    List,
    /// `list_item` (11) (renders a marker).
    ListItem,
    /// `code_block` (12).
    CodeBlock,
    /// `table` (13) — structural.
    Table,
    /// `table_row` (14) — structural.
    TableRow,
    /// `table_cell` (15).
    TableCell,
    /// `image` (16).
    Image,
    /// `caption` (17).
    Caption,
    /// `run` (18) — inline text.
    Run,
    /// `link` (19) — inline.
    Link,
    /// `br` (20) — inline.
    Br,
    /// `hr` (21).
    Hr,
}

/// The chunk kind a code denotes.
pub open spec fn chunk_kind_of(code: u8) -> Option<ChunkKind> {
    if code == 1 { Some(ChunkKind::Document) }
    else if code == 2 { Some(ChunkKind::Heading1) }
    else if code == 3 { Some(ChunkKind::Heading2) }
    else if code == 4 { Some(ChunkKind::Heading3) }
    else if code == 5 { Some(ChunkKind::Heading4) }
    else if code == 6 { Some(ChunkKind::Heading5) }
    else if code == 7 { Some(ChunkKind::Heading6) }
    else if code == 8 { Some(ChunkKind::Paragraph) }
    else if code == 9 { Some(ChunkKind::Quote) }
    else if code == 10 { Some(ChunkKind::List) }
    else if code == 11 { Some(ChunkKind::ListItem) }
    else if code == 12 { Some(ChunkKind::CodeBlock) }
    else if code == 13 { Some(ChunkKind::Table) }
    else if code == 14 { Some(ChunkKind::TableRow) }
    else if code == 15 { Some(ChunkKind::TableCell) }
    else if code == 16 { Some(ChunkKind::Image) }
    else if code == 17 { Some(ChunkKind::Caption) }
    else if code == 18 { Some(ChunkKind::Run) }
    else if code == 19 { Some(ChunkKind::Link) }
    else if code == 20 { Some(ChunkKind::Br) }
    else if code == 21 { Some(ChunkKind::Hr) }
    else { None }
}

/// The structural wrappers: document, list, table, table row.
pub open spec fn kind_is_structural(kind: ChunkKind) -> bool {
    kind == ChunkKind::Document || kind == ChunkKind::List || kind == ChunkKind::Table || kind
        == ChunkKind::TableRow
}

impl ChunkKind {
    /// Interpret a chunk kind code; `None` for out-of-range codes.
    pub fn from_code(code: u8) -> (r: Option<Self>)
        ensures
            r == chunk_kind_of(code),
    {
        match code {
            1 => Some(ChunkKind::Document),
            2 => Some(ChunkKind::Heading1),
            3 => Some(ChunkKind::Heading2),
            4 => Some(ChunkKind::Heading3),
            5 => Some(ChunkKind::Heading4),
            6 => Some(ChunkKind::Heading5),
            7 => Some(ChunkKind::Heading6),
            8 => Some(ChunkKind::Paragraph),
            9 => Some(ChunkKind::Quote),
            10 => Some(ChunkKind::List),
            11 => Some(ChunkKind::ListItem),
            12 => Some(ChunkKind::CodeBlock),
            13 => Some(ChunkKind::Table),
            14 => Some(ChunkKind::TableRow),
            15 => Some(ChunkKind::TableCell),
            16 => Some(ChunkKind::Image),
            17 => Some(ChunkKind::Caption),
            18 => Some(ChunkKind::Run),
            19 => Some(ChunkKind::Link),
            20 => Some(ChunkKind::Br),
            21 => Some(ChunkKind::Hr),
            _ => None,
        }
    }

    /// The kind's code (1 for `Document` up to 21 for `Hr`); the inverse
    /// of [`from_code`](Self::from_code).
    pub fn code(self) -> (r: u8)
        ensures
            1 <= r <= 21,
            chunk_kind_of(r) == Some(self),
    {
        match self {
            ChunkKind::Document => 1,
            ChunkKind::Heading1 => 2,
            ChunkKind::Heading2 => 3,
            ChunkKind::Heading3 => 4,
            ChunkKind::Heading4 => 5,
            ChunkKind::Heading5 => 6,
            ChunkKind::Heading6 => 7,
            ChunkKind::Paragraph => 8,
            ChunkKind::Quote => 9,
            ChunkKind::List => 10,
            ChunkKind::ListItem => 11,
            ChunkKind::CodeBlock => 12,
            ChunkKind::Table => 13,
            ChunkKind::TableRow => 14,
            ChunkKind::TableCell => 15,
            ChunkKind::Image => 16,
            ChunkKind::Caption => 17,
            ChunkKind::Run => 18,
            ChunkKind::Link => 19,
            ChunkKind::Br => 20,
            ChunkKind::Hr => 21,
        }
    }

    /// Whether the kind is a structural wrapper (document, list, table,
    /// table row).
    pub fn is_structural(self) -> (r: bool)
        ensures
            r == kind_is_structural(self),
    {
        match self {
            ChunkKind::Document | ChunkKind::List | ChunkKind::Table | ChunkKind::TableRow => true,
            _ => false,
        }
    }
}

/// A fixed 44-byte chunk record.
#[derive(Debug, Clone, Copy, PartialEq, Eq, Structural)]
pub struct ChunkRecord {
    /// 1-based, dense in document order; 0 = "none" sentinel in link fields.
    pub id: u32,
    /// The chunk kind.
    pub kind: ChunkKind,
    /// The flag bitmask.
    pub flags: u8,
    /// Style id (0 = document default style).
    pub style_id: u32,
    /// Parent id (0 = none).
    pub parent_id: u32,
    /// Previous sibling id (0 = none).
    pub prev_id: u32,
    /// Next sibling id (0 = none).
    pub next_id: u32,
    /// First child id (0 = none).
    pub first_child_id: u32,
    /// Last child id (0 = none).
    pub last_child_id: u32,
    /// 1-based index into CONT (0 = none).
    pub content_index: u32,
    /// Dense, 0-based, document order.
    pub ordinal: u32,
    /// Depth (root = 0).
    pub depth: u32,
}

/// Extra kinds (codes 1..=4 in declaration order).
#[derive(Debug, Clone, Copy, PartialEq, Eq, Structural)]
pub enum ExtraKind {
    /// `link_target`: `u16 url_len`, UTF-8 URL bytes.
    LinkTarget,
    /// `cell_span`: `u16 colspan`, `u16 rowspan`.
    CellSpan,
    /// `list_item_value`: `u32` explicit ordinal (0 = auto).
    ListItemValue,
    /// `image_alt`: UTF-8 alt text.
    ImageAlt,
}

/// The extra kind a code denotes.
pub open spec fn extra_kind_of(code: u8) -> Option<ExtraKind> {
    if code == 1 {
        Some(ExtraKind::LinkTarget)
    } else if code == 2 {
        Some(ExtraKind::CellSpan)
    } else if code == 3 {
        Some(ExtraKind::ListItemValue)
    } else if code == 4 {
        Some(ExtraKind::ImageAlt)
    } else {
        None
    }
}

impl ExtraKind {
    /// Interpret an extra kind code; `None` for out-of-range codes.
    pub fn from_code(code: u8) -> (r: Option<Self>)
        ensures
            r == extra_kind_of(code),
    {
        match code {
            1 => Some(ExtraKind::LinkTarget),
            2 => Some(ExtraKind::CellSpan),
            3 => Some(ExtraKind::ListItemValue),
            4 => Some(ExtraKind::ImageAlt),
            _ => None,
        }
    }
}

/// The decoded data of a chunk extra.
#[derive(Debug, Clone, PartialEq, Eq)]
pub enum ExtraData {
    /// `link_target`: the link URL.
    LinkTarget {
        /// The link URL.
        url: String,
    },
    /// `cell_span`: column and row spans (each ≥ 1).
    CellSpan {
        /// The column span.
        colspan: u16,
        /// The row span.
        rowspan: u16,
    },
    /// `list_item_value`: the explicit ordinal (0 = auto).
    ListItemValue {
        /// The explicit ordinal (0 = auto).
        value: u32,
    },
    /// `image_alt`: the alt text.
    ImageAlt {
        /// The alt text.
        text: String,
    },
}

/// The mathematical value of an extra's data (text as characters).
pub enum ExtraDataView {
    /// A link URL.
    LinkTarget { url: Seq<char> },
    /// Column and row spans.
    CellSpan { colspan: u16, rowspan: u16 },
    /// An explicit list ordinal.
    ListItemValue { value: u32 },
    /// Alt text.
    ImageAlt { text: Seq<char> },
}

impl View for ExtraData {
    type V = ExtraDataView;

    open spec fn view(&self) -> ExtraDataView {
        match self {
            ExtraData::LinkTarget { url } => ExtraDataView::LinkTarget { url: url@ },
            ExtraData::CellSpan { colspan, rowspan } => ExtraDataView::CellSpan {
                colspan: *colspan,
                rowspan: *rowspan,
            },
            ExtraData::ListItemValue { value } => ExtraDataView::ListItemValue { value: *value },
            ExtraData::ImageAlt { text } => ExtraDataView::ImageAlt { text: text@ },
        }
    }
}

/// A chunk extra.
#[derive(Debug, Clone, PartialEq, Eq)]
pub struct ChunkExtra {
    /// The chunk the extra is attached to.
    pub chunk_id: u32,
    /// The extra kind.
    pub kind: ExtraKind,
    /// The decoded data.
    pub data: ExtraData,
}

/// The mathematical value of a chunk extra.
pub struct ChunkExtraView {
    /// The chunk the extra is attached to.
    pub chunk_id: u32,
    /// The extra kind.
    pub kind: ExtraKind,
    /// The decoded data.
    pub data: ExtraDataView,
}

impl View for ChunkExtra {
    type V = ChunkExtraView;

    open spec fn view(&self) -> ChunkExtraView {
        ChunkExtraView { chunk_id: self.chunk_id, kind: self.kind, data: self.data@ }
    }
}

/// The decoded CHNK section.
#[derive(Debug, Clone, PartialEq, Eq)]
pub struct ChunkSection {
    /// Chunk records in id order.
    pub chunks: Vec<ChunkRecord>,
    /// Extras in file order.
    pub extras: Vec<ChunkExtra>,
}

/// The mathematical value of a CHNK section.
pub struct ChunkSectionView {
    /// Chunk records in id order.
    pub chunks: Seq<ChunkRecord>,
    /// Extras in file order.
    pub extras: Seq<ChunkExtraView>,
}

impl View for ChunkSection {
    type V = ChunkSectionView;

    open spec fn view(&self) -> ChunkSectionView {
        ChunkSectionView {
            chunks: self.chunks@,
            extras: self.extras@.map_values(|e: ChunkExtra| e@),
        }
    }
}

/// Whether the structural flag bit (bit 4) is set.
pub open spec fn has_structural_flag(flags: u8) -> bool {
    (flags / 16) % 2 == 1
}

/// The outcome of decoding one 44-byte chunk record expected to carry id
/// `i + 1`.
#[verifier::opaque]
pub open spec fn chunk_record_spec(rec: Seq<u8>, i: int) -> Result<ChunkRecord, ErrorKind> {
    let id = le_u32(rec.subrange(0, 4));
    let kind = chunk_kind_of(rec[4]);
    let flags = rec[5];
    let reserved = le_u16(rec.subrange(6, 8));
    let depth = le_u32(rec.subrange(40, 44));
    if id != i + 1 {
        Err(ErrorKind::InvalidValue)
    } else if kind is None {
        Err(ErrorKind::InvalidValue)
    } else if reserved != 0 {
        Err(ErrorKind::InvalidFlags)
    } else if flags > 31 {
        Err(ErrorKind::InvalidValue)
    } else if depth > 65536 {
        Err(ErrorKind::InvalidValue)
    } else if kind_is_structural(kind->0) != has_structural_flag(flags) {
        Err(ErrorKind::InvalidValue)
    } else {
        Ok(ChunkRecord {
            id,
            kind: kind->0,
            flags,
            style_id: le_u32(rec.subrange(8, 12)),
            parent_id: le_u32(rec.subrange(12, 16)),
            prev_id: le_u32(rec.subrange(16, 20)),
            next_id: le_u32(rec.subrange(20, 24)),
            first_child_id: le_u32(rec.subrange(24, 28)),
            last_child_id: le_u32(rec.subrange(28, 32)),
            content_index: le_u32(rec.subrange(32, 36)),
            ordinal: le_u32(rec.subrange(36, 40)),
            depth,
        })
    }
}

/// Decoding the first `n` chunk records of a CHNK payload (record `k` at
/// byte `4 + 44 * k`).
pub open spec fn records_spec(p: Seq<u8>, n: nat) -> Result<Seq<ChunkRecord>, ErrorKind>
    decreases n,
{
    if n == 0 {
        Ok(Seq::empty())
    } else {
        match records_spec(p, (n - 1) as nat) {
            Err(k) => Err(k),
            Ok(rs) => match take_bytes(p, 4 + 44 * (n - 1), 44) {
                Err(k) => Err(k),
                Ok(rec) => match chunk_record_spec(rec, n - 1) {
                    Err(k) => Err(k),
                    Ok(r) => Ok(rs.push(r)),
                },
            },
        }
    }
}

/// The outcome of decoding the body of an extra of the given kind whose
/// declared length is `length`, starting at `pos`: the data and the end
/// position.
pub open spec fn extra_body_spec(p: Seq<u8>, pos: int, kind: ExtraKind, length: int) -> Result<(ExtraDataView, int), ErrorKind> {
    match kind {
        ExtraKind::LinkTarget => match take_int(p, pos, 2) {
            Err(k) => Err(k),
            Ok(url_len) => match take_utf8(p, pos + 2, url_len) {
                Err(k) => Err(k),
                Ok(url) => if url_len + 2 != length {
                    Err(ErrorKind::InvalidValue)
                } else {
                    Ok((ExtraDataView::LinkTarget { url }, pos + 2 + url_len))
                },
            },
        },
        ExtraKind::CellSpan => match take_int(p, pos, 2) {
            Err(k) => Err(k),
            Ok(colspan) => match take_int(p, pos + 2, 2) {
                Err(k) => Err(k),
                Ok(rowspan) => if colspan == 0 || rowspan == 0 {
                    Err(ErrorKind::InvalidValue)
                } else if length != 4 {
                    Err(ErrorKind::InvalidValue)
                } else {
                    Ok((ExtraDataView::CellSpan { colspan: colspan as u16, rowspan: rowspan as u16 }, pos + 4))
                },
            },
        },
        ExtraKind::ListItemValue => match take_int(p, pos, 4) {
            Err(k) => Err(k),
            Ok(value) => if length != 4 {
                Err(ErrorKind::InvalidValue)
            } else {
                Ok((ExtraDataView::ListItemValue { value: value as u32 }, pos + 4))
            },
        },
        ExtraKind::ImageAlt => match take_utf8(p, pos, length) {
            Err(k) => Err(k),
            Ok(text) => Ok((ExtraDataView::ImageAlt { text }, pos + length)),
        },
    }
}

/// The outcome of decoding one extra starting at `pos`: the extra and the
/// end position.
#[verifier::opaque]
pub open spec fn extra_spec(p: Seq<u8>, pos: int) -> Result<(ChunkExtraView, int), ErrorKind> {
    match take_int(p, pos, 4) {
        Err(k) => Err(k),
        Ok(chunk_id) => match take_int(p, pos + 4, 1) {
            Err(k) => Err(k),
            Ok(code) => match extra_kind_of(code as u8) {
                None => Err(ErrorKind::InvalidValue),
                Some(kind) => match take_int(p, pos + 5, 1) {
                    Err(k) => Err(k),
                    Ok(flags) => match take_int(p, pos + 6, 2) {
                        Err(k) => Err(k),
                        Ok(length) => if flags != 0 {
                            Err(ErrorKind::InvalidFlags)
                        } else {
                            match extra_body_spec(p, pos + 8, kind, length) {
                                Err(k) => Err(k),
                                Ok((data, end)) => Ok(
                                    (ChunkExtraView { chunk_id: chunk_id as u32, kind, data }, end),
                                ),
                            }
                        },
                    },
                },
            },
        },
    }
}

/// Decoding `n` consecutive extras starting at `start`: the extras and the
/// end position.
pub open spec fn extras_spec(p: Seq<u8>, start: int, n: nat) -> Result<(Seq<ChunkExtraView>, int), ErrorKind>
    decreases n,
{
    if n == 0 {
        Ok((Seq::empty(), start))
    } else {
        match extras_spec(p, start, (n - 1) as nat) {
            Err(k) => Err(k),
            Ok((es, pos)) => match extra_spec(p, pos) {
                Err(k) => Err(k),
                Ok((e, end)) => Ok((es.push(e), end)),
            },
        }
    }
}

/// The outcome of decoding a CHNK payload.
pub open spec fn chunk_section_spec(p: Seq<u8>) -> Result<ChunkSectionView, ErrorKind> {
    match take_int(p, 0, 4) {
        Err(k) => Err(k),
        Ok(count) => if count > 268435456 {
            Err(ErrorKind::InvalidValue)
        } else {
            match records_spec(p, count as nat) {
                Err(k) => Err(k),
                Ok(chunks) => match take_int(p, 4 + 44 * count, 4) {
                    Err(k) => Err(k),
                    Ok(extra_count) => if extra_count > 67108864 {
                        Err(ErrorKind::InvalidValue)
                    } else {
                        match extras_spec(p, 8 + 44 * count, extra_count as nat) {
                            Err(k) => Err(k),
                            Ok((extras, end)) => if end != p.len() {
                                Err(ErrorKind::InvalidValue)
                            } else {
                                Ok(ChunkSectionView { chunks, extras })
                            },
                        }
                    },
                },
            }
        },
    }
}

/// Decoded chunk records carry dense ids: record `i` has id `i + 1`.
pub proof fn lemma_records_dense(p: Seq<u8>, n: nat)
    requires
        records_spec(p, n) is Ok,
    ensures
        records_spec(p, n)->Ok_0.len() == n,
        forall|i: int| 0 <= i < n ==> (#[trigger] records_spec(p, n)->Ok_0[i]).id == i + 1,
    decreases n,
{
    reveal(chunk_record_spec);
    if n > 0 {
        lemma_records_dense(p, (n - 1) as nat);
    }
}

/// A decoded CHNK section carries dense ids: chunk `i` has id `i + 1`.
pub proof fn lemma_section_dense(p: Seq<u8>)
    requires
        chunk_section_spec(p) is Ok,
    ensures
        forall|i: int| 0 <= i < chunk_section_spec(p)->Ok_0.chunks.len() ==> (#[trigger] chunk_section_spec(
            p,
        )->Ok_0.chunks[i]).id == i + 1,
{
    let count = take_int(p, 0, 4)->Ok_0;
    lemma_records_dense(p, count as nat);
}

proof fn lemma_records_err_sticks(p: Seq<u8>, m: nat, n: nat)
    requires
        m <= n,
        records_spec(p, m) is Err,
    ensures
        records_spec(p, n) == records_spec(p, m),
    decreases n - m,
{
    if m < n {
        lemma_records_err_sticks(p, m, (n - 1) as nat);
    }
}

proof fn lemma_extras_err_sticks(p: Seq<u8>, start: int, m: nat, n: nat)
    requires
        m <= n,
        extras_spec(p, start, m) is Err,
    ensures
        extras_spec(p, start, n) == extras_spec(p, start, m),
    decreases n - m,
{
    if m < n {
        lemma_extras_err_sticks(p, start, m, (n - 1) as nat);
    }
}

fn decode_record(rec: &[u8], i: usize) -> (r: Result<ChunkRecord, Error>)
    requires
        rec@.len() == 44,
        i < 268435456,
    ensures
        match chunk_record_spec(rec@, i as int) {
            Ok(v) => r == Ok::<ChunkRecord, Error>(v),
            Err(k) => r matches Err(e) && e.kind == k && e.section is None,
        },
{
    reveal(chunk_record_spec);
    let mut r = Cursor::new(rec, 0, None);
    let id = r.u32("chunk id")?;
    assert(rec@.subrange(0, 4) =~= rec@.subrange(0, 4));
    if i as u64 + 1 != id as u64 {
        return Err(error_at(ErrorKind::InvalidValue, None, "chunk id is not dense"));
    }
    let kind_value = r.u8("chunk kind")?;
    let kind = match ChunkKind::from_code(kind_value) {
        Some(kind) => kind,
        None => {
            return Err(error_at(ErrorKind::InvalidValue, None, "unknown chunk kind"));
        },
    };
    let chunk_flags = r.u8("chunk flags")?;
    let reserved = r.u16("chunk reserved")?;
    let style_id = r.u32("chunk style_id")?;
    let parent_id = r.u32("chunk parent_id")?;
    let prev_id = r.u32("chunk prev_id")?;
    let next_id = r.u32("chunk next_id")?;
    let first_child_id = r.u32("chunk first_child_id")?;
    let last_child_id = r.u32("chunk last_child_id")?;
    let content_index = r.u32("chunk content_index")?;
    let ordinal = r.u32("chunk ordinal")?;
    let depth = r.u32("chunk depth")?;
    r.finish("chunk record")?;
    if reserved != 0 {
        return Err(error_at(ErrorKind::InvalidFlags, None, "chunk reserved bits set"));
    }
    assert(chunk_flags & !flags::ALL != 0 <==> chunk_flags > 31) by (bit_vector);
    if chunk_flags & !flags::ALL != 0 {
        return Err(error_at(ErrorKind::InvalidValue, None, "unknown chunk flag bits"));
    }
    if depth as u64 > MAX_CHUNK_DEPTH {
        return Err(error_at(ErrorKind::InvalidValue, None, "chunk depth exceeds the cap"));
    }
    assert((chunk_flags & flags::STRUCTURAL != 0) <==> (chunk_flags / 16) % 2 == 1) by (bit_vector);
    if kind.is_structural() != ((chunk_flags & flags::STRUCTURAL) != 0) {
        return Err(error_at(ErrorKind::InvalidValue, None, "structural flag does not match the kind"));
    }
    Ok(ChunkRecord {
        id,
        kind,
        flags: chunk_flags,
        style_id,
        parent_id,
        prev_id,
        next_id,
        first_child_id,
        last_child_id,
        content_index,
        ordinal,
        depth,
    })
}

fn read_record(c: &mut Cursor, i: usize) -> (r: Result<ChunkRecord, Error>)
    requires
        old(c).pos <= old(c).bytes@.len(),
        old(c).section is None,
        i < 268435456,
    ensures
        final(c).bytes == old(c).bytes,
        final(c).section is None,
        final(c).pos <= final(c).bytes@.len(),
        match take_bytes(old(c).bytes@, old(c).pos as int, 44) {
            Err(k) => r matches Err(e) && e.kind == k && e.section is None,
            Ok(rec) => match chunk_record_spec(rec, i as int) {
                Ok(v) => r == Ok::<ChunkRecord, Error>(v) && final(c).pos == old(c).pos + 44,
                Err(k) => r matches Err(e) && e.kind == k && e.section is None,
            },
        },
{
    let rec = c.bytes(CHUNK_RECORD_LEN, "chunk record")?;
    decode_record(rec, i)
}

fn decode_extra(c: &mut Cursor) -> (r: Result<ChunkExtra, Error>)
    requires
        old(c).pos <= old(c).bytes@.len(),
        old(c).section is None,
    ensures
        final(c).bytes == old(c).bytes,
        final(c).section is None,
        final(c).pos <= final(c).bytes@.len(),
        match extra_spec(old(c).bytes@, old(c).pos as int) {
            Ok((v, end)) => r matches Ok(x) && x@ == v && final(c).pos == end,
            Err(k) => r matches Err(e) && e.kind == k && e.section is None,
        },
{
    reveal(extra_spec);
    let ghost p = c.bytes@;
    let ghost pos0 = c.pos as int;
    let chunk_id = c.u32("extra chunk_id")?;
    let kind_value = c.u8("extra kind")?;
    let kind = match ExtraKind::from_code(kind_value) {
        Some(kind) => kind,
        None => {
            return Err(error_at(ErrorKind::InvalidValue, None, "unknown extra kind"));
        },
    };
    let extra_flags = c.u8("extra flags")?;
    let length = c.u16("extra length")?;
    if extra_flags != 0 {
        return Err(error_at(ErrorKind::InvalidFlags, None, "extra reserved flags must be zero"));
    }
    let data = match kind {
        ExtraKind::LinkTarget => {
            let url_len = c.u16("link_target url_len")?;
            let url = c.utf8(url_len as usize, "link_target url")?;
            if url_len as usize + 2 != length as usize {
                return Err(error_at(ErrorKind::InvalidValue, None, "link_target length != url_len + 2"));
            }
            ExtraData::LinkTarget { url }
        },
        ExtraKind::CellSpan => {
            let colspan = c.u16("cell_span colspan")?;
            let rowspan = c.u16("cell_span rowspan")?;
            if colspan == 0 || rowspan == 0 {
                return Err(error_at(ErrorKind::InvalidValue, None, "cell_span colspan/rowspan must be at least 1"));
            }
            if length != 4 {
                return Err(error_at(ErrorKind::InvalidValue, None, "cell_span length != 4"));
            }
            ExtraData::CellSpan { colspan, rowspan }
        },
        ExtraKind::ListItemValue => {
            let value = c.u32("list_item_value value")?;
            if length != 4 {
                return Err(error_at(ErrorKind::InvalidValue, None, "list_item_value length != 4"));
            }
            ExtraData::ListItemValue { value }
        },
        ExtraKind::ImageAlt => {
            let text = c.utf8(length as usize, "image_alt text")?;
            ExtraData::ImageAlt { text }
        },
    };
    Ok(ChunkExtra { chunk_id, kind, data })
}

/// Decode the CHNK payload.
#[verifier::rlimit(40)]
pub fn decode(payload: &[u8]) -> (r: Result<ChunkSection, Error>)
    ensures
        match chunk_section_spec(payload@) {
            Ok(v) => r matches Ok(s) && s@ == v,
            Err(k) => r matches Err(e) && e.kind == k && e.section is None,
        },
{
    let ghost p = payload@;
    let mut c = Cursor::new(payload, 0, None);
    let chunk_count = c.u32("chunk count")?;
    if chunk_count as u64 > MAX_CHUNK_COUNT {
        return Err(error_at(ErrorKind::InvalidValue, None, "chunk count exceeds the cap"));
    }
    let mut chunks: Vec<ChunkRecord> = Vec::new();
    let mut i: usize = 0;
    while i < chunk_count as usize
        invariant
            p == payload@,
            c.bytes@ == p,
            c.section is None,
            c.pos == 4 + 44 * i,
            c.pos <= p.len(),
            i <= chunk_count,
            chunk_count <= 268435456,
            take_int(p, 0, 4) == Ok::<int, ErrorKind>(chunk_count as int),
            records_spec(p, i as nat) == Ok::<Seq<ChunkRecord>, ErrorKind>(chunks@),
        decreases chunk_count - i,
    {
        let record = match read_record(&mut c, i) {
            Ok(record) => record,
            Err(e) => {
                assert(records_spec(p, (i + 1) as nat) == Err::<Seq<ChunkRecord>, ErrorKind>(e.kind));
                proof {
                    lemma_records_err_sticks(p, (i + 1) as nat, chunk_count as nat);
                }
                return Err(e);
            },
        };
        let ghost before = chunks@;
        chunks.push(record);
        assert(records_spec(p, (i + 1) as nat) == Ok::<Seq<ChunkRecord>, ErrorKind>(before.push(record)));
        i += 1;
    }
    let extra_count = c.u32("extra count")?;
    if extra_count as u64 > MAX_EXTRA_COUNT {
        return Err(error_at(ErrorKind::InvalidValue, None, "extra count exceeds the cap"));
    }
    let ghost start = c.pos as int;
    let mut extras: Vec<ChunkExtra> = Vec::new();
    assert(extras@.map_values(|e: ChunkExtra| e@) =~= Seq::<ChunkExtraView>::empty());
    let mut j: usize = 0;
    while j < extra_count as usize
        invariant
            p == payload@,
            c.bytes@ == p,
            c.section is None,
            c.pos <= p.len(),
            start == 8 + 44 * chunk_count,
            chunk_count <= 268435456,
            take_int(p, 0, 4) == Ok::<int, ErrorKind>(chunk_count as int),
            records_spec(p, chunk_count as nat) == Ok::<Seq<ChunkRecord>, ErrorKind>(chunks@),
            take_int(p, 4 + 44 * chunk_count, 4) == Ok::<int, ErrorKind>(extra_count as int),
            j <= extra_count,
            extra_count <= 67108864,
            extras_spec(p, start, j as nat) == Ok::<(Seq<ChunkExtraView>, int), ErrorKind>(
                (extras@.map_values(|e: ChunkExtra| e@), c.pos as int),
            ),
        decreases extra_count - j,
    {
        let extra = match decode_extra(&mut c) {
            Ok(extra) => extra,
            Err(e) => {
                assert(extras_spec(p, start, (j + 1) as nat) == Err::<(Seq<ChunkExtraView>, int), ErrorKind>(e.kind));
                proof {
                    lemma_extras_err_sticks(p, start, (j + 1) as nat, extra_count as nat);
                }
                return Err(e);
            },
        };
        let ghost before = extras@;
        extras.push(extra);
        assert(extras@.map_values(|e: ChunkExtra| e@) =~= before.map_values(|e: ChunkExtra| e@).push(extra@));
        j += 1;
    }
    c.finish("CHNK payload")?;
    Ok(ChunkSection { chunks, extras })
}

} // verus!
