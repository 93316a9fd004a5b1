//! GLYF section decoder: MSDF glyph atlases — descriptors, glyph records
//! (32 bytes each), kerning pairs (strictly sorted by `(left, right)`), and
//! raw RGBA8 page texels. Floating-point metrics are carried as their
//! IEEE-754 binary32 bit patterns.

use vstd::prelude::*;
use crate::error::{error_at, Error, ErrorKind};
use crate::limits::{MAX_ATLAS_COUNT, MAX_FAMILY_LEN, MAX_GLYPH_COUNT, MAX_KERNING_COUNT, MAX_PAGE_DIM};
use crate::reader::cursor::{le_u16, le_u32, take_bytes, take_int, take_utf8, Cursor};

verus! {

/// The glyph record length in bytes.
pub const GLYPH_RECORD_LEN: usize = 32;

/// One glyph record.
#[derive(Debug, Clone, Copy, PartialEq, Eq, Structural)]
pub struct GlyphRecord {
    /// The codepoint (unique within the atlas).
    pub codepoint: u32,
    /// Advance in em (binary32 bits).
    pub advance: u32,
    /// Bearing x in em (binary32 bits).
    pub bearing_x: u32,
    /// Bearing y in em (binary32 bits).
    pub bearing_y: u32,
    /// Box left in texels (page space).
    pub box_x: u16,
    /// Box top in texels (page space).
    pub box_y: u16,
    /// Box width in texels (≥ 1; includes padding).
    pub box_w: u16,
    /// Box height in texels (≥ 1; includes padding).
    pub box_h: u16,
    /// The page this glyph's box lives in.
    pub page_index: u16,
    /// `no_outline` (space/combining) flag.
    pub no_outline: bool,
    /// `combining` (advance 0) flag.
    pub combining: bool,
}

/// One kerning pair, sorted by (left, right).
#[derive(Debug, Clone, Copy, PartialEq, Eq, Structural)]
pub struct KerningPair {
    /// The left codepoint.
    pub left: u32,
    /// The right codepoint.
    pub right: u32,
    /// The advance adjustment in em (binary32 bits).
    pub adjust: u32,
}

/// An MSDF atlas.
#[derive(Debug, Clone, PartialEq, Eq)]
pub struct Atlas {
    /// The font id.
    pub font_id: u32,
    /// Glyph records in file order.
    pub glyphs: Vec<GlyphRecord>,
    /// Page count.
    pub page_count: u16,
    /// The padding in texels around each glyph box.
    pub padding: u16,
    /// Fixed-point texels per em (×1024).
    pub texels_per_em_raw: u32,
    /// Typographic ascent in em (binary32 bits).
    pub ascent: u32,
    /// Descent in em (binary32 bits).
    pub descent: u32,
    /// Line gap in em (binary32 bits).
    pub line_gap: u32,
    /// Cap height in em (binary32 bits).
    pub cap_height: u32,
    /// X height in em (binary32 bits).
    pub x_height: u32,
    /// Font units per em (binary32 bits).
    pub units_per_em: u32,
    /// The font family name.
    pub family: String,
    /// The font weight (100..=900).
    pub weight: u16,
    /// Whether the face is italic.
    pub italic: bool,
    /// Page width in texels.
    pub page_width: u32,
    /// Page height in texels.
    pub page_height: u32,
    /// Kerning pairs sorted by (left, right).
    pub kerning: Vec<KerningPair>,
    /// Raw RGBA8 page texels (row-major, top-to-bottom).
    pub pages: Vec<Vec<u8>>,
}

/// The descriptor fields of an atlas (everything before its glyph records).
pub struct AtlasHead {
    pub font_id: u32,
    pub glyph_count: u32,
    pub page_count: u16,
    pub padding: u16,
    pub texels_per_em_raw: u32,
    pub ascent: u32,
    pub descent: u32,
    pub line_gap: u32,
    pub cap_height: u32,
    pub x_height: u32,
    pub units_per_em: u32,
    pub family: Seq<char>,
    pub weight: u16,
    pub italic: bool,
    pub page_width: u32,
    pub page_height: u32,
}

/// The descriptor fields of an atlas as read from the payload.
pub struct AtlasDescriptor {
    pub font_id: u32,
    pub glyph_count: u32,
    pub page_count: u16,
    pub padding: u16,
    pub texels_per_em_raw: u32,
    pub ascent: u32,
    pub descent: u32,
    pub line_gap: u32,
    pub cap_height: u32,
    pub x_height: u32,
    pub units_per_em: u32,
    pub family: String,
    pub weight: u16,
    pub italic: bool,
    pub page_width: u32,
    pub page_height: u32,
}

impl View for AtlasDescriptor {
    type V = AtlasHead;

    open spec fn view(&self) -> AtlasHead {
        AtlasHead {
            font_id: self.font_id,
            glyph_count: self.glyph_count,
            page_count: self.page_count,
            padding: self.padding,
            texels_per_em_raw: self.texels_per_em_raw,
            ascent: self.ascent,
            descent: self.descent,
            line_gap: self.line_gap,
            cap_height: self.cap_height,
            x_height: self.x_height,
            units_per_em: self.units_per_em,
            family: self.family@,
            weight: self.weight,
            italic: self.italic,
            page_width: self.page_width,
            page_height: self.page_height,
        }
    }
}

/// The mathematical value of an atlas.
pub struct AtlasView {
    pub head: AtlasHead,
    pub glyphs: Seq<GlyphRecord>,
    pub kerning: Seq<KerningPair>,
    pub pages: Seq<Seq<u8>>,
}

impl View for Atlas {
    type V = AtlasView;

    open spec fn view(&self) -> AtlasView {
        AtlasView {
            head: AtlasHead {
                font_id: self.font_id,
                glyph_count: self.glyphs@.len() as u32,
                page_count: self.page_count,
                padding: self.padding,
                texels_per_em_raw: self.texels_per_em_raw,
                ascent: self.ascent,
                descent: self.descent,
                line_gap: self.line_gap,
                cap_height: self.cap_height,
                x_height: self.x_height,
                units_per_em: self.units_per_em,
                family: self.family@,
                weight: self.weight,
                italic: self.italic,
                page_width: self.page_width,
                page_height: self.page_height,
            },
            glyphs: self.glyphs@,
            kerning: self.kerning@,
            pages: self.pages@.map_values(|pg: Vec<u8>| pg@),
        }
    }
}

/// The outcome of decoding an atlas descriptor at `pos`: glyph count cap,
/// family length cap, weight range, then format, reserved bits, page count,
/// page dimensions and the italic flag.
#[verifier::opaque]
pub open spec fn atlas_head_spec(p: Seq<u8>, pos: int) -> Result<(AtlasHead, int), ErrorKind> {
    match take_int(p, pos, 4) {
        Err(k) => Err(k),
        Ok(font_id) => match take_int(p, pos + 4, 4) {
            Err(k) => Err(k),
            Ok(glyph_count) => if glyph_count > 65536 {
                Err(ErrorKind::InvalidValue)
            } else {
                match take_bytes(p, pos + 8, 36) {
                    Err(k) => Err(k),
                    Ok(d) => {
                        let page_count = le_u16(d.subrange(0, 2));
                        let format = d[2];
                        let flags = d[3];
                        let family_len = le_u16(d.subrange(34, 36));
                        if family_len > 1024 {
                            Err(ErrorKind::InvalidValue)
                        } else {
                            match take_utf8(p, pos + 44, family_len as int) {
                                Err(k) => Err(k),
                                Ok(family) => match take_int(p, pos + 44 + family_len, 2) {
                                    Err(k) => Err(k),
                                    Ok(weight) => if weight < 100 || weight > 900 {
                                        Err(ErrorKind::InvalidValue)
                                    } else {
                                        match take_bytes(p, pos + 46 + family_len, 10) {
                                            Err(k) => Err(k),
                                            Ok(t) => {
                                                let italic = t[0];
                                                let reserved = t[1];
                                                let pw = le_u32(t.subrange(2, 6));
                                                let ph = le_u32(t.subrange(6, 10));
                                                if format != 0 {
                                                    Err(ErrorKind::InvalidValue)
                                                } else if flags != 0 || reserved != 0 {
                                                    Err(ErrorKind::InvalidFlags)
                                                } else if page_count == 0 {
                                                    Err(ErrorKind::InvalidValue)
                                                } else if pw > 8192 || ph > 8192 {
                                                    Err(ErrorKind::InvalidValue)
                                                } else if italic > 1 {
                                                    Err(ErrorKind::InvalidValue)
                                                } else {
                                                    Ok((
                                                        AtlasHead {
                                                            font_id: font_id as u32,
                                                            glyph_count: glyph_count as u32,
                                                            page_count,
                                                            padding: le_u16(d.subrange(4, 6)),
                                                            texels_per_em_raw: le_u32(d.subrange(6, 10)),
                                                            ascent: le_u32(d.subrange(10, 14)),
                                                            descent: le_u32(d.subrange(14, 18)),
                                                            line_gap: le_u32(d.subrange(18, 22)),
                                                            cap_height: le_u32(d.subrange(22, 26)),
                                                            x_height: le_u32(d.subrange(26, 30)),
                                                            units_per_em: le_u32(d.subrange(30, 34)),
                                                            family,
                                                            weight: weight as u16,
                                                            italic: italic == 1,
                                                            page_width: pw,
                                                            page_height: ph,
                                                        },
                                                        pos + 56 + family_len,
                                                    ))
                                                }
                                            },
                                        }
                                    },
                                },
                            }
                        }
                    },
                }
            },
        },
    }
}

/// The outcome of decoding one 32-byte glyph record against its atlas's
/// page count and page dimensions.
#[verifier::opaque]
pub open spec fn glyph_record_spec(rec: Seq<u8>, page_count: u16, pw: u32, ph: u32) -> Result<GlyphRecord, ErrorKind> {
    let box_x = le_u16(rec.subrange(16, 18));
    let box_y = le_u16(rec.subrange(18, 20));
    let box_w = le_u16(rec.subrange(20, 22));
    let box_h = le_u16(rec.subrange(22, 24));
    let page_index = le_u16(rec.subrange(24, 26));
    let flags = rec[26];
    let reserved1 = rec[27];
    let reserved4 = le_u32(rec.subrange(28, 32));
    if box_w == 0 || box_h == 0 {
        Err(ErrorKind::InvalidValue)
    } else if flags > 3 || reserved1 != 0 || reserved4 != 0 {
        Err(ErrorKind::InvalidValue)
    } else if page_index >= page_count {
        Err(ErrorKind::InvalidValue)
    } else if box_x + box_w > pw || box_y + box_h > ph {
        Err(ErrorKind::InvalidValue)
    } else {
        Ok(GlyphRecord {
            codepoint: le_u32(rec.subrange(0, 4)),
            advance: le_u32(rec.subrange(4, 8)),
            bearing_x: le_u32(rec.subrange(8, 12)),
            bearing_y: le_u32(rec.subrange(12, 16)),
            box_x,
            box_y,
            box_w,
            box_h,
            page_index,
            no_outline: flags % 2 == 1,
            combining: (flags / 2) % 2 == 1,
        })
    }
}

/// Decoding `n` glyph records starting at `start`.
pub open spec fn glyphs_spec(p: Seq<u8>, start: int, n: nat, page_count: u16, pw: u32, ph: u32) -> Result<(Seq<GlyphRecord>, int), ErrorKind>
    decreases n,
{
    if n == 0 {
        Ok((Seq::empty(), start))
    } else {
        match glyphs_spec(p, start, (n - 1) as nat, page_count, pw, ph) {
            Err(k) => Err(k),
            Ok((gs, pos)) => match take_bytes(p, pos, 32) {
                Err(k) => Err(k),
                Ok(rec) => match glyph_record_spec(rec, page_count, pw, ph) {
                    Err(k) => Err(k),
                    Ok(g) => Ok((gs.push(g), pos + 32)),
                },
            },
        }
    }
}

/// Whether `(l1, r1) < (l2, r2)` lexicographically.
pub open spec fn pair_less(l1: u32, r1: u32, l2: u32, r2: u32) -> bool {
    l1 < l2 || (l1 == l2 && r1 < r2)
}

/// Decoding `n` kerning pairs starting at `start`; each pair must sort
/// strictly after the previous one.
pub open spec fn kerning_spec(p: Seq<u8>, start: int, n: nat) -> Result<(Seq<KerningPair>, int), ErrorKind>
    decreases n,
{
    if n == 0 {
        Ok((Seq::empty(), start))
    } else {
        match kerning_spec(p, start, (n - 1) as nat) {
            Err(k) => Err(k),
            Ok((ks, pos)) => match take_int(p, pos, 4) {
                Err(k) => Err(k),
                Ok(left) => match take_int(p, pos + 4, 4) {
                    Err(k) => Err(k),
                    Ok(right) => match take_int(p, pos + 8, 4) {
                        Err(k) => Err(k),
                        Ok(adjust) => if ks.len() > 0 && !pair_less(
                            ks.last().left,
                            ks.last().right,
                            left as u32,
                            right as u32,
                        ) {
                            Err(ErrorKind::InvalidValue)
                        } else {
                            Ok((
                                ks.push(KerningPair { left: left as u32, right: right as u32, adjust: adjust as u32 }),
                                pos + 12,
                            ))
                        },
                    },
                },
            },
        }
    }
}

/// Decoding `n` pages of `page_bytes` bytes each starting at `start`.
pub open spec fn pages_spec(p: Seq<u8>, start: int, n: nat, page_bytes: int) -> Result<(Seq<Seq<u8>>, int), ErrorKind>
    decreases n,
{
    if n == 0 {
        Ok((Seq::empty(), start))
    } else {
        match pages_spec(p, start, (n - 1) as nat, page_bytes) {
            Err(k) => Err(k),
            Ok((pgs, pos)) => match take_bytes(p, pos, page_bytes) {
                Err(k) => Err(k),
                Ok(pg) => Ok((pgs.push(pg), pos + page_bytes)),
            },
        }
    }
}

/// The outcome of decoding one atlas at `pos`.
#[verifier::opaque]
pub open spec fn atlas_spec(p: Seq<u8>, pos: int) -> Result<(AtlasView, int), ErrorKind> {
    match atlas_head_spec(p, pos) {
        Err(k) => Err(k),
        Ok((head, gpos)) => match glyphs_spec(p, gpos, head.glyph_count as nat, head.page_count, head.page_width, head.page_height) {
            Err(k) => Err(k),
            Ok((glyphs, kpos)) => match take_int(p, kpos, 4) {
                Err(k) => Err(k),
                Ok(kerning_count) => if kerning_count > 16777216 {
                    Err(ErrorKind::InvalidValue)
                } else {
                    match kerning_spec(p, kpos + 4, kerning_count as nat) {
                        Err(k) => Err(k),
                        Ok((kerning, ppos)) => match pages_spec(
                            p,
                            ppos,
                            head.page_count as nat,
                            head.page_width * head.page_height * 4,
                        ) {
                            Err(k) => Err(k),
                            Ok((pages, end)) => Ok((AtlasView { head, glyphs, kerning, pages }, end)),
                        },
                    }
                },
            },
        },
    }
}

/// Decoding the first `n` atlases starting at byte 4.
pub open spec fn atlases_items_spec(p: Seq<u8>, n: nat) -> Result<(Seq<AtlasView>, int), ErrorKind>
    decreases n,
{
    if n == 0 {
        Ok((Seq::empty(), 4))
    } else {
        match atlases_items_spec(p, (n - 1) as nat) {
            Err(k) => Err(k),
            Ok((items, pos)) => match atlas_spec(p, pos) {
                Err(k) => Err(k),
                Ok((item, end)) => Ok((items.push(item), end)),
            },
        }
    }
}

/// The outcome of decoding a GLYF payload.
pub open spec fn atlases_spec(p: Seq<u8>) -> Result<Seq<AtlasView>, ErrorKind> {
    match take_int(p, 0, 4) {
        Err(k) => Err(k),
        Ok(count) => if count > 65536 {
            Err(ErrorKind::InvalidValue)
        } else {
            match atlases_items_spec(p, count as nat) {
                Err(k) => Err(k),
                Ok((items, end)) => if end != p.len() {
                    Err(ErrorKind::InvalidValue)
                } else {
                    Ok(items)
                },
            }
        },
    }
}

proof fn lemma_glyphs_err_sticks(p: Seq<u8>, start: int, m: nat, n: nat, pc: u16, pw: u32, ph: u32)
    requires
        m <= n,
        glyphs_spec(p, start, m, pc, pw, ph) is Err,
    ensures
        glyphs_spec(p, start, n, pc, pw, ph) == glyphs_spec(p, start, m, pc, pw, ph),
    decreases n - m,
{
    if m < n {
        lemma_glyphs_err_sticks(p, start, m, (n - 1) as nat, pc, pw, ph);
    }
}

proof fn lemma_kerning_err_sticks(p: Seq<u8>, start: int, m: nat, n: nat)
    requires
        m <= n,
        kerning_spec(p, start, m) is Err,
    ensures
        kerning_spec(p, start, n) == kerning_spec(p, start, m),
    decreases n - m,
{
    if m < n {
        lemma_kerning_err_sticks(p, start, m, (n - 1) as nat);
    }
}

proof fn lemma_pages_err_sticks(p: Seq<u8>, start: int, m: nat, n: nat, page_bytes: int)
    requires
        m <= n,
        pages_spec(p, start, m, page_bytes) is Err,
    ensures
        pages_spec(p, start, n, page_bytes) == pages_spec(p, start, m, page_bytes),
    decreases n - m,
{
    if m < n {
        lemma_pages_err_sticks(p, start, m, (n - 1) as nat, page_bytes);
    }
}

proof fn lemma_atlases_err_sticks(p: Seq<u8>, m: nat, n: nat)
    requires
        m <= n,
        atlases_items_spec(p, m) is Err,
    ensures
        atlases_items_spec(p, n) == atlases_items_spec(p, m),
    decreases n - m,
{
    if m < n {
        lemma_atlases_err_sticks(p, m, (n - 1) as nat);
    }
}

fn decode_head(c: &mut Cursor) -> (r: Result<AtlasDescriptor, Error>)
    requires
        old(c).pos <= old(c).bytes@.len(),
        old(c).section is None,
    ensures
        final(c).bytes == old(c).bytes,
        final(c).section is None,
        final(c).pos <= final(c).bytes@.len(),
        match atlas_head_spec(old(c).bytes@, old(c).pos as int) {
            Ok((v, end)) => r matches Ok(x) && x@ == v && final(c).pos == end,
            Err(k) => r matches Err(e) && e.kind == k && e.section is None,
        },
        r matches Ok(x) ==> x.glyph_count <= 65536 && x.page_width <= 8192 && x.page_height <= 8192,
{
    reveal(atlas_head_spec);
    let font_id = c.u32("atlas font_id")?;
    let glyph_count = c.u32("atlas glyph count")?;
    if glyph_count as u64 > MAX_GLYPH_COUNT {
        return Err(error_at(ErrorKind::InvalidValue, None, "atlas glyph count exceeds the cap"));
    }
    let block = c.bytes(36, "atlas descriptor")?;
    let ghost d = block@;
    let mut b = Cursor::new(block, 0, None);
    let page_count = b.u16("atlas page count")?;
    let format = b.u8("atlas format")?;
    let atlas_flags = b.u8("atlas flags")?;
    let padding = b.u16("atlas padding")?;
    let texels_per_em_raw = b.u32("atlas texels_per_em")?;
    let ascent = b.u32("atlas ascent")?;
    let descent = b.u32("atlas descent")?;
    let line_gap = b.u32("atlas line_gap")?;
    let cap_height = b.u32("atlas cap_height")?;
    let x_height = b.u32("atlas x_height")?;
    let units_per_em = b.u32("atlas units_per_em")?;
    let family_len = b.u16("atlas family_len")?;
    if family_len as u64 > MAX_FAMILY_LEN {
        return Err(error_at(ErrorKind::InvalidValue, None, "atlas family_len exceeds the cap"));
    }
    let family = c.utf8(family_len as usize, "atlas family")?;
    let weight = c.u16("atlas weight")?;
    if weight < 100 || weight > 900 {
        return Err(error_at(ErrorKind::InvalidValue, None, "atlas weight not in 100..=900"));
    }
    let tail = c.bytes(10, "atlas page descriptor")?;
    let ghost t = tail@;
    let mut q = Cursor::new(tail, 0, None);
    let italic = q.u8("atlas italic")?;
    let reserved = q.u8("atlas reserved")?;
    let page_width = q.u32("atlas page_width")?;
    let page_height = q.u32("atlas page_height")?;
    if format != 0 {
        return Err(error_at(ErrorKind::InvalidValue, None, "atlas format is not MSDF_RGBA8"));
    }
    if atlas_flags != 0 || reserved != 0 {
        return Err(error_at(ErrorKind::InvalidFlags, None, "atlas reserved flags/bits must be zero"));
    }
    if page_count == 0 {
        return Err(error_at(ErrorKind::InvalidValue, None, "atlas page_count must be at least 1"));
    }
    if page_width as u64 > MAX_PAGE_DIM || page_height as u64 > MAX_PAGE_DIM {
        return Err(error_at(ErrorKind::InvalidValue, None, "atlas page exceeds the dimension cap"));
    }
    if italic > 1 {
        return Err(error_at(ErrorKind::InvalidValue, None, "atlas italic flag not in 0..=1"));
    }
    Ok(AtlasDescriptor {
        font_id,
        glyph_count,
        page_count,
        padding,
        texels_per_em_raw,
        ascent,
        descent,
        line_gap,
        cap_height,
        x_height,
        units_per_em,
        family,
        weight,
        italic: italic == 1,
        page_width,
        page_height,
    })
}

fn decode_glyph(rec: &[u8], page_count: u16, page_width: u32, page_height: u32) -> (r: Result<GlyphRecord, Error>)
    requires
        rec@.len() == 32,
    ensures
        match glyph_record_spec(rec@, page_count, page_width, page_height) {
            Ok(v) => r == Ok::<GlyphRecord, Error>(v),
            Err(k) => r matches Err(e) && e.kind == k && e.section is None,
        },
{
    reveal(glyph_record_spec);
    let mut r = Cursor::new(rec, 0, None);
    let codepoint = r.u32("glyph codepoint")?;
    let advance = r.u32("glyph advance")?;
    let bearing_x = r.u32("glyph bearing_x")?;
    let bearing_y = r.u32("glyph bearing_y")?;
    let box_x = r.u16("glyph box_x")?;
    let box_y = r.u16("glyph box_y")?;
    let box_w = r.u16("glyph box_w")?;
    let box_h = r.u16("glyph box_h")?;
    let page_index = r.u16("glyph page_index")?;
    let glyph_flags = r.u8("glyph flags")?;
    let reserved1 = r.u8("glyph reserved1")?;
    let reserved4 = r.u32("glyph reserved4")?;
    r.finish("glyph record")?;
    if box_w == 0 || box_h == 0 {
        return Err(error_at(ErrorKind::InvalidValue, None, "glyph box_w/box_h must be at least 1"));
    }
    assert(glyph_flags & !0x03u8 != 0 <==> glyph_flags > 3) by (bit_vector);
    if glyph_flags & !0x03u8 != 0 || reserved1 != 0 || reserved4 != 0 {
        return Err(error_at(ErrorKind::InvalidValue, None, "glyph flag bits or reserved bits set"));
    }
    if page_index >= page_count {
        return Err(error_at(ErrorKind::InvalidValue, None, "glyph page_index out of range"));
    }
    let box_end_x = box_x as u32 + box_w as u32;
    let box_end_y = box_y as u32 + box_h as u32;
    if box_end_x > page_width || box_end_y > page_height {
        return Err(error_at(ErrorKind::InvalidValue, None, "glyph box exceeds the page bounds"));
    }
    assert(glyph_flags & 0x01 != 0 <==> glyph_flags % 2 == 1) by (bit_vector);
    assert(glyph_flags & 0x02 != 0 <==> (glyph_flags / 2) % 2 == 1) by (bit_vector);
    Ok(GlyphRecord {
        codepoint,
        advance,
        bearing_x,
        bearing_y,
        box_x,
        box_y,
        box_w,
        box_h,
        page_index,
        no_outline: glyph_flags & 0x01 != 0,
        combining: glyph_flags & 0x02 != 0,
    })
}

fn read_glyphs(c: &mut Cursor, count: u32, page_count: u16, page_width: u32, page_height: u32) -> (r: Result<Vec<GlyphRecord>, Error>)
    requires
        old(c).pos <= old(c).bytes@.len(),
        old(c).section is None,
        count <= 65536,
    ensures
        final(c).bytes@ == old(c).bytes@,
        final(c).section is None,
        final(c).pos <= final(c).bytes@.len(),
        match glyphs_spec(old(c).bytes@, old(c).pos as int, count as nat, page_count, page_width, page_height) {
            Ok((v, end)) => r matches Ok(x) && x@ == v && final(c).pos == end,
            Err(k) => r matches Err(e) && e.kind == k && e.section is None,
        },
        r matches Ok(x) ==> x@.len() == count,
{
    let ghost p = c.bytes@;
    let ghost start = c.pos as int;
    let mut glyphs: Vec<GlyphRecord> = Vec::new();
    let mut g: usize = 0;
    while g < count as usize
        invariant
            p == old(c).bytes@,
            start == old(c).pos,
            c.bytes@ == p,
            c.section is None,
            c.pos <= p.len(),
            g <= count,
            glyphs@.len() == g,
            count <= 65536,
            glyphs_spec(p, start, g as nat, page_count, page_width, page_height) == Ok::<(Seq<GlyphRecord>, int), ErrorKind>((glyphs@, c.pos as int)),
        decreases count - g,
    {
        let rec = match c.bytes(GLYPH_RECORD_LEN, "glyph record") {
            Ok(rec) => rec,
            Err(e) => {
                assert(glyphs_spec(p, start, (g + 1) as nat, page_count, page_width, page_height) == Err::<(Seq<GlyphRecord>, int), ErrorKind>(e.kind));
                proof {
                    lemma_glyphs_err_sticks(p, start, (g + 1) as nat, count as nat, page_count, page_width, page_height);
                }
                return Err(e);
            },
        };
        let glyph = match decode_glyph(rec, page_count, page_width, page_height) {
            Ok(glyph) => glyph,
            Err(e) => {
                assert(glyphs_spec(p, start, (g + 1) as nat, page_count, page_width, page_height) == Err::<(Seq<GlyphRecord>, int), ErrorKind>(e.kind));
                proof {
                    lemma_glyphs_err_sticks(p, start, (g + 1) as nat, count as nat, page_count, page_width, page_height);
                }
                return Err(e);
            },
        };
        glyphs.push(glyph);
        g += 1;
    }
    Ok(glyphs)
}

fn read_kerning(c: &mut Cursor, count: u32) -> (r: Result<Vec<KerningPair>, Error>)
    requires
        old(c).pos <= old(c).bytes@.len(),
        old(c).section is None,
        count <= 16777216,
    ensures
        final(c).bytes@ == old(c).bytes@,
        final(c).section is None,
        final(c).pos <= final(c).bytes@.len(),
        match kerning_spec(old(c).bytes@, old(c).pos as int, count as nat) {
            Ok((v, end)) => r matches Ok(x) && x@ == v && final(c).pos == end,
            Err(k) => r matches Err(e) && e.kind == k && e.section is None,
        },
{
    let ghost p = c.bytes@;
    let ghost start = c.pos as int;
    let mut kerning: Vec<KerningPair> = Vec::new();
    let mut k: usize = 0;
    while k < count as usize
        invariant
            p == old(c).bytes@,
            start == old(c).pos,
            c.bytes@ == p,
            c.section is None,
            c.pos <= p.len(),
            k <= count,
            kerning@.len() == k,
            count <= 16777216,
            kerning_spec(p, start, k as nat) == Ok::<(Seq<KerningPair>, int), ErrorKind>((kerning@, c.pos as int)),
        decreases count - k,
    {
        let left = match c.u32("kerning left") {
            Ok(v) => v,
            Err(e) => {
                assert(kerning_spec(p, start, (k + 1) as nat) == Err::<(Seq<KerningPair>, int), ErrorKind>(e.kind));
                proof {
                    lemma_kerning_err_sticks(p, start, (k + 1) as nat, count as nat);
                }
                return Err(e);
            },
        };
        let right = match c.u32("kerning right") {
            Ok(v) => v,
            Err(e) => {
                assert(kerning_spec(p, start, (k + 1) as nat) == Err::<(Seq<KerningPair>, int), ErrorKind>(e.kind));
                proof {
                    lemma_kerning_err_sticks(p, start, (k + 1) as nat, count as nat);
                }
                return Err(e);
            },
        };
        let adjust = match c.u32("kerning adjust") {
            Ok(v) => v,
            Err(e) => {
                assert(kerning_spec(p, start, (k + 1) as nat) == Err::<(Seq<KerningPair>, int), ErrorKind>(e.kind));
                proof {
                    lemma_kerning_err_sticks(p, start, (k + 1) as nat, count as nat);
                }
                return Err(e);
            },
        };
        if k > 0 {
            let prev = kerning[k - 1];
            if !(prev.left < left || (prev.left == left && prev.right < right)) {
                assert(kerning_spec(p, start, (k + 1) as nat) == Err::<(Seq<KerningPair>, int), ErrorKind>(ErrorKind::InvalidValue));
                proof {
                    lemma_kerning_err_sticks(p, start, (k + 1) as nat, count as nat);
                }
                return Err(error_at(ErrorKind::InvalidValue, None, "kerning pairs are not strictly sorted"));
            }
        }
        kerning.push(KerningPair { left, right, adjust });
        assert(kerning_spec(p, start, (k + 1) as nat) == Ok::<(Seq<KerningPair>, int), ErrorKind>((kerning@, c.pos as int)));
        k += 1;
    }
    Ok(kerning)
}

fn read_pages(c: &mut Cursor, count: u16, page_bytes: usize) -> (r: Result<Vec<Vec<u8>>, Error>)
    requires
        old(c).pos <= old(c).bytes@.len(),
        old(c).section is None,
    ensures
        final(c).bytes@ == old(c).bytes@,
        final(c).section is None,
        final(c).pos <= final(c).bytes@.len(),
        match pages_spec(old(c).bytes@, old(c).pos as int, count as nat, page_bytes as int) {
            Ok((v, end)) => r matches Ok(x) && x@.map_values(|pg: Vec<u8>| pg@) == v && final(c).pos == end,
            Err(k) => r matches Err(e) && e.kind == k && e.section is None,
        },
{
    let ghost p = c.bytes@;
    let ghost start = c.pos as int;
    let mut pages: Vec<Vec<u8>> = Vec::new();
    assert(pages@.map_values(|pg: Vec<u8>| pg@) =~= Seq::<Seq<u8>>::empty());
    let mut q: usize = 0;
    while q < count as usize
        invariant
            p == old(c).bytes@,
            start == old(c).pos,
            c.bytes@ == p,
            c.section is None,
            c.pos <= p.len(),
            q <= count,
            pages_spec(p, start, q as nat, page_bytes as int) == Ok::<(Seq<Seq<u8>>, int), ErrorKind>((pages@.map_values(|pg: Vec<u8>| pg@), c.pos as int)),
        decreases count - q,
    {
        let raw = match c.bytes(page_bytes, "atlas page") {
            Ok(raw) => raw,
            Err(e) => {
                assert(pages_spec(p, start, (q + 1) as nat, page_bytes as int) == Err::<(Seq<Seq<u8>>, int), ErrorKind>(e.kind));
                proof {
                    lemma_pages_err_sticks(p, start, (q + 1) as nat, count as nat, page_bytes as int);
                }
                return Err(e);
            },
        };
        let page = vstd::slice::slice_to_vec(raw);
        let ghost before = pages@;
        pages.push(page);
        assert(pages@.map_values(|pg: Vec<u8>| pg@) =~= before.map_values(|pg: Vec<u8>| pg@).push(page@));
        q += 1;
    }
    Ok(pages)
}

fn decode_atlas(c: &mut Cursor) -> (r: Result<Atlas, Error>)
    requires
        old(c).pos <= old(c).bytes@.len(),
        old(c).section is None,
    ensures
        final(c).bytes@ == old(c).bytes@,
        final(c).section is None,
        final(c).pos <= final(c).bytes@.len(),
        match atlas_spec(old(c).bytes@, old(c).pos as int) {
            Ok((v, end)) => r matches Ok(x) && x@ == v && final(c).pos == end,
            Err(k) => r matches Err(e) && e.kind == k && e.section is None,
        },
{
    reveal(atlas_spec);
    let head = decode_head(c)?;
    let glyphs = read_glyphs(c, head.glyph_count, head.page_count, head.page_width, head.page_height)?;
    let kerning_count = c.u32("atlas kerning count")?;
    if kerning_count as u64 > MAX_KERNING_COUNT {
        return Err(error_at(ErrorKind::InvalidValue, None, "atlas kerning count exceeds the cap"));
    }
    let kerning = read_kerning(c, kerning_count)?;
    assert(head.page_width * head.page_height <= 8192 * 8192) by (nonlinear_arith)
        requires
            head.page_width <= 8192,
            head.page_height <= 8192,
    ;
    let page_bytes: usize = (head.page_width as usize) * (head.page_height as usize) * 4;
    let pages = read_pages(c, head.page_count, page_bytes)?;
    let atlas = Atlas {
        font_id: head.font_id,
        glyphs,
        page_count: head.page_count,
        padding: head.padding,
        texels_per_em_raw: head.texels_per_em_raw,
        ascent: head.ascent,
        descent: head.descent,
        line_gap: head.line_gap,
        cap_height: head.cap_height,
        x_height: head.x_height,
        units_per_em: head.units_per_em,
        family: head.family,
        weight: head.weight,
        italic: head.italic,
        page_width: head.page_width,
        page_height: head.page_height,
        kerning,
        pages,
    };
    Ok(atlas)
}

/// Decode the GLYF payload.
pub fn decode(payload: &[u8]) -> (r: Result<Vec<Atlas>, Error>)
    ensures
        match atlases_spec(payload@) {
            Ok(v) => r matches Ok(out) && out@.map_values(|x: Atlas| x@) == v,
            Err(k) => r matches Err(e) && e.kind == k && e.section is None,
        },
{
    let ghost p = payload@;
    let mut c = Cursor::new(payload, 0, None);
    let atlas_count = c.u32("atlas count")?;
    if atlas_count as u64 > MAX_ATLAS_COUNT {
        return Err(error_at(ErrorKind::InvalidValue, None, "atlas count exceeds the cap"));
    }
    let mut out: Vec<Atlas> = Vec::new();
    assert(out@.map_values(|x: Atlas| x@) =~= Seq::<AtlasView>::empty());
    let mut a: usize = 0;
    while a < atlas_count as usize
        invariant
            p == payload@,
            c.bytes@ == p,
            c.section is None,
            c.pos <= p.len(),
            a <= atlas_count,
            atlas_count <= 65536,
            take_int(p, 0, 4) == Ok::<int, ErrorKind>(atlas_count as int),
            atlases_items_spec(p, a as nat) == Ok::<(Seq<AtlasView>, int), ErrorKind>(
                (out@.map_values(|x: Atlas| x@), c.pos as int),
            ),
        decreases atlas_count - a,
    {
        let atlas = match decode_atlas(&mut c) {
            Ok(atlas) => atlas,
            Err(e) => {
                assert(atlases_items_spec(p, (a + 1) as nat) == Err::<(Seq<AtlasView>, int), ErrorKind>(e.kind));
                proof {
                    lemma_atlases_err_sticks(p, (a + 1) as nat, atlas_count as nat);
                }
                return Err(e);
            },
        };
        let ghost before = out@;
        out.push(atlas);
        assert(out@.map_values(|x: Atlas| x@) =~= before.map_values(|x: Atlas| x@).push(atlas@));
        a += 1;
    }
    c.finish("GLYF payload")?;
    Ok(out)
}

} // verus!
