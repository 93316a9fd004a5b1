//! STYL section decoder: the resolved style table. Each style record carries
//! a dense id and a property blob; properties are a `u16` tag followed by a
//! fixed-size value per tag. Unknown tags are an error. Floating-point
//! property values are carried as their IEEE-754 binary32 bit patterns.

use vstd::prelude::*;
use crate::error::{error_at, Error, ErrorKind};
use crate::limits::{MAX_PROPERTIES_PER_STYLE, MAX_STYLE_COUNT};
use crate::reader::cursor::{take_bytes, take_int, Cursor};

verus! {

/// Style property tags (codes 1..=16 in declaration order).
#[derive(Debug, Clone, Copy, PartialEq, Eq, Structural)]
pub enum PropertyTag {
    /// `font_id` (1): u32 (index into GLYF atlases).
    FontId,
    /// `font_size_px` (2): f32.
    FontSizePx,
    /// `line_height` (3): f32 (multiplier of font size).
    LineHeight,
    /// `font_weight` (4): u16 (100..=900).
    FontWeight,
    /// `italic` (5): u8 0/1.
    Italic,
    /// `color` (6): u32 RGBA.
    Color,
    /// `background_color` (7): u32 RGBA.
    BackgroundColor,
    /// `margin_top` (8): f32 (px).
    MarginTop,
    /// `margin_bottom` (9): f32 (px).
    MarginBottom,
    /// `text_align` (10): u8 (0 start, 1 center, 2 end, 3 justify).
    TextAlign,
    /// `text_indent` (11): f32 (px).
    TextIndent,
    /// `list_style` (12): u8 (0 none … 8 upper_roman).
    ListStyle,
    /// `code` (13): u8 0/1.
    Code,
    /// `underline` (14): u8 0/1.
    Underline,
    /// `letter_spacing` (15): f32 (px).
    LetterSpacing,
    /// `white_space` (16): u8 (0 normal, 1 pre, 2 nowrap).
    WhiteSpace,
}

/// The property tag a code denotes.
pub open spec fn property_tag_of(code: u16) -> Option<PropertyTag> {
    if code == 1 { Some(PropertyTag::FontId) }
    else if code == 2 { Some(PropertyTag::FontSizePx) }
    else if code == 3 { Some(PropertyTag::LineHeight) }
    else if code == 4 { Some(PropertyTag::FontWeight) }
    else if code == 5 { Some(PropertyTag::Italic) }
    else if code == 6 { Some(PropertyTag::Color) }
    else if code == 7 { Some(PropertyTag::BackgroundColor) }
    else if code == 8 { Some(PropertyTag::MarginTop) }
    else if code == 9 { Some(PropertyTag::MarginBottom) }
    else if code == 10 { Some(PropertyTag::TextAlign) }
    else if code == 11 { Some(PropertyTag::TextIndent) }
    else if code == 12 { Some(PropertyTag::ListStyle) }
    else if code == 13 { Some(PropertyTag::Code) }
    else if code == 14 { Some(PropertyTag::Underline) }
    else if code == 15 { Some(PropertyTag::LetterSpacing) }
    else if code == 16 { Some(PropertyTag::WhiteSpace) }
    else { None }
}

impl PropertyTag {
    /// Interpret a property tag; `None` for out-of-range tags.
    pub fn from_code(code: u16) -> (r: Option<Self>)
        ensures
            r == property_tag_of(code),
    {
        match code {
            1 => Some(PropertyTag::FontId),
            2 => Some(PropertyTag::FontSizePx),
            3 => Some(PropertyTag::LineHeight),
            4 => Some(PropertyTag::FontWeight),
            5 => Some(PropertyTag::Italic),
            6 => Some(PropertyTag::Color),
            7 => Some(PropertyTag::BackgroundColor),
            8 => Some(PropertyTag::MarginTop),
            9 => Some(PropertyTag::MarginBottom),
            10 => Some(PropertyTag::TextAlign),
            11 => Some(PropertyTag::TextIndent),
            12 => Some(PropertyTag::ListStyle),
            13 => Some(PropertyTag::Code),
            14 => Some(PropertyTag::Underline),
            15 => Some(PropertyTag::LetterSpacing),
            16 => Some(PropertyTag::WhiteSpace),
            _ => None,
        }
    }
}

/// The typed value of a style property.
#[derive(Debug, Clone, Copy, PartialEq, Eq, Structural)]
pub enum PropertyValue {
    /// A `u32` value (font_id, color, background_color).
    U32(u32),
    /// An `f32` value (font size, line height, margins, indent, letter
    /// spacing), as its IEEE-754 binary32 bit pattern.
    F32(u32),
    /// A `u16` value (font_weight).
    U16(u16),
    /// A `u8` value (flags, enum-like tags).
    U8(u8),
}

/// One style property.
#[derive(Debug, Clone, Copy, PartialEq, Eq, Structural)]
pub struct StyleProperty {
    /// The property tag.
    pub tag: PropertyTag,
    /// The typed value.
    pub value: PropertyValue,
}

/// A style record: an id plus explicit properties.
#[derive(Debug, Clone, PartialEq, Eq)]
pub struct StyleRecord {
    /// Dense style id (0 = the implicit document default).
    pub id: u32,
    /// Explicit properties (absent properties take the defaults).
    pub properties: Vec<StyleProperty>,
}

/// The mathematical value of a style record.
pub struct StyleRecordView {
    /// Dense style id.
    pub id: u32,
    /// Explicit properties in blob order.
    pub properties: Seq<StyleProperty>,
}

impl View for StyleRecord {
    type V = StyleRecordView;

    open spec fn view(&self) -> StyleRecordView {
        StyleRecordView { id: self.id, properties: self.properties@ }
    }
}

/// The value width in bytes of a tag.
pub open spec fn tag_width(tag: PropertyTag) -> int {
    match tag {
        PropertyTag::FontWeight => 2,
        PropertyTag::Italic | PropertyTag::TextAlign | PropertyTag::ListStyle | PropertyTag::Code
        | PropertyTag::Underline | PropertyTag::WhiteSpace => 1,
        _ => 4,
    }
}

/// The typed value a tag's raw little-endian value denotes.
pub open spec fn tag_value(tag: PropertyTag, raw: int) -> PropertyValue {
    match tag {
        PropertyTag::FontId | PropertyTag::Color | PropertyTag::BackgroundColor => PropertyValue::U32(raw as u32),
        PropertyTag::FontWeight => PropertyValue::U16(raw as u16),
        PropertyTag::Italic | PropertyTag::TextAlign | PropertyTag::ListStyle | PropertyTag::Code
        | PropertyTag::Underline | PropertyTag::WhiteSpace => PropertyValue::U8(raw as u8),
        _ => PropertyValue::F32(raw as u32),
    }
}

/// The outcome of decoding one property at `pos` of a blob.
#[verifier::opaque]
pub open spec fn property_spec(blob: Seq<u8>, pos: int) -> Result<(StyleProperty, int), ErrorKind> {
    match take_int(blob, pos, 2) {
        Err(k) => Err(k),
        Ok(code) => match property_tag_of(code as u16) {
            None => Err(ErrorKind::InvalidValue),
            Some(tag) => match take_int(blob, pos + 2, tag_width(tag)) {
                Err(k) => Err(k),
                Ok(raw) => Ok((StyleProperty { tag, value: tag_value(tag, raw) }, pos + 2 + tag_width(tag))),
            },
        },
    }
}

/// Decoding the first `n` properties of a blob.
pub open spec fn properties_spec(blob: Seq<u8>, n: nat) -> Result<(Seq<StyleProperty>, int), ErrorKind>
    decreases n,
{
    if n == 0 {
        Ok((Seq::empty(), 0))
    } else {
        match properties_spec(blob, (n - 1) as nat) {
            Err(k) => Err(k),
            Ok((ps, pos)) => match property_spec(blob, pos) {
                Err(k) => Err(k),
                Ok((prop, end)) => Ok((ps.push(prop), end)),
            },
        }
    }
}

/// The outcome of decoding style record `i` starting at `pos`.
#[verifier::opaque]
pub open spec fn style_item_spec(p: Seq<u8>, pos: int, i: int) -> Result<(StyleRecordView, int), ErrorKind> {
    match take_int(p, pos, 4) {
        Err(k) => Err(k),
        Ok(id) => if id != i {
            Err(ErrorKind::InvalidValue)
        } else {
            match take_int(p, pos + 4, 2) {
                Err(k) => Err(k),
                Ok(count) => match take_int(p, pos + 6, 2) {
                    Err(k) => Err(k),
                    Ok(blob_len) => if count > 64 {
                        Err(ErrorKind::InvalidValue)
                    } else {
                        match take_bytes(p, pos + 8, blob_len) {
                            Err(k) => Err(k),
                            Ok(blob) => match properties_spec(blob, count as nat) {
                                Err(k) => Err(k),
                                Ok((properties, end)) => if end != blob.len() {
                                    Err(ErrorKind::InvalidValue)
                                } else {
                                    Ok((StyleRecordView { id: id as u32, properties }, pos + 8 + blob_len))
                                },
                            },
                        }
                    },
                },
            }
        },
    }
}

/// Decoding the first `n` style records starting at byte 4.
pub open spec fn style_items_spec(p: Seq<u8>, n: nat) -> Result<(Seq<StyleRecordView>, int), ErrorKind>
    decreases n,
{
    if n == 0 {
        Ok((Seq::empty(), 4))
    } else {
        match style_items_spec(p, (n - 1) as nat) {
            Err(k) => Err(k),
            Ok((items, pos)) => match style_item_spec(p, pos, n - 1) {
                Err(k) => Err(k),
                Ok((item, end)) => Ok((items.push(item), end)),
            },
        }
    }
}

/// The outcome of decoding a STYL payload.
pub open spec fn styles_spec(p: Seq<u8>) -> Result<Seq<StyleRecordView>, ErrorKind> {
    match take_int(p, 0, 4) {
        Err(k) => Err(k),
        Ok(count) => if count > 16777216 {
            Err(ErrorKind::InvalidValue)
        } else {
            match style_items_spec(p, count as nat) {
                Err(k) => Err(k),
                Ok((items, end)) => if end != p.len() {
                    Err(ErrorKind::InvalidValue)
                } else {
                    Ok(items)
                },
            }
        },
    }
}

proof fn lemma_props_err_sticks(blob: Seq<u8>, m: nat, n: nat)
    requires
        m <= n,
        properties_spec(blob, m) is Err,
    ensures
        properties_spec(blob, n) == properties_spec(blob, m),
    decreases n - m,
{
    if m < n {
        lemma_props_err_sticks(blob, m, (n - 1) as nat);
    }
}

proof fn lemma_items_err_sticks(p: Seq<u8>, m: nat, n: nat)
    requires
        m <= n,
        style_items_spec(p, m) is Err,
    ensures
        style_items_spec(p, n) == style_items_spec(p, m),
    decreases n - m,
{
    if m < n {
        lemma_items_err_sticks(p, m, (n - 1) as nat);
    }
}

fn decode_property(b: &mut Cursor) -> (r: Result<StyleProperty, Error>)
    requires
        old(b).pos <= old(b).bytes@.len(),
        old(b).section is None,
    ensures
        final(b).bytes == old(b).bytes,
        final(b).section is None,
        final(b).pos <= final(b).bytes@.len(),
        match property_spec(old(b).bytes@, old(b).pos as int) {
            Ok((v, end)) => r == Ok::<StyleProperty, Error>(v) && final(b).pos == end,
            Err(k) => r matches Err(e) && e.kind == k && e.section is None,
        },
{
    reveal(property_spec);
    let tag_value = b.u16("property tag")?;
    let tag = match PropertyTag::from_code(tag_value) {
        Some(tag) => tag,
        None => {
            return Err(error_at(ErrorKind::InvalidValue, None, "unknown property tag"));
        },
    };
    let value = match tag {
        PropertyTag::FontId => PropertyValue::U32(b.u32("property value")?),
        PropertyTag::FontSizePx => PropertyValue::F32(b.u32("property value")?),
        PropertyTag::LineHeight => PropertyValue::F32(b.u32("property value")?),
        PropertyTag::FontWeight => PropertyValue::U16(b.u16("property value")?),
        PropertyTag::Italic => PropertyValue::U8(b.u8("property value")?),
        PropertyTag::Color => PropertyValue::U32(b.u32("property value")?),
        PropertyTag::BackgroundColor => PropertyValue::U32(b.u32("property value")?),
        PropertyTag::MarginTop => PropertyValue::F32(b.u32("property value")?),
        PropertyTag::MarginBottom => PropertyValue::F32(b.u32("property value")?),
        PropertyTag::TextAlign => PropertyValue::U8(b.u8("property value")?),
        PropertyTag::TextIndent => PropertyValue::F32(b.u32("property value")?),
        PropertyTag::ListStyle => PropertyValue::U8(b.u8("property value")?),
        PropertyTag::Code => PropertyValue::U8(b.u8("property value")?),
        PropertyTag::Underline => PropertyValue::U8(b.u8("property value")?),
        PropertyTag::LetterSpacing => PropertyValue::F32(b.u32("property value")?),
        PropertyTag::WhiteSpace => PropertyValue::U8(b.u8("property value")?),
    };
    Ok(StyleProperty { tag, value })
}

fn decode_properties(blob: &[u8], property_count: u16) -> (r: Result<Vec<StyleProperty>, Error>)
    ensures
        match properties_spec(blob@, property_count as nat) {
            Ok((ps, end)) => if end != blob@.len() {
                r matches Err(e) && e.kind == ErrorKind::InvalidValue && e.section is None
            } else {
                r matches Ok(v) && v@ == ps
            },
            Err(k) => r matches Err(e) && e.kind == k && e.section is None,
        },
{
    let ghost bl = blob@;
    let mut b = Cursor::new(blob, 0, None);
    let mut properties: Vec<StyleProperty> = Vec::new();
    let mut k: usize = 0;
    while k < property_count as usize
        invariant
            bl == blob@,
            b.bytes@ == bl,
            b.section is None,
            b.pos <= bl.len(),
            k <= property_count,
            properties_spec(bl, k as nat) == Ok::<(Seq<StyleProperty>, int), ErrorKind>((properties@, b.pos as int)),
        decreases property_count - k,
    {
        let prop = match decode_property(&mut b) {
            Ok(prop) => prop,
            Err(e) => {
                assert(properties_spec(bl, (k + 1) as nat) == Err::<(Seq<StyleProperty>, int), ErrorKind>(e.kind));
                proof {
                    lemma_props_err_sticks(bl, (k + 1) as nat, property_count as nat);
                }
                return Err(e);
            },
        };
        properties.push(prop);
        k += 1;
    }
    b.finish("style blob")?;
    Ok(properties)
}

fn decode_record(c: &mut Cursor, i: usize) -> (r: Result<StyleRecord, Error>)
    requires
        old(c).pos <= old(c).bytes@.len(),
        old(c).section is None,
        i < 16777216,
    ensures
        final(c).bytes == old(c).bytes,
        final(c).section is None,
        final(c).pos <= final(c).bytes@.len(),
        match style_item_spec(old(c).bytes@, old(c).pos as int, i as int) {
            Ok((v, end)) => r matches Ok(x) && x@ == v && final(c).pos == end,
            Err(k) => r matches Err(e) && e.kind == k && e.section is None,
        },
{
    reveal(style_item_spec);
    let id = c.u32("style id")?;
    if id as u64 != i as u64 {
        return Err(error_at(ErrorKind::InvalidValue, None, "style id is not dense"));
    }
    let property_count = c.u16("style property count")?;
    let blob_len = c.u16("style blob len")?;
    if property_count as u64 > MAX_PROPERTIES_PER_STYLE {
        return Err(error_at(ErrorKind::InvalidValue, None, "too many style properties"));
    }
    let blob = c.bytes(blob_len as usize, "style blob")?;
    let properties = decode_properties(blob, property_count)?;
    Ok(StyleRecord { id, properties })
}

/// Decode the STYL payload.
pub fn decode(payload: &[u8]) -> (r: Result<Vec<StyleRecord>, Error>)
    ensures
        match styles_spec(payload@) {
            Ok(v) => r matches Ok(out) && out@.map_values(|x: StyleRecord| x@) == v,
            Err(k) => r matches Err(e) && e.kind == k && e.section is None,
        },
{
    let ghost p = payload@;
    let mut c = Cursor::new(payload, 0, None);
    let style_count = c.u32("style count")?;
    if style_count as u64 > MAX_STYLE_COUNT {
        return Err(error_at(ErrorKind::InvalidValue, None, "style count exceeds the cap"));
    }
    let mut out: Vec<StyleRecord> = Vec::new();
    assert(out@.map_values(|x: StyleRecord| x@) =~= Seq::<StyleRecordView>::empty());
    let mut i: usize = 0;
    while i < style_count as usize
        invariant
            p == payload@,
            c.bytes@ == p,
            c.section is None,
            c.pos <= p.len(),
            i <= style_count,
            style_count <= 16777216,
            take_int(p, 0, 4) == Ok::<int, ErrorKind>(style_count as int),
            style_items_spec(p, i as nat) == Ok::<(Seq<StyleRecordView>, int), ErrorKind>(
                (out@.map_values(|x: StyleRecord| x@), c.pos as int),
            ),
        decreases style_count - i,
    {
        let item = match decode_record(&mut c, i) {
            Ok(item) => item,
            Err(e) => {
                assert(style_items_spec(p, (i + 1) as nat) == Err::<(Seq<StyleRecordView>, int), ErrorKind>(e.kind));
                proof {
                    lemma_items_err_sticks(p, (i + 1) as nat, style_count as nat);
                }
                return Err(e);
            },
        };
        let ghost before = out@;
        out.push(item);
        assert(out@.map_values(|x: StyleRecord| x@) =~= before.map_values(|x: StyleRecord| x@).push(item@));
        i += 1;
    }
    c.finish("STYL payload")?;
    Ok(out)
}

} // verus!
