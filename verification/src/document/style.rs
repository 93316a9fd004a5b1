//! Style resolution: a style record's explicit properties applied over the
//! format defaults. Floating-point properties are carried as their IEEE-754
//! binary32 bit patterns.

use vstd::prelude::*;
use crate::reader::style::{PropertyTag, PropertyValue, StyleProperty, StyleRecord};

verus! {

/// The bit pattern of `16.0f32`.
pub const DEFAULT_FONT_SIZE_BITS: u32 = 0x4180_0000;
/// The bit pattern of `1.5f32`.
pub const DEFAULT_LINE_HEIGHT_BITS: u32 = 0x3FC0_0000;

/// A fully resolved style: absent properties take the format defaults.
///
/// The enum-like `u8` values (`text_align`, `list_style`, `white_space`) are
/// carried as raw bytes; their meaning is interpreted by the consumers.
#[derive(Debug, Clone, Copy, PartialEq, Eq, Structural)]
pub struct ResolvedStyle {
    /// Index into the GLYF atlas table.
    pub font_id: u32,
    /// Font size in px (binary32 bits).
    pub font_size_px: u32,
    /// Line height as a multiplier of the font size (binary32 bits).
    pub line_height: u32,
    /// Font weight (100..=900).
    pub font_weight: u16,
    /// Whether the face is italic.
    pub italic: bool,
    /// Text color as u32 RGBA.
    pub color: u32,
    /// Background color as u32 RGBA.
    pub background_color: u32,
    /// Top margin in px (binary32 bits).
    pub margin_top: u32,
    /// Bottom margin in px (binary32 bits).
    pub margin_bottom: u32,
    /// Text alignment: 0 start, 1 center, 2 end, 3 justify.
    pub text_align: u8,
    /// First-line indent in px (binary32 bits).
    pub text_indent: u32,
    /// List marker style: 0 none … 8 upper_roman.
    pub list_style: u8,
    /// Whether the style is monospace/code.
    pub code: bool,
    /// Whether the style underlines.
    pub underline: bool,
    /// Letter spacing in px (binary32 bits).
    pub letter_spacing: u32,
    /// White-space handling: 0 normal, 1 pre, 2 nowrap.
    pub white_space: u8,
}

/// The format defaults.
pub open spec fn default_style() -> ResolvedStyle {
    ResolvedStyle {
        font_id: 0,
        font_size_px: DEFAULT_FONT_SIZE_BITS,
        line_height: DEFAULT_LINE_HEIGHT_BITS,
        font_weight: 400,
        italic: false,
        color: 0x0000_00ff,
        background_color: 0,
        margin_top: 0,
        margin_bottom: 0,
        text_align: 0,
        text_indent: 0,
        list_style: 0,
        code: false,
        underline: false,
        letter_spacing: 0,
        white_space: 0,
    }
}

impl Default for ResolvedStyle {
    /// The format defaults.
    fn default() -> (r: Self)
        ensures
            r == default_style(),
    {
        ResolvedStyle {
            font_id: 0,
            font_size_px: DEFAULT_FONT_SIZE_BITS,
            line_height: DEFAULT_LINE_HEIGHT_BITS,
            font_weight: 400,
            italic: false,
            color: 0x0000_00ff,
            background_color: 0,
            margin_top: 0,
            margin_bottom: 0,
            text_align: 0,
            text_indent: 0,
            list_style: 0,
            code: false,
            underline: false,
            letter_spacing: 0,
            white_space: 0,
        }
    }
}

/// A `u32` property value (0 for another width).
pub open spec fn value_u32(v: PropertyValue) -> u32 {
    match v {
        PropertyValue::U32(x) => x,
        _ => 0,
    }
}

/// An `f32` property value's bits (those of `0.0` for another width).
pub open spec fn value_f32(v: PropertyValue) -> u32 {
    match v {
        PropertyValue::F32(x) => x,
        _ => 0,
    }
}

/// A `u16` property value (0 for another width).
pub open spec fn value_u16(v: PropertyValue) -> u16 {
    match v {
        PropertyValue::U16(x) => x,
        _ => 0,
    }
}

/// A `u8` property value (0 for another width).
pub open spec fn value_u8(v: PropertyValue) -> u8 {
    match v {
        PropertyValue::U8(x) => x,
        _ => 0,
    }
}

/// Applying one property: its tag selects the field it sets.
pub open spec fn apply_property(s: ResolvedStyle, p: StyleProperty) -> ResolvedStyle {
    match p.tag {
        PropertyTag::FontId => ResolvedStyle { font_id: value_u32(p.value), ..s },
        PropertyTag::FontSizePx => ResolvedStyle { font_size_px: value_f32(p.value), ..s },
        PropertyTag::LineHeight => ResolvedStyle { line_height: value_f32(p.value), ..s },
        PropertyTag::FontWeight => ResolvedStyle { font_weight: value_u16(p.value), ..s },
        PropertyTag::Italic => ResolvedStyle { italic: value_u8(p.value) != 0, ..s },
        PropertyTag::Color => ResolvedStyle { color: value_u32(p.value), ..s },
        PropertyTag::BackgroundColor => ResolvedStyle { background_color: value_u32(p.value), ..s },
        PropertyTag::MarginTop => ResolvedStyle { margin_top: value_f32(p.value), ..s },
        PropertyTag::MarginBottom => ResolvedStyle { margin_bottom: value_f32(p.value), ..s },
        PropertyTag::TextAlign => ResolvedStyle { text_align: value_u8(p.value), ..s },
        PropertyTag::TextIndent => ResolvedStyle { text_indent: value_f32(p.value), ..s },
        PropertyTag::ListStyle => ResolvedStyle { list_style: value_u8(p.value), ..s },
        PropertyTag::Code => ResolvedStyle { code: value_u8(p.value) != 0, ..s },
        PropertyTag::Underline => ResolvedStyle { underline: value_u8(p.value) != 0, ..s },
        PropertyTag::LetterSpacing => ResolvedStyle { letter_spacing: value_f32(p.value), ..s },
        PropertyTag::WhiteSpace => ResolvedStyle { white_space: value_u8(p.value), ..s },
    }
}

/// The defaults with the first `n` properties applied in order (a later
/// property of the same tag wins).
pub open spec fn resolve_spec(props: Seq<StyleProperty>, n: nat) -> ResolvedStyle
    decreases n,
{
    if n == 0 {
        default_style()
    } else {
        apply_property(resolve_spec(props, (n - 1) as nat), props[n - 1])
    }
}

fn u32_of(property: &StyleProperty) -> (r: u32)
    ensures
        r == value_u32(property.value),
{
    match property.value {
        PropertyValue::U32(v) => v,
        _ => 0,
    }
}

fn f32_of(property: &StyleProperty) -> (r: u32)
    ensures
        r == value_f32(property.value),
{
    match property.value {
        PropertyValue::F32(v) => v,
        _ => 0,
    }
}

fn u16_of(property: &StyleProperty) -> (r: u16)
    ensures
        r == value_u16(property.value),
{
    match property.value {
        PropertyValue::U16(v) => v,
        _ => 0,
    }
}

fn u8_of(property: &StyleProperty) -> (r: u8)
    ensures
        r == value_u8(property.value),
{
    match property.value {
        PropertyValue::U8(v) => v,
        _ => 0,
    }
}

fn bool_of(property: &StyleProperty) -> (r: bool)
    ensures
        r == (value_u8(property.value) != 0),
{
    u8_of(property) != 0
}

/// Resolve a style record against the format defaults.
pub fn resolve_style(record: &StyleRecord) -> (r: ResolvedStyle)
    ensures
        r == resolve_spec(record@.properties, record@.properties.len()),
{
    let mut out = ResolvedStyle::default();
    let mut i: usize = 0;
    while i < record.properties.len()
        invariant
            i <= record@.properties.len(),
            record@.properties == record.properties@,
            out == resolve_spec(record@.properties, i as nat),
        decreases record@.properties.len() - i,
    {
        let property = &record.properties[i];
        match property.tag {
            PropertyTag::FontId => out.font_id = u32_of(property),
            PropertyTag::FontSizePx => out.font_size_px = f32_of(property),
            PropertyTag::LineHeight => out.line_height = f32_of(property),
            PropertyTag::FontWeight => out.font_weight = u16_of(property),
            PropertyTag::Italic => out.italic = bool_of(property),
            PropertyTag::Color => out.color = u32_of(property),
            PropertyTag::BackgroundColor => out.background_color = u32_of(property),
            PropertyTag::MarginTop => out.margin_top = f32_of(property),
            PropertyTag::MarginBottom => out.margin_bottom = f32_of(property),
            PropertyTag::TextAlign => out.text_align = u8_of(property),
            PropertyTag::TextIndent => out.text_indent = f32_of(property),
            PropertyTag::ListStyle => out.list_style = u8_of(property),
            PropertyTag::Code => out.code = bool_of(property),
            PropertyTag::Underline => out.underline = bool_of(property),
            PropertyTag::LetterSpacing => out.letter_spacing = f32_of(property),
            PropertyTag::WhiteSpace => out.white_space = u8_of(property),
        }
        i = i + 1;
    }
    out
}

/// Properties of different tags commute: resolving is insensitive to the
/// relative order of two adjacent properties with distinct tags.
pub proof fn lemma_distinct_tags_commute(s: ResolvedStyle, p: StyleProperty, q: StyleProperty)
    requires
        p.tag != q.tag,
    ensures
        apply_property(apply_property(s, p), q) == apply_property(apply_property(s, q), p),
{
}

/// A later property of the same tag overrides an earlier one.
pub proof fn lemma_same_tag_overrides(s: ResolvedStyle, p: StyleProperty, q: StyleProperty)
    requires
        p.tag == q.tag,
    ensures
        apply_property(apply_property(s, p), q) == apply_property(s, q),
{
}

/// The field of a resolved style that properties with `tag` set, as an
/// integer (a flag reads as 0 or 1).
pub open spec fn style_field(s: ResolvedStyle, tag: PropertyTag) -> int {
    match tag {
        PropertyTag::FontId => s.font_id as int,
        PropertyTag::FontSizePx => s.font_size_px as int,
        PropertyTag::LineHeight => s.line_height as int,
        PropertyTag::FontWeight => s.font_weight as int,
        PropertyTag::Italic => if s.italic { 1 } else { 0 },
        PropertyTag::Color => s.color as int,
        PropertyTag::BackgroundColor => s.background_color as int,
        PropertyTag::MarginTop => s.margin_top as int,
        PropertyTag::MarginBottom => s.margin_bottom as int,
        PropertyTag::TextAlign => s.text_align as int,
        PropertyTag::TextIndent => s.text_indent as int,
        PropertyTag::ListStyle => s.list_style as int,
        PropertyTag::Code => if s.code { 1 } else { 0 },
        PropertyTag::Underline => if s.underline { 1 } else { 0 },
        PropertyTag::LetterSpacing => s.letter_spacing as int,
        PropertyTag::WhiteSpace => s.white_space as int,
    }
}

/// The value a property with `tag` carries, read at the tag's width (a
/// flag is set by any non-zero byte).
pub open spec fn tag_value(tag: PropertyTag, v: PropertyValue) -> int {
    match tag {
        PropertyTag::FontId | PropertyTag::Color | PropertyTag::BackgroundColor => value_u32(v) as int,
        PropertyTag::FontSizePx | PropertyTag::LineHeight | PropertyTag::MarginTop | PropertyTag::MarginBottom
        | PropertyTag::TextIndent | PropertyTag::LetterSpacing => value_f32(v) as int,
        PropertyTag::FontWeight => value_u16(v) as int,
        PropertyTag::Italic | PropertyTag::Code | PropertyTag::Underline => if value_u8(v) != 0 { 1 } else { 0 },
        PropertyTag::TextAlign | PropertyTag::ListStyle | PropertyTag::WhiteSpace => value_u8(v) as int,
    }
}

/// One property sets the field its tag selects and no other.
proof fn lemma_apply_sets_its_field(s: ResolvedStyle, p: StyleProperty, tag: PropertyTag)
    ensures
        style_field(apply_property(s, p), tag) == (if p.tag == tag { tag_value(tag, p.value) } else { style_field(s, tag) }),
{
}

/// Resolution, field by field: the field a tag selects holds the value of
/// the last of the first `n` properties with that tag, and the format
/// default when none of them has it.
pub proof fn lemma_resolved_field_is_last_property(props: Seq<StyleProperty>, n: nat, tag: PropertyTag)
    requires
        n <= props.len(),
    ensures
        forall|i: int|
            0 <= i < n && props[i].tag == tag && (forall|j: int| i < j < n ==> props[j].tag != tag) ==> style_field(
                resolve_spec(props, n),
                tag,
            ) == tag_value(tag, #[trigger] props[i].value),
        (forall|i: int| 0 <= i < n ==> props[i].tag != tag) ==> style_field(resolve_spec(props, n), tag) == style_field(
            default_style(),
            tag,
        ),
    decreases n,
{
    if n > 0 {
        let m = (n - 1) as nat;
        lemma_resolved_field_is_last_property(props, m, tag);
        lemma_apply_sets_its_field(resolve_spec(props, m), props[m as int], tag);
        assert forall|i: int|
            0 <= i < n && props[i].tag == tag && (forall|j: int| i < j < n ==> props[j].tag != tag) implies style_field(
                resolve_spec(props, n),
                tag,
            ) == tag_value(tag, #[trigger] props[i].value) by {
            if i < m {
                assert(props[m as int].tag != tag);
            }
        }
    }
}

} // verus!
