use glyphcull_core::layout::measure::{glyph_for, kerning_adjust};
use glyphcull_core::reader::glyph::{Atlas, GlyphRecord, KerningPair};

fn glyph(codepoint: u32, advance: f32, no_outline: bool, combining: bool) -> GlyphRecord {
    GlyphRecord {
        codepoint,
        advance: advance.to_bits(),
        bearing_x: 0.0f32.to_bits(),
        bearing_y: 0.0f32.to_bits(),
        box_x: 0,
        box_y: 0,
        box_w: 1,
        box_h: 1,
        page_index: 0,
        no_outline,
        combining,
    }
}

fn atlas() -> Atlas {
    Atlas {
        font_id: 0,
        glyphs: vec![glyph(0x20, 0.25, true, false), glyph(0x61, 0.5, false, false), glyph(0x62, 0.6, false, false)],
        page_count: 1,
        padding: 2,
        texels_per_em_raw: 32768,
        ascent: 0.8f32.to_bits(),
        descent: 0.2f32.to_bits(),
        line_gap: 0.0f32.to_bits(),
        cap_height: 0.7f32.to_bits(),
        x_height: 0.5f32.to_bits(),
        units_per_em: 1000.0f32.to_bits(),
        family: "test".into(),
        weight: 400,
        italic: false,
        page_width: 64,
        page_height: 64,
        kerning: vec![KerningPair { left: 0x61, right: 0x62, adjust: (-0.05f32).to_bits() }],
        pages: vec![vec![0u8; 64 * 64 * 4]],
    }
}

#[test]
fn atlas_glyph_lookup_is_a_binary_search() {
    let atlas = atlas();
    assert!(glyph_for(&atlas, 0x61).is_some());
    assert!(glyph_for(&atlas, 0x63).is_none());
    assert_eq!(kerning_adjust(&atlas, 0x61, 0x62).map(f32::from_bits), Some(-0.05));
    assert_eq!(kerning_adjust(&atlas, 0x62, 0x61), None);
}

#[test]
fn every_record_is_found_by_its_codepoint() {
    let atlas = atlas();
    for cp in [0x20u32, 0x61, 0x62] {
        assert_eq!(glyph_for(&atlas, cp).map(|g| g.codepoint), Some(cp));
    }
    assert!(glyph_for(&atlas, 0).is_none());
    assert!(glyph_for(&atlas, u32::MAX).is_none());
}
