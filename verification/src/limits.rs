//! Format limits. The reader enforces every cap before allocating or
//! interpreting untrusted lengths.

use vstd::prelude::*;

verus! {

/// Maximum number of section table entries.
pub const MAX_SECTION_COUNT: u64 = 64;
/// Maximum decoded length of a single section (2 GiB).
pub const MAX_SECTION_DECODED_LEN: u64 = 2147483648;
/// Maximum total decoded size (4 GiB).
pub const MAX_TOTAL_DECODED: u64 = 4294967296;
/// Maximum file size (4 GiB).
pub const MAX_FILE_LEN: u64 = 4294967296;
/// Maximum chunk records in a CHNK section.
pub const MAX_CHUNK_COUNT: u64 = 268435456;
/// Maximum style records in a STYL section.
pub const MAX_STYLE_COUNT: u64 = 16777216;
/// Maximum content payloads in a CONT section.
pub const MAX_CONTENT_COUNT: u64 = 16777216;
/// Maximum atlas page dimension in texels.
pub const MAX_PAGE_DIM: u64 = 8192;
/// Maximum glyph records per atlas.
pub const MAX_GLYPH_COUNT: u64 = 65536;
/// Maximum kerning pairs per atlas.
pub const MAX_KERNING_COUNT: u64 = 16777216;
/// Maximum images in an IMGS section.
pub const MAX_IMAGE_COUNT: u64 = 1048576;
/// Maximum image dimension in pixels.
pub const MAX_IMAGE_DIM: u64 = 16384;
/// Maximum INFO JSON bytes.
pub const MAX_INFO_LEN: u64 = 1048576;
/// Maximum chunk extras in a CHNK section.
pub const MAX_EXTRA_COUNT: u64 = 67108864;
/// Maximum chunk depth.
pub const MAX_CHUNK_DEPTH: u64 = 65536;
/// Maximum atlases in a GLYF section.
pub const MAX_ATLAS_COUNT: u64 = 65536;
/// Maximum family name bytes.
pub const MAX_FAMILY_LEN: u64 = 1024;
/// Maximum properties per style record.
pub const MAX_PROPERTIES_PER_STYLE: u64 = 64;
/// Maximum covered sections in a SEAL.
pub const MAX_COVERED_SECTIONS: u64 = 64;

} // verus!
