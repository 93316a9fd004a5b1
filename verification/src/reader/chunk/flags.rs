//! Chunk flag bits.

use vstd::prelude::*;

verus! {

/// Excluded by semantic culling.
pub const HIDDEN: u8 = 1;
/// Layout hint: avoid a break between this chunk and the next.
pub const KEEP_WITH_NEXT: u8 = 2;
/// Layout hint: force a break before this chunk.
pub const BREAK_BEFORE: u8 = 4;
/// Suppress line wrapping (code).
pub const NO_WRAP: u8 = 8;
/// No direct geometry (document/list/table/row).
pub const STRUCTURAL: u8 = 16;
/// All valid flag bits.
pub const ALL: u8 = 31;

} // verus!
