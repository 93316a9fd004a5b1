//! List marker style codes (the `list_style` style property).

use vstd::prelude::*;

verus! {

/// No marker.
pub const NONE: u8 = 0;
/// `•` disc.
pub const DISC: u8 = 1;
/// `◦` hollow disc.
pub const CIRCLE: u8 = 2;
/// `▪` square.
pub const SQUARE: u8 = 3;
/// Decimal counter (`1.`).
pub const DECIMAL: u8 = 4;
/// Lowercase alpha counter (`a.`).
pub const LOWER_ALPHA: u8 = 5;
/// Uppercase alpha counter (`A.`).
pub const UPPER_ALPHA: u8 = 6;
/// Lowercase roman counter (`iv.`).
pub const LOWER_ROMAN: u8 = 7;
/// Uppercase roman counter (`IV.`).
pub const UPPER_ROMAN: u8 = 8;

} // verus!
