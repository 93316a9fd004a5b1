//! Text breaking and list markers.
//!
//! - [`breaks`] — tokenization of text into breakable units (word
//!   boundaries, punctuation binding, CJK, forced breaks).
//! - [`layout`] — list marker text (decimal, alphabetic and roman counters).
//! - [`measure`] — atlas glyph and kerning lookups.

pub mod breaks;
pub mod layout;
pub mod measure;
