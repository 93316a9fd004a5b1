//! GlyphCull core: the platform-agnostic runtime for compiled `.cull`
//! documents.
//!
//! - [`error`] — typed reader errors.
//! - [`limits`] — the format caps enforced before allocating on untrusted
//!   lengths.
//! - [`reader`] — the `.cull` container reader and its typed section decoders.
//! - [`document`] — the trusted document model (chunk-graph validation, style
//!   resolution, content resolution).
//! - [`clock`] — the injected time source.
//! - [`lifecycle`] — the chunk lifecycle state machine.
//! - [`layout`] — text breaking and list markers.
//! - [`selection`] — logical selection and plain-text copy.
//! - [`visibility`] — semantic culling over the chunk tree.
//! - [`draw_list`] — the draw-list builder's texture seam.
//! - [`materialize`] — the streaming materialization scheduler and its
//!   priority queue.
//! - [`glyphs`] — the budgeted, chunk-owned glyph stamp cache.

pub mod error;
pub mod limits;
pub mod text;
pub mod reader;
pub mod clock;
pub mod lifecycle;
pub mod layout;
pub mod document;
pub mod selection;
pub mod visibility;
pub mod draw_list;
pub mod materialize;
pub mod glyphs;
