# glyphcull_core

The platform-agnostic core of the GlyphCull document runtime, written in
Verus: every function in `src/` carries a `requires`/`ensures` contract that
Verus proves.

- `src/reader` — the `.cull` container reader: header and section table
  validation, zlib with explicit header and Adler-32 checks, per-section
  CRC-32, typed section decoders (INFO, CHNK, STYL, CONT, GLYF, IMGS, SEAL)
  and SEAL verification.
- `src/document` — the document model: chunk-graph validation, style
  resolution, content and reference resolution, and the proof that on a
  validated graph the document-order walks reach every chunk exactly once.
- `src/lifecycle`, `src/clock` — the chunk lifecycle state machine over an
  injected clock.
- `src/materialize` — the materialization scheduler and its binary heap.
- `src/visibility` — semantic culling and the structural aggregation of the
  visible set.
- `src/glyphs` — the budgeted, chunk-owned glyph stamp cache.
- `src/selection`, `src/layout` — logical selection and copy, text breaking,
  list markers, atlas lookups.
- `src/draw_list` — the draw-list builder's texture seam.

`app/` holds the floating-point side (layout engine, Knuth–Plass, glyph
stamps, hit testing, selection quads, draw lists) around the library, and
`tests/` exercises the library from outside.

Calls into `crc32fast`, `flate2`, `sha2`, `unicode-general-category` and
`unicode-script` stand behind small trusted wrappers whose contracts state
what those crates document.
