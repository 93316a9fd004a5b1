//! Selection: selection is logical, rendering is geometric.
//!
//! A [`TextPosition`] is a run chunk id plus a character offset into the run's
//! payload text — independent of pixels, so a selection stays stable across
//! re-materialization and scrolling. [`Selection`] is an ordered pair (start ≤
//! end in document order). `copy_text` extracts plain text from chunk content
//! with this boundary policy:
//!
//! ```text
//! between runs of the same block        → ''        (the source text re-joins)
//! between blocks (paragraph boundary)   → '\n'
//! between cells of the same table row   → '\t'
//! between cells of different rows       → '\n'
//! `br` chunks                           → '\n'      (explicit hard break)
//! ```
//!
//! Everything here is a pure function of (document, selection). Document-order
//! indices come from the pre-order `all_ids`. Offsets count characters.

use vstd::prelude::*;
use std::cmp::Ordering;
use crate::document::graph::chunk_at;
use crate::document::model::{build_spec, direct_text_of, preorder, DocumentModel, DocumentView};
use crate::document::tree::{depth_of, lemma_parent_links};
use crate::reader::Package;
use crate::document::{block_kind, is_block_kind};
use crate::reader::chunk::{ChunkKind, ChunkRecord};
use crate::text::{chars_of, push_char, push_str};

verus! {

/// A logical text position: a run chunk + a character offset in its payload.
#[derive(Debug, Clone, Copy, PartialEq, Eq, Structural)]
pub struct TextPosition {
    /// The run chunk id.
    pub chunk_id: u32,
    /// Character offset into the run's payload text.
    pub offset: usize,
}

/// A normalized selection: `start` ≤ `end` in document order.
#[derive(Debug, Clone, Copy, PartialEq, Eq, Structural)]
pub struct Selection {
    /// The selection start.
    pub start: TextPosition,
    /// The selection end.
    pub end: TextPosition,
}

/// The chunk ids of a document in pre-order.
pub open spec fn ids_spec(m: DocumentView) -> Seq<u32> {
    preorder(m.chunks, seq![m.root.id], m.chunks.len())
}

/// `id - 1`, or 0 for id 0.
pub open spec fn slot(id: u32) -> int {
    if id == 0 {
        0
    } else {
        id - 1
    }
}

/// The value of slot `k` of the order index after the first `m` ids: the
/// last position whose id lands in the slot, or 0.
pub open spec fn slot_value(ids: Seq<u32>, k: int, m: nat) -> int
    decreases m,
{
    if m == 0 {
        0
    } else if slot(ids[m - 1]) == k {
        m - 1
    } else {
        slot_value(ids, k, (m - 1) as nat)
    }
}

/// The pre-order position of a chunk id (0 for ids outside the index).
pub open spec fn index_spec(ids: Seq<u32>, id: u32) -> int {
    if slot(id) < ids.len() {
        slot_value(ids, slot(id), ids.len())
    } else {
        0
    }
}

/// Document order on positions: by pre-order index, then by offset.
pub open spec fn position_order(ids: Seq<u32>, a: TextPosition, b: TextPosition) -> int {
    let ia = index_spec(ids, a.chunk_id);
    let ib = index_spec(ids, b.chunk_id);
    if ia < ib {
        -1
    } else if ia > ib {
        1
    } else if a.offset < b.offset {
        -1
    } else if a.offset > b.offset {
        1
    } else {
        0
    }
}

/// The pre-order position of every chunk id: `position[i]` is the position
/// of chunk `i + 1`.
pub fn order_index(doc: &DocumentModel<'_>) -> (r: Vec<usize>)
    ensures
        r@.len() == ids_spec(doc@).len(),
        forall|k: int| 0 <= k < r@.len() ==> r@[k] as int == slot_value(ids_spec(doc@), k, ids_spec(doc@).len()),
        forall|k: int| 0 <= k < r@.len() ==> r@[k] < r@.len(),
{
    let ids = doc.all_ids();
    let n = ids.len();
    let mut position: Vec<usize> = Vec::new();
    let mut k: usize = 0;
    while k < n
        invariant
            k <= n,
            position@.len() == k,
            forall|j: int| 0 <= j < k ==> position@[j] == 0,
            forall|j: int| 0 <= j < k ==> position@[j] < n,
        decreases n - k,
    {
        position.push(0);
        k = k + 1;
    }
    let mut i: usize = 0;
    while i < n
        invariant
            n == ids@.len(),
            ids@ == ids_spec(doc@),
            i <= n,
            position@.len() == n,
            forall|k: int| 0 <= k < n ==> position@[k] as int == slot_value(ids@, k, i as nat),
            forall|k: int| 0 <= k < n ==> position@[k] < n,
        decreases n - i,
    {
        let id = ids[i];
        let s: usize = if id == 0 { 0 } else { (id - 1) as usize };
        if s < n {
            position.set(s, i);
        }
        i = i + 1;
    }
    position
}

/// The pre-order position of a chunk id (0 for out-of-range ids).
pub fn index_of(position: &Vec<usize>, chunk_id: u32) -> (r: usize)
    ensures
        r == (if slot(chunk_id) < position@.len() { position@[slot(chunk_id)] } else { 0 }),
        (forall|k: int| 0 <= k < position@.len() ==> position@[k] < position@.len()) ==> r <= position@.len(),
{
    let s: usize = if chunk_id == 0 { 0 } else { (chunk_id - 1) as usize };
    if s < position.len() {
        position[s]
    } else {
        0
    }
}

/// Comparing positions is a total preorder on document positions: swapping
/// the arguments flips the answer, and it is transitive.
pub proof fn lemma_position_order_is_total(ids: Seq<u32>, a: TextPosition, b: TextPosition, c: TextPosition)
    ensures
        position_order(ids, a, b) == -position_order(ids, b, a),
        position_order(ids, a, b) <= 0 && position_order(ids, b, c) <= 0 ==> position_order(ids, a, c) <= 0,
        position_order(ids, a, a) == 0,
{
}

/// Compare two positions in document order: `Less`, `Equal`, or `Greater`.
pub fn compare_positions(doc: &DocumentModel<'_>, a: TextPosition, b: TextPosition) -> (r: Ordering)
    ensures
        r == (if position_order(ids_spec(doc@), a, b) < 0 {
            Ordering::Less
        } else if position_order(ids_spec(doc@), a, b) > 0 {
            Ordering::Greater
        } else {
            Ordering::Equal
        }),
{
    let index = order_index(doc);
    let ia = index_of(&index, a.chunk_id);
    let ib = index_of(&index, b.chunk_id);
    if ia < ib {
        Ordering::Less
    } else if ia > ib {
        Ordering::Greater
    } else if a.offset < b.offset {
        Ordering::Less
    } else if a.offset > b.offset {
        Ordering::Greater
    } else {
        Ordering::Equal
    }
}

/// Order two positions into a normalized selection (start ≤ end).
pub fn normalize_selection(doc: &DocumentModel<'_>, a: TextPosition, b: TextPosition) -> (r: Selection)
    ensures
        position_order(ids_spec(doc@), a, b) > 0 ==> r == (Selection { start: b, end: a }),
        position_order(ids_spec(doc@), a, b) <= 0 ==> r == (Selection { start: a, end: b }),
{
    match compare_positions(doc, a, b) {
        Ordering::Greater => Selection { start: b, end: a },
        _ => Selection { start: a, end: b },
    }
}

/// Whether a selection covers no text.
pub open spec fn collapsed(s: Selection) -> bool {
    s.start.chunk_id == s.end.chunk_id && s.start.offset == s.end.offset
}

/// Whether a selection covers no text (start == end).
pub fn is_collapsed(selection: Selection) -> (r: bool)
    ensures
        r == collapsed(selection),
{
    selection.start.chunk_id == selection.end.chunk_id && selection.start.offset == selection.end.offset
}

/// Normalizing yields a selection whose start does not come after its end.
pub proof fn lemma_normalized_is_ordered(ids: Seq<u32>, a: TextPosition, b: TextPosition)
    ensures
        ({
            let s = if position_order(ids, a, b) > 0 {
                Selection { start: b, end: a }
            } else {
                Selection { start: a, end: b }
            };
            position_order(ids, s.start, s.end) <= 0
        }),
{
}

/// The ids between two pre-order positions, inclusive.
pub open spec fn covered_spec(ids: Seq<u32>, s: int, e: int) -> Seq<u32> {
    let count = if e > s { e - s + 1 } else { 1 };
    let lo = if s < ids.len() { s } else { ids.len() as int };
    let hi = if lo + count < ids.len() { lo + count } else { ids.len() as int };
    ids.subrange(lo, hi)
}

/// The chunk ids between the selection's endpoints, inclusive, in document
/// order (none for a collapsed selection).
pub fn covered_chunk_ids(doc: &DocumentModel<'_>, selection: Selection) -> (r: Vec<u32>)
    ensures
        collapsed(selection) ==> r@ == Seq::<u32>::empty(),
        !collapsed(selection) ==> r@ == covered_spec(
            ids_spec(doc@),
            index_spec(ids_spec(doc@), selection.start.chunk_id),
            index_spec(ids_spec(doc@), selection.end.chunk_id),
        ),
{
    if is_collapsed(selection) {
        return Vec::new();
    }
    let index = order_index(doc);
    let start_index = index_of(&index, selection.start.chunk_id);
    let end_index = index_of(&index, selection.end.chunk_id);
    let ids = doc.all_ids();
    let n = ids.len();
    let count: usize = if end_index > start_index { end_index - start_index + 1 } else { 1 };
    let lo = if start_index < n { start_index } else { n };
    let hi = if count < n - lo { lo + count } else { n };
    let mut out: Vec<u32> = Vec::new();
    let mut i = lo;
    while i < hi
        invariant
            lo <= i <= hi <= n,
            n == ids@.len(),
            out@ == ids@.subrange(lo as int, i as int),
        decreases hi - i,
    {
        out.push(ids[i]);
        assert(ids@.subrange(lo as int, (i + 1) as int) =~= ids@.subrange(lo as int, i as int).push(ids@[i as int]));
        i = i + 1;
    }
    out
}

/// The nearest block ancestor of chunk `id` (itself included), following at
/// most `fuel` parent links: a missing chunk, a block chunk, or a chunk
/// without a parent ends the walk.
pub open spec fn block_parent_spec(chunks: Seq<ChunkRecord>, id: u32, fuel: nat) -> u32
    decreases fuel,
{
    match chunk_at(chunks, id) {
        None => id,
        Some(c) => if block_kind(c.kind) || c.parent_id == 0 || fuel == 0 {
            id
        } else {
            block_parent_spec(chunks, c.parent_id, (fuel - 1) as nat)
        },
    }
}

/// The table-cell ancestor of chunk `id` (itself included), following at
/// most `fuel` parent links.
pub open spec fn cell_of_spec(chunks: Seq<ChunkRecord>, id: u32, fuel: nat) -> Option<u32>
    decreases fuel,
{
    match chunk_at(chunks, id) {
        None => None,
        Some(c) => if c.kind == ChunkKind::TableCell {
            Some(id)
        } else if c.parent_id == 0 || fuel == 0 {
            None
        } else {
            cell_of_spec(chunks, c.parent_id, (fuel - 1) as nat)
        },
    }
}

/// The nearest block ancestor of a chunk (itself included).
fn block_parent(doc: &DocumentModel<'_>, chunk: &ChunkRecord) -> (r: u32)
    ensures
        r == block_parent_spec(doc@.chunks, chunk.id, doc@.chunks.len()),
{
    let mut id = chunk.id;
    let mut fuel: usize = doc.chunks().len();
    loop
        invariant
            fuel <= doc@.chunks.len(),
            block_parent_spec(doc@.chunks, chunk.id, doc@.chunks.len()) == block_parent_spec(doc@.chunks, id, fuel as nat),
        decreases fuel,
    {
        let current = match doc.chunk(id) {
            Some(c) => c,
            None => {
                return id;
            },
        };
        if is_block_kind(current.kind) || current.parent_id == 0 || fuel == 0 {
            return id;
        }
        id = current.parent_id;
        fuel = fuel - 1;
    }
}

/// The table-cell ancestor of a block, or `None`.
fn cell_of(doc: &DocumentModel<'_>, block_id: u32) -> (r: Option<u32>)
    ensures
        r == cell_of_spec(doc@.chunks, block_id, doc@.chunks.len()),
{
    let mut id = block_id;
    let mut fuel: usize = doc.chunks().len();
    loop
        invariant
            fuel <= doc@.chunks.len(),
            cell_of_spec(doc@.chunks, block_id, doc@.chunks.len()) == cell_of_spec(doc@.chunks, id, fuel as nat),
        decreases fuel,
    {
        let current = match doc.chunk(id) {
            Some(c) => c,
            None => {
                return None;
            },
        };
        if current.kind == ChunkKind::TableCell {
            return Some(id);
        }
        if current.parent_id == 0 || fuel == 0 {
            return None;
        }
        id = current.parent_id;
        fuel = fuel - 1;
    }
}

/// The parent of chunk `id`, or 0.
pub open spec fn parent_of(chunks: Seq<ChunkRecord>, id: u32) -> u32 {
    match chunk_at(chunks, id) {
        Some(c) => c.parent_id,
        None => 0,
    }
}

/// The separator between text pieces of two blocks: nothing within one
/// block; between blocks of one table cell a newline; between cells, a tab
/// within one row and a newline across rows; a newline otherwise.
pub open spec fn separator_spec(chunks: Seq<ChunkRecord>, prev: u32, next: u32) -> Seq<char> {
    if prev == next {
        Seq::empty()
    } else {
        let n = chunks.len();
        match (cell_of_spec(chunks, prev, n), cell_of_spec(chunks, next, n)) {
            (Some(pc), Some(nc)) => if pc == nc {
                seq!['\n']
            } else if parent_of(chunks, pc) == parent_of(chunks, nc) {
                seq!['\t']
            } else {
                seq!['\n']
            },
            _ => seq!['\n'],
        }
    }
}

/// The separator between two text pieces.
fn separator(doc: &DocumentModel<'_>, prev_block: u32, next_block: u32) -> (r: &'static str)
    ensures
        r@ == separator_spec(doc@.chunks, prev_block, next_block),
{
    proof {
        reveal_strlit("");
        reveal_strlit("\n");
        reveal_strlit("\t");
    }
    if prev_block == next_block {
        return "";
    }
    let prev_cell = cell_of(doc, prev_block);
    let next_cell = cell_of(doc, next_block);
    match (prev_cell, next_cell) {
        (Some(pc), Some(nc)) => {
            if pc == nc {
                return "\n";
            }
            let prev_row = match doc.chunk(pc) {
                Some(c) => c.parent_id,
                None => 0,
            };
            let next_row = match doc.chunk(nc) {
                Some(c) => c.parent_id,
                None => 0,
            };
            if prev_row == next_row {
                "\t"
            } else {
                "\n"
            }
        },
        _ => "\n",
    }
}

/// The characters of `t` from `s` up to `e`, each clamped to the text and
/// the end never before the start.
pub open spec fn char_slice(t: Seq<char>, s: int, e: int) -> Seq<char> {
    let lo = if s < t.len() { s } else { t.len() as int };
    let hi0 = if e < t.len() { e } else { t.len() as int };
    let hi = if hi0 > lo { hi0 } else { lo };
    t.subrange(lo, hi)
}

/// The text piece chunk `id` contributes to a copy of `sel` and its block,
/// or `None` when it contributes nothing: a `br` gives a newline; a chunk
/// with non-empty direct text gives the part inside the selection's offsets
/// (the start offset applies in the start chunk, the end offset in the end
/// chunk), when that part is non-empty.
pub open spec fn piece_of(m: DocumentView, sel: Selection, id: u32) -> Option<(Seq<char>, u32)> {
    match chunk_at(m.chunks, id) {
        None => None,
        Some(c) => if c.kind == ChunkKind::Br {
            Some((seq!['\n'], block_parent_spec(m.chunks, c.id, m.chunks.len())))
        } else {
            match direct_text_of(m, id) {
                None => None,
                Some(t) => if t.len() == 0 {
                    None
                } else {
                    let s = if id == sel.start.chunk_id { sel.start.offset as int } else { 0 };
                    let e = if id == sel.end.chunk_id { sel.end.offset as int } else { t.len() as int };
                    let slice = char_slice(t, s, e);
                    if slice.len() == 0 {
                        None
                    } else {
                        Some((slice, block_parent_spec(m.chunks, c.id, m.chunks.len())))
                    }
                },
            }
        },
    }
}

/// The pieces of the first `k` ids whose pre-order index lies in
/// `[s, e]`, in order.
pub open spec fn pieces_spec(m: DocumentView, sel: Selection, ids: Seq<u32>, s: int, e: int, k: nat) -> Seq<(Seq<char>, u32)>
    decreases k,
{
    if k == 0 {
        Seq::empty()
    } else {
        let prev = pieces_spec(m, sel, ids, s, e, (k - 1) as nat);
        let id = ids[k - 1];
        let i = index_spec(ids, id);
        if i < s || i > e {
            prev
        } else {
            match piece_of(m, sel, id) {
                None => prev,
                Some(p) => prev.push(p),
            }
        }
    }
}

/// The pieces joined in order, each after the separator between its block
/// and the previous piece's block.
pub open spec fn join_spec(chunks: Seq<ChunkRecord>, pieces: Seq<(Seq<char>, u32)>) -> Seq<char>
    decreases pieces.len(),
{
    if pieces.len() == 0 {
        Seq::empty()
    } else if pieces.len() == 1 {
        pieces[0].0
    } else {
        join_spec(chunks, pieces.drop_last()) + separator_spec(chunks, pieces[pieces.len() - 2].1, pieces.last().1)
            + pieces.last().0
    }
}

/// The text a selection covers.
pub open spec fn copy_spec(m: DocumentView, sel: Selection) -> Seq<char> {
    if collapsed(sel) {
        Seq::empty()
    } else {
        let ids = ids_spec(m);
        join_spec(
            m.chunks,
            pieces_spec(m, sel, ids, index_spec(ids, sel.start.chunk_id), index_spec(ids, sel.end.chunk_id), ids.len()),
        )
    }
}

/// A `String` holding the characters `t[s..e]`.
fn string_range(t: &Vec<char>, s: usize, e: usize) -> (r: String)
    requires
        s <= e <= t@.len(),
    ensures
        r@ == t@.subrange(s as int, e as int),
{
    let mut out = String::new();
    let mut k = s;
    while k < e
        invariant
            s <= k <= e <= t@.len(),
            out@ == t@.subrange(s as int, k as int),
        decreases e - k,
    {
        push_char(&mut out, t[k]);
        assert(t@.subrange(s as int, (k + 1) as int) =~= t@.subrange(s as int, k as int).push(t@[k as int]));
        k = k + 1;
    }
    out
}

/// The piece chunk `id` contributes, if any.
fn piece(doc: &DocumentModel<'_>, selection: Selection, id: u32) -> (r: Option<(String, u32)>)
    ensures
        match piece_of(doc@, selection, id) {
            None => r is None,
            Some((t, b)) => r matches Some(p) && p.0@ == t && p.1 == b,
        },
{
    let chunk = match doc.chunk(id) {
        Some(c) => c,
        None => {
            return None;
        },
    };
    if chunk.kind == ChunkKind::Br {
        let mut s = String::new();
        push_char(&mut s, '\n');
        return Some((s, block_parent(doc, chunk)));
    }
    let text = match doc.direct_text(id) {
        Some(t) => t,
        None => {
            return None;
        },
    };
    let chars = chars_of(text);
    let len = chars.len();
    if len == 0 {
        return None;
    }
    let s = if id == selection.start.chunk_id { selection.start.offset } else { 0 };
    let e = if id == selection.end.chunk_id { selection.end.offset } else { len };
    let lo = if s < len { s } else { len };
    let hi0 = if e < len { e } else { len };
    let hi = if hi0 > lo { hi0 } else { lo };
    if hi == lo {
        return None;
    }
    Some((string_range(&chars, lo, hi), block_parent(doc, chunk)))
}

/// Extract the plain text covered by a selection, in document order, with
/// the boundary policy in the module doc. A collapsed selection returns the
/// empty string.
pub fn copy_text(doc: &DocumentModel<'_>, selection: Selection) -> (r: String)
    ensures
        r@ == copy_spec(doc@, selection),
{
    if is_collapsed(selection) {
        return String::new();
    }
    let index = order_index(doc);
    let start_index = index_of(&index, selection.start.chunk_id);
    let end_index = index_of(&index, selection.end.chunk_id);
    let ids = doc.all_ids();
    let ghost ids_s = ids@;
    let mut pieces: Vec<String> = Vec::new();
    let mut parents: Vec<u32> = Vec::new();
    let mut k: usize = 0;
    while k < ids.len()
        invariant
            ids_s == ids@,
            ids_s == ids_spec(doc@),
            index@.len() == ids_s.len(),
            forall|j: int| 0 <= j < index@.len() ==> index@[j] as int == slot_value(ids_s, j, ids_s.len()),
            start_index as int == index_spec(ids_s, selection.start.chunk_id),
            end_index as int == index_spec(ids_s, selection.end.chunk_id),
            k <= ids_s.len(),
            pieces@.len() == parents@.len(),
            forall|j: int| 0 <= j < pieces@.len() ==> #[trigger] pieces_spec(
                doc@,
                selection,
                ids_s,
                start_index as int,
                end_index as int,
                k as nat,
            )[j] == (pieces@[j]@, parents@[j]),
            pieces_spec(doc@, selection, ids_s, start_index as int, end_index as int, k as nat).len() == pieces@.len(),
        decreases ids_s.len() - k,
    {
        let id = ids[k];
        let i = index_of(&index, id);
        let ghost prev = pieces_spec(doc@, selection, ids_s, start_index as int, end_index as int, k as nat);
        if i >= start_index && i <= end_index {
            match piece(doc, selection, id) {
                Some((text, block)) => {
                    pieces.push(text);
                    parents.push(block);
                },
                None => {},
            }
        }
        proof {
            let next = pieces_spec(doc@, selection, ids_s, start_index as int, end_index as int, (k + 1) as nat);
            assert forall|j: int| 0 <= j < pieces@.len() implies #[trigger] next[j] == (pieces@[j]@, parents@[j]) by {
                if j < prev.len() {
                    assert(prev[j] == (pieces@[j]@, parents@[j]));
                }
            }
        }
        k = k + 1;
    }
    let ghost ps = pieces_spec(doc@, selection, ids_s, start_index as int, end_index as int, ids_s.len());
    let mut out = String::new();
    let mut j: usize = 0;
    while j < pieces.len()
        invariant
            pieces@.len() == parents@.len(),
            ps.len() == pieces@.len(),
            forall|x: int| 0 <= x < pieces@.len() ==> #[trigger] ps[x] == (pieces@[x]@, parents@[x]),
            j <= pieces@.len(),
            out@ == join_spec(doc@.chunks, ps.take(j as int)),
        decreases pieces@.len() - j,
    {
        let ghost before = out@;
        if j > 0 {
            let sep = separator(doc, parents[j - 1], parents[j]);
            push_str(&mut out, sep);
        }
        push_str(&mut out, pieces[j].as_str());
        proof {
            let t = ps.take((j + 1) as int);
            assert(t.drop_last() =~= ps.take(j as int));
            assert(ps[j as int] == (pieces@[j as int]@, parents@[j as int]));
            if j > 0 {
                assert(ps[j - 1] == (pieces@[j - 1]@, parents@[j - 1]));
                assert(t[t.len() - 2] == ps[j - 1]);
            } else {
                assert(out@ =~= t[0].0);
            }
        }
        j = j + 1;
    }
    assert(ps.take(pieces@.len() as int) =~= ps);
    out
}

/// Along parent links that each lead one level up to a chunk, with at least
/// as much fuel as the starting depth, both ancestor walks have settled.
proof fn lemma_parent_walks_settled(chunks: Seq<ChunkRecord>, id: u32, fuel: nat, more: nat)
    requires
        forall|y: u32|
            1 <= y <= chunks.len() && chunks[y - 1].parent_id != 0 ==> 1 <= #[trigger] chunks[y - 1].parent_id
                <= chunks.len() && depth_of(chunks, y) == depth_of(chunks, chunks[y - 1].parent_id) + 1,
        chunk_at(chunks, id) is Some ==> depth_of(chunks, id) <= fuel,
        more >= fuel,
    ensures
        block_parent_spec(chunks, id, more) == block_parent_spec(chunks, id, fuel),
        cell_of_spec(chunks, id, more) == cell_of_spec(chunks, id, fuel),
    decreases fuel,
{
    if let Some(c) = chunk_at(chunks, id) {
        if c.parent_id != 0 {
            assert(chunks[id - 1].parent_id == c.parent_id);
            lemma_parent_walks_settled(chunks, c.parent_id, (fuel - 1) as nat, (more - 1) as nat);
        }
    }
}

/// On every document that builds, the walks up to a chunk's block ancestor
/// and to its table cell never run out of fuel: following more parent links
/// finds the same answer.
pub proof fn lemma_ancestor_walks_are_complete(pkg: &Package, id: u32)
    requires
        build_spec(pkg) is Ok,
    ensures
        ({
            let chunks = build_spec(pkg)->Ok_0.chunks;
            forall|more: nat| more >= chunks.len() ==> {
                &&& #[trigger] block_parent_spec(chunks, id, more) == block_parent_spec(chunks, id, chunks.len())
                &&& cell_of_spec(chunks, id, more) == cell_of_spec(chunks, id, chunks.len())
            }
        }),
{
    let chunks = build_spec(pkg)->Ok_0.chunks;
    lemma_parent_links(pkg);
    assert forall|y: u32|
        1 <= y <= chunks.len() && chunks[y - 1].parent_id != 0 implies 1 <= #[trigger] chunks[y - 1].parent_id
        <= chunks.len() && depth_of(chunks, y) == depth_of(chunks, chunks[y - 1].parent_id) + 1 by {
        assert(depth_of(chunks, y) < chunks.len());
    }
    if chunk_at(chunks, id) is Some {
        assert(depth_of(chunks, id) < chunks.len());
    }
    assert forall|more: nat| more >= chunks.len() implies {
        &&& #[trigger] block_parent_spec(chunks, id, more) == block_parent_spec(chunks, id, chunks.len())
        &&& cell_of_spec(chunks, id, more) == cell_of_spec(chunks, id, chunks.len())
    } by {
        lemma_parent_walks_settled(chunks, id, chunks.len(), more);
    }
}

/// Joining one more piece onto copied text: a piece of the same block
/// follows directly; a piece of another block, unless both blocks sit in
/// table cells, follows after exactly one newline; between blocks in
/// table cells, one tab between two cells of one row and one newline
/// otherwise (within one cell, or across rows).
pub proof fn lemma_blocks_are_joined_by_a_newline(chunks: Seq<ChunkRecord>, pieces: Seq<(Seq<char>, u32)>, q: (Seq<char>, u32))
    requires
        pieces.len() > 0,
    ensures
        pieces.last().1 == q.1 ==> join_spec(chunks, pieces.push(q)) == join_spec(chunks, pieces) + q.0,
        pieces.last().1 != q.1 && !(cell_of_spec(chunks, pieces.last().1, chunks.len()) is Some && cell_of_spec(
            chunks,
            q.1,
            chunks.len(),
        ) is Some) ==> join_spec(chunks, pieces.push(q)) == join_spec(chunks, pieces) + seq!['\n'] + q.0,
        ({
            let pc = cell_of_spec(chunks, pieces.last().1, chunks.len());
            let nc = cell_of_spec(chunks, q.1, chunks.len());
            pieces.last().1 != q.1 && pc is Some && nc is Some ==> join_spec(chunks, pieces.push(q)) == join_spec(
                chunks,
                pieces,
            ) + (if pc != nc && parent_of(chunks, pc->Some_0) == parent_of(chunks, nc->Some_0) {
                seq!['\t']
            } else {
                seq!['\n']
            }) + q.0
        }),
{
    let all = pieces.push(q);
    assert(all.drop_last() =~= pieces);
    assert(all[all.len() - 2] == pieces.last());
    assert(all.last() == q);
    if pieces.last().1 == q.1 {
        assert(join_spec(chunks, pieces) + Seq::<char>::empty() =~= join_spec(chunks, pieces));
    }
}

} // verus!
