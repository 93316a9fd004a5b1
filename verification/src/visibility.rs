//! The visibility decisions: semantic culling over the chunk tree and the
//! aggregation of per-chunk geometric hits into the visible set.
//!
//! Culling determines what should exist right now — nothing more. It walks
//! the chunk graph in document order, applies semantic culling (the `hidden`
//! flag excludes a chunk and its whole subtree), then geometric culling (a
//! renderable chunk is visible iff its laid-out geometry intersects the
//! expanded viewport). Chunks with no geometry yet are *not yet visible*.
//! Structural chunks carry no geometry of their own and are visible iff a
//! child is visible. The geometric test itself is made by the caller and
//! handed in as one [`GeometryHit`] per chunk.

use vstd::prelude::*;
use crate::document::graph::{chunk_at, dense, graph_spec};
use crate::document::model::{build_spec, children_of, preorder, DocumentModel, DocumentView};
use crate::document::tree::{
    lemma_forest_has, lemma_forest_member, lemma_preorder_trees, lemma_subtree_anc, lemma_subtree_has_forest,
    lemma_subtree_parent_before, lemma_walk_lists_each_chunk_once,
    child_ok, depth_of, forest, lemma_built_tree, lemma_stack_push_children, lemma_subtree_len, lemma_up_shift, lemma_up_zero,
    parent_of, stack_trees, subtree, tree_ok, up,
};
use crate::reader::Package;
use crate::document::is_structural_kind;
use crate::reader::chunk::kind_is_structural;
use crate::reader::chunk::ChunkRecord;

verus! {

/// The result of one culling pass.
#[derive(Debug, Clone, PartialEq, Eq)]
pub struct VisibilityResult {
    /// Visible chunks in document order (renderable + structural context).
    pub visible: Vec<u32>,
    /// Chunks excluded by semantic culling (whole hidden subtrees), in walk
    /// order (the hidden chunk first, then its subtree).
    pub hidden: Vec<u32>,
    /// Chunks beyond the materialization frontier (no geometry yet), in
    /// document order.
    pub not_yet_visible: Vec<u32>,
}

/// What a chunk's laid-out geometry says against the expanded viewport.
#[derive(Debug, Clone, Copy, PartialEq, Eq, Structural)]
pub enum GeometryHit {
    /// No geometry yet (beyond the materialization frontier).
    Missing,
    /// Geometry that misses the viewport.
    Outside,
    /// Geometry that intersects the viewport.
    Inside,
}

/// The hit of chunk `id` (`hits[id - 1]`; `Missing` outside the table).
pub open spec fn hit_of(hits: Seq<GeometryHit>, id: u32) -> GeometryHit {
    if 1 <= id && id <= hits.len() {
        hits[id - 1]
    } else {
        GeometryHit::Missing
    }
}

/// The walk of a hidden subtree from `sub` (top at the end), taking at most
/// `fuel` ids: each id, then its children pushed in ring order.
pub open spec fn hidden_walk(chunks: Seq<ChunkRecord>, sub: Seq<u32>, fuel: nat) -> Seq<u32>
    decreases fuel,
{
    if fuel == 0 || sub.len() == 0 {
        Seq::empty()
    } else {
        let c = sub.last();
        seq![c] + hidden_walk(chunks, sub.drop_last() + children_of(chunks, c), (fuel - 1) as nat)
    }
}

/// The outcome of the first pass: hidden ids, not-yet-visible ids, and the
/// ids whose own geometry intersects.
pub struct FirstPass {
    pub hidden: Seq<u32>,
    pub not_yet_visible: Seq<u32>,
    pub own: Set<u32>,
}

/// Whether a chunk carries the hidden flag.
pub open spec fn flagged_hidden(c: ChunkRecord) -> bool {
    c.flags % 2 == 1
}

/// The first pass from `stack`, taking at most `fuel` ids in pre-order: a
/// hidden chunk contributes itself and its subtree to `hidden` and is not
/// descended into; any other chunk is checked against its hit (an
/// intersecting hit joins `own`, a missing one of a non-structural chunk
/// joins `not_yet_visible`) and its children are walked.
pub open spec fn first_pass(m: DocumentView, hits: Seq<GeometryHit>, stack: Seq<u32>, fuel: nat) -> FirstPass
    decreases fuel,
{
    if fuel == 0 || stack.len() == 0 {
        FirstPass { hidden: Seq::empty(), not_yet_visible: Seq::empty(), own: Set::empty() }
    } else {
        let id = stack.last();
        let rest = stack.drop_last();
        match chunk_at(m.chunks, id) {
            None => first_pass(m, hits, rest, (fuel - 1) as nat),
            Some(c) => if flagged_hidden(c) {
                let p = first_pass(m, hits, rest, (fuel - 1) as nat);
                FirstPass {
                    hidden: seq![id] + hidden_walk(m.chunks, children_of(m.chunks, id), m.chunks.len()) + p.hidden,
                    ..p
                }
            } else {
                let p = first_pass(m, hits, rest + children_of(m.chunks, id).reverse(), (fuel - 1) as nat);
                let hit = hit_of(hits, id);
                FirstPass {
                    hidden: p.hidden,
                    not_yet_visible: if hit == GeometryHit::Missing && !kind_is_structural(c.kind) {
                        seq![id] + p.not_yet_visible
                    } else {
                        p.not_yet_visible
                    },
                    own: if hit == GeometryHit::Inside {
                        p.own.insert(id)
                    } else {
                        p.own
                    },
                }
            },
        }
    }
}

/// Whether one of `children` is in `set`.
pub open spec fn any_in(children: Seq<u32>, set: Set<u32>) -> bool {
    exists|i: int| 0 <= i < children.len() && set.contains(#[trigger] children[i])
}

/// The aggregation after processing `ids[k..]` from the back: the visible
/// set, and the set of chunks whose subtree holds a visible chunk. A
/// renderable chunk is visible when its own geometry intersects; a
/// structural chunk carries no geometry of its own and is visible when one
/// of its descendants is, that is when the subtree of one of its children
/// holds a visible chunk.
pub open spec fn aggregate(m: DocumentView, ids: Seq<u32>, own: Set<u32>, k: int) -> (Set<u32>, Set<u32>)
    decreases ids.len() - k,
{
    if k < 0 || k >= ids.len() {
        (Set::empty(), Set::empty())
    } else {
        let later = aggregate(m, ids, own, k + 1);
        let id = ids[k];
        match chunk_at(m.chunks, id) {
            None => later,
            Some(c) => {
                let below = any_in(children_of(m.chunks, id), later.1);
                let visible = if kind_is_structural(c.kind) { below } else { own.contains(id) };
                (
                    if visible { later.0.insert(id) } else { later.0 },
                    if visible || below { later.1.insert(id) } else { later.1 },
                )
            },
        }
    }
}

/// The visible set after processing `ids[k..]` from the back.
pub open spec fn visible_from(m: DocumentView, ids: Seq<u32>, own: Set<u32>, k: int) -> Set<u32> {
    aggregate(m, ids, own, k).0
}

/// The ids among the first `n` that are in `set`, in order.
pub open spec fn keep_in(ids: Seq<u32>, set: Set<u32>, n: nat) -> Seq<u32>
    decreases n,
{
    if n == 0 {
        Seq::empty()
    } else if set.contains(ids[n - 1]) {
        keep_in(ids, set, (n - 1) as nat).push(ids[n - 1])
    } else {
        keep_in(ids, set, (n - 1) as nat)
    }
}

/// The outcome of culling a document against per-chunk geometry hits.
pub open spec fn cull_spec(m: DocumentView, hits: Seq<GeometryHit>) -> (Seq<u32>, Seq<u32>, Seq<u32>) {
    let p = first_pass(m, hits, seq![m.root.id], m.chunks.len());
    let ids = preorder(m.chunks, seq![m.root.id], m.chunks.len());
    let vis = visible_from(m, ids, p.own, 0);
    (keep_in(ids, vis, ids.len()), p.hidden, p.not_yet_visible)
}

/// Everything the first pass puts in `own` intersects, and everything it
/// reports as not yet visible has no geometry and is renderable.
proof fn lemma_first_pass_sources(m: DocumentView, hits: Seq<GeometryHit>, stack: Seq<u32>, fuel: nat)
    ensures
        forall|id: u32| #[trigger] first_pass(m, hits, stack, fuel).own.contains(id) ==> hit_of(hits, id) == GeometryHit::Inside,
        forall|i: int| 0 <= i < first_pass(m, hits, stack, fuel).not_yet_visible.len() ==> {
            let id = #[trigger] first_pass(m, hits, stack, fuel).not_yet_visible[i];
            &&& hit_of(hits, id) == GeometryHit::Missing
            &&& chunk_at(m.chunks, id) matches Some(c) && !kind_is_structural(c.kind)
        },
    decreases fuel,
{
    if fuel == 0 || stack.len() == 0 {
    } else {
        let id = stack.last();
        let rest = stack.drop_last();
        match chunk_at(m.chunks, id) {
            None => lemma_first_pass_sources(m, hits, rest, (fuel - 1) as nat),
            Some(c) => if flagged_hidden(c) {
                lemma_first_pass_sources(m, hits, rest, (fuel - 1) as nat);
            } else {
                let next = rest + children_of(m.chunks, id).reverse();
                lemma_first_pass_sources(m, hits, next, (fuel - 1) as nat);
                let p = first_pass(m, hits, next, (fuel - 1) as nat);
                let q = first_pass(m, hits, stack, fuel);
                if hit_of(hits, id) == GeometryHit::Missing && !kind_is_structural(c.kind) {
                    assert forall|i: int| 0 <= i < q.not_yet_visible.len() implies {
                        let x = #[trigger] q.not_yet_visible[i];
                        &&& hit_of(hits, x) == GeometryHit::Missing
                        &&& chunk_at(m.chunks, x) matches Some(cx) && !kind_is_structural(cx.kind)
                    } by {
                        if i > 0 {
                            assert(q.not_yet_visible[i] == p.not_yet_visible[i - 1]);
                        }
                    }
                }
            },
        }
    }
}

/// A chunk in the visible set is a chunk, and it either intersects on its
/// own or is structural.
proof fn lemma_visible_sources(m: DocumentView, ids: Seq<u32>, own: Set<u32>, k: int)
    ensures
        forall|id: u32| #[trigger] visible_from(m, ids, own, k).contains(id) ==> (chunk_at(m.chunks, id) matches Some(c)
            && (own.contains(id) || kind_is_structural(c.kind))),
    decreases ids.len() - k,
{
    if k < 0 || k >= ids.len() {
    } else {
        lemma_visible_sources(m, ids, own, k + 1);
        let later = aggregate(m, ids, own, k + 1);
        assert forall|id: u32| #[trigger] visible_from(m, ids, own, k).contains(id) implies (chunk_at(m.chunks, id) matches Some(c)
            && (own.contains(id) || kind_is_structural(c.kind))) by {
            if later.0.contains(id) {
                assert(visible_from(m, ids, own, k + 1).contains(id));
            }
        }
    }
}

/// What `keep_in` keeps is in the set.
proof fn lemma_keep_in_members(ids: Seq<u32>, set: Set<u32>, n: nat)
    ensures
        forall|i: int| 0 <= i < keep_in(ids, set, n).len() ==> set.contains(#[trigger] keep_in(ids, set, n)[i]),
    decreases n,
{
    if n > 0 {
        lemma_keep_in_members(ids, set, (n - 1) as nat);
        let prev = keep_in(ids, set, (n - 1) as nat);
        assert forall|i: int| 0 <= i < keep_in(ids, set, n).len() implies set.contains(#[trigger] keep_in(ids, set, n)[i]) by {
            if i < prev.len() {
                assert(set.contains(prev[i]));
            }
        }
    }
}

/// A chunk reported as not yet visible (no geometry yet) is never reported
/// visible in the same pass.
pub proof fn lemma_not_yet_visible_is_not_visible(m: DocumentView, hits: Seq<GeometryHit>, id: u32)
    requires
        cull_spec(m, hits).2.contains(id),
    ensures
        !cull_spec(m, hits).0.contains(id),
{
    let p = first_pass(m, hits, seq![m.root.id], m.chunks.len());
    let ids = preorder(m.chunks, seq![m.root.id], m.chunks.len());
    let vis = visible_from(m, ids, p.own, 0);
    lemma_first_pass_sources(m, hits, seq![m.root.id], m.chunks.len());
    lemma_visible_sources(m, ids, p.own, 0);
    lemma_keep_in_members(ids, vis, ids.len());
    let i = choose|i: int| 0 <= i < p.not_yet_visible.len() && p.not_yet_visible[i] == id;
    assert(p.not_yet_visible[i] == id);
    if cull_spec(m, hits).0.contains(id) {
        let j = choose|j: int| 0 <= j < keep_in(ids, vis, ids.len()).len() && keep_in(ids, vis, ids.len())[j] == id;
        assert(vis.contains(keep_in(ids, vis, ids.len())[j]));
        if p.own.contains(id) {
        }
    }
}

/// Whether `id` is set in a membership table indexed by id.
pub open spec fn member(table: Seq<bool>, id: u32) -> bool {
    id < table.len() && table[id as int]
}

/// The walk of a hidden subtree: each id, then its children.
fn hidden_subtree(doc: &DocumentModel<'_>, id: u32, out: &mut Vec<u32>)
    ensures
        final(out)@ == old(out)@ + hidden_walk(doc@.chunks, crate::document::model::children_of(doc@.chunks, id), doc@.chunks.len()),
{
    let mut sub = doc.child_ids(id);
    let mut fuel: usize = doc.chunks().len();
    let ghost base = out@;
    assert(out@ + hidden_walk(doc@.chunks, sub@, fuel as nat) =~= base + hidden_walk(
        doc@.chunks,
        children_of(doc@.chunks, id),
        doc@.chunks.len(),
    ));
    while fuel > 0 && sub.len() > 0
        invariant
            out@ + hidden_walk(doc@.chunks, sub@, fuel as nat) == base + hidden_walk(
                doc@.chunks,
                children_of(doc@.chunks, id),
                doc@.chunks.len(),
            ),
        decreases fuel,
    {
        let ghost before_out = out@;
        let ghost before_sub = sub@;
        let cid = sub.pop().unwrap();
        out.push(cid);
        let grandchildren = doc.child_ids(cid);
        let mut k: usize = 0;
        while k < grandchildren.len()
            invariant
                k <= grandchildren@.len(),
                sub@ == before_sub.drop_last() + grandchildren@.take(k as int),
            decreases grandchildren@.len() - k,
        {
            sub.push(grandchildren[k]);
            assert(grandchildren@.take((k + 1) as int) =~= grandchildren@.take(k as int).push(grandchildren@[k as int]));
            k = k + 1;
        }
        proof {
            assert(grandchildren@.take(grandchildren@.len() as int) =~= grandchildren@);
            assert(out@ + hidden_walk(doc@.chunks, sub@, (fuel - 1) as nat) =~= before_out + hidden_walk(
                doc@.chunks,
                before_sub,
                fuel as nat,
            ));
        }
        fuel = fuel - 1;
    }
    assert(hidden_walk(doc@.chunks, sub@, fuel as nat) =~= Seq::<u32>::empty());
    assert(out@ + Seq::<u32>::empty() =~= out@);
}

/// Cull a document against per-chunk geometry hits (`hits[id - 1]` for
/// chunk `id`; ids beyond the table count as having no geometry).
///
/// The walk is in document order (pre-order from the root) with an
/// explicit stack. Semantic culling prunes hidden subtrees entirely;
/// geometry-less renderable chunks are reported as `not_yet_visible`;
/// structural chunks are reported visible when any descendant is visible.
pub fn cull(doc: &DocumentModel<'_>, hits: &Vec<GeometryHit>) -> (r: VisibilityResult)
    ensures
        (r.visible@, r.hidden@, r.not_yet_visible@) == cull_spec(doc@, hits@),
{
    let n = doc.chunks().len();
    let ghost m = doc@;
    let mut hidden: Vec<u32> = Vec::new();
    let mut not_yet_visible: Vec<u32> = Vec::new();
    let mut own: Vec<bool> = vec![false];
    let mut k: usize = 0;
    while k < n
        invariant
            k <= n,
            own@.len() == k + 1,
            forall|j: int| 0 <= j < own@.len() ==> !own@[j],
        decreases n - k,
    {
        own.push(false);
        k = k + 1;
    }
    let ghost full = first_pass(m, hits@, seq![m.root.id], n as nat);
    let mut stack: Vec<u32> = vec![doc.root().id];
    let mut fuel: usize = n;
    assert(stack@ =~= seq![m.root.id]);
    assert(hidden@ + first_pass(m, hits@, stack@, fuel as nat).hidden =~= full.hidden);
    assert(not_yet_visible@ + first_pass(m, hits@, stack@, fuel as nat).not_yet_visible =~= full.not_yet_visible);
    while fuel > 0 && stack.len() > 0
        invariant
            m == doc@,
            n == m.chunks.len(),
            own@.len() == n + 1,
            fuel <= n,
            hidden@ + first_pass(m, hits@, stack@, fuel as nat).hidden == full.hidden,
            not_yet_visible@ + first_pass(m, hits@, stack@, fuel as nat).not_yet_visible == full.not_yet_visible,
            forall|id: u32| #[trigger] full.own.contains(id) <==> (member(own@, id) || first_pass(m, hits@, stack@, fuel as nat).own.contains(id)),
        decreases fuel,
    {
        let ghost before_stack = stack@;
        let ghost before_hidden = hidden@;
        let ghost before_nyv = not_yet_visible@;
        let ghost before_own = own@;
        let id = stack.pop().unwrap();
        match doc.chunk(id) {
            None => {},
            Some(chunk) => {
                let chunk_flags = chunk.flags;
                assert(chunk_flags & 1 != 0 <==> chunk_flags % 2 == 1) by (bit_vector);
                if chunk_flags & 1 != 0 {
                    hidden.push(id);
                    hidden_subtree(doc, id, &mut hidden);
                } else {
                    let structural = is_structural_kind(chunk.kind);
                    let hit = if 1 <= id && id as usize <= hits.len() { hits[(id - 1) as usize] } else { GeometryHit::Missing };
                    match hit {
                        GeometryHit::Inside => {
                            own.set(id as usize, true);
                        },
                        GeometryHit::Missing => {
                            if !structural {
                                not_yet_visible.push(id);
                            }
                        },
                        GeometryHit::Outside => {},
                    }
                    let children = doc.child_ids(id);
                    let mut j = children.len();
                    while j > 0
                        invariant
                            j <= children@.len(),
                            stack@ == before_stack.drop_last() + children@.subrange(j as int, children@.len() as int).reverse(),
                        decreases j,
                    {
                        j = j - 1;
                        stack.push(children[j]);
                        assert(children@.subrange(j as int, children@.len() as int).reverse() =~= children@.subrange(
                            (j + 1) as int,
                            children@.len() as int,
                        ).reverse().push(children@[j as int]));
                    }
                    assert(children@.subrange(0, children@.len() as int) =~= children@);
                }
            },
        }
        proof {
            let p0 = first_pass(m, hits@, before_stack, fuel as nat);
            let p1 = first_pass(m, hits@, stack@, (fuel - 1) as nat);
            assert(hidden@ + p1.hidden =~= before_hidden + p0.hidden);
            assert(not_yet_visible@ + p1.not_yet_visible =~= before_nyv + p0.not_yet_visible);
            assert forall|x: u32| #[trigger] full.own.contains(x) <==> (member(own@, x) || p1.own.contains(x)) by {
                assert(full.own.contains(x) <==> (member(before_own, x) || p0.own.contains(x)));
            }
        }
        fuel = fuel - 1;
    }
    assert(first_pass(m, hits@, stack@, fuel as nat).hidden =~= Seq::<u32>::empty());
    assert(first_pass(m, hits@, stack@, fuel as nat).not_yet_visible =~= Seq::<u32>::empty());
    assert(hidden@ =~= full.hidden);
    assert(not_yet_visible@ =~= full.not_yet_visible);
    let ids = doc.all_ids();
    let mut vis: Vec<bool> = vec![false];
    let mut reach: Vec<bool> = vec![false];
    let mut k2: usize = 0;
    while k2 < n
        invariant
            k2 <= n,
            vis@.len() == k2 + 1,
            reach@.len() == k2 + 1,
            forall|j: int| 0 <= j < vis@.len() ==> !vis@[j],
            forall|j: int| 0 <= j < reach@.len() ==> !reach@[j],
        decreases n - k2,
    {
        vis.push(false);
        reach.push(false);
        k2 = k2 + 1;
    }
    let mut i = ids.len();
    while i > 0
        invariant
            m == doc@,
            ids@ == preorder(m.chunks, seq![m.root.id], m.chunks.len()),
            i <= ids@.len(),
            own@.len() == n + 1,
            vis@.len() == n + 1,
            reach@.len() == n + 1,
            n == m.chunks.len(),
            forall|id: u32| #[trigger] full.own.contains(id) <==> member(own@, id),
            forall|id: u32| #[trigger] aggregate(m, ids@, full.own, i as int).0.contains(id) <==> member(vis@, id),
            forall|id: u32| #[trigger] aggregate(m, ids@, full.own, i as int).1.contains(id) <==> member(reach@, id),
        decreases i,
    {
        i = i - 1;
        let id = ids[i];
        let ghost later = aggregate(m, ids@, full.own, (i + 1) as int);
        match doc.chunk(id) {
            None => {},
            Some(chunk) => {
                let structural = is_structural_kind(chunk.kind);
                let children = doc.child_ids(id);
                let mut below = false;
                let mut j: usize = 0;
                while j < children.len()
                    invariant
                        j <= children@.len(),
                        reach@.len() == n + 1,
                        forall|x: u32| #[trigger] later.1.contains(x) <==> member(reach@, x),
                        below <==> exists|q: int| 0 <= q < j && later.1.contains(#[trigger] children@[q]),
                    decreases children@.len() - j,
                {
                    let c = children[j];
                    if (c as usize) < reach.len() && reach[c as usize] {
                        assert(later.1.contains(children@[j as int]));
                        below = true;
                    }
                    j = j + 1;
                }
                let visible = if structural {
                    below
                } else {
                    (id as usize) < own.len() && own[id as usize]
                };
                assert(1 <= id && id <= n);
                if visible {
                    vis.set(id as usize, true);
                }
                if visible || below {
                    reach.set(id as usize, true);
                }
            },
        }
        proof {
            assert forall|x: u32| #[trigger] aggregate(m, ids@, full.own, i as int).0.contains(x) <==> member(vis@, x) by {
            }
            assert forall|x: u32| #[trigger] aggregate(m, ids@, full.own, i as int).1.contains(x) <==> member(reach@, x) by {
            }
        }
    }
    let mut visible: Vec<u32> = Vec::new();
    let ghost vset = aggregate(m, ids@, full.own, 0).0;
    let mut q: usize = 0;
    while q < ids.len()
        invariant
            q <= ids@.len(),
            vis@.len() == n + 1,
            forall|id: u32| #[trigger] vset.contains(id) <==> member(vis@, id),
            visible@ == keep_in(ids@, vset, q as nat),
        decreases ids@.len() - q,
    {
        let id = ids[q];
        if (id as usize) < vis.len() && vis[id as usize] {
            visible.push(id);
        }
        q = q + 1;
    }
    VisibilityResult { visible, hidden, not_yet_visible }
}

/// The chunk `j` parent links above `y` carries the hidden flag.
pub open spec fn hidden_at(chunks: Seq<ChunkRecord>, y: u32, j: nat) -> bool {
    chunk_at(chunks, up(chunks, y, j)) matches Some(a) && flagged_hidden(a)
}

/// `y`, or a chunk above it on its parent chain, carries the hidden flag.
pub open spec fn in_hidden_subtree(chunks: Seq<ChunkRecord>, y: u32) -> bool {
    exists|j: nat| #[trigger] hidden_at(chunks, y, j)
}

/// A chunk strictly above `y` on its parent chain carries the hidden flag.
pub open spec fn hidden_above(chunks: Seq<ChunkRecord>, y: u32) -> bool {
    exists|j: nat| j >= 1 && #[trigger] hidden_at(chunks, y, j)
}

/// Above a child lies exactly its parent's chain, the parent included.
proof fn lemma_hidden_above_child(chunks: Seq<ChunkRecord>, x: u32, c: u32)
    requires
        parent_of(chunks, c) == x,
    ensures
        hidden_above(chunks, c) <==> in_hidden_subtree(chunks, x),
{
    if hidden_above(chunks, c) {
        let j = choose|j: nat| j >= 1 && #[trigger] hidden_at(chunks, c, j);
        lemma_up_shift(chunks, c, (j - 1) as nat);
        assert(hidden_at(chunks, x, (j - 1) as nat));
    }
    if in_hidden_subtree(chunks, x) {
        let j = choose|j: nat| #[trigger] hidden_at(chunks, x, j);
        lemma_up_shift(chunks, c, j);
        assert(hidden_at(chunks, c, j + 1));
    }
}

/// A chunk is in a hidden subtree exactly when it is flagged itself or
/// something above it is.
proof fn lemma_hidden_split(chunks: Seq<ChunkRecord>, y: u32)
    ensures
        in_hidden_subtree(chunks, y) <==> ((chunk_at(chunks, y) matches Some(a) && flagged_hidden(a))
            || hidden_above(chunks, y)),
{
    if in_hidden_subtree(chunks, y) {
        let j = choose|j: nat| #[trigger] hidden_at(chunks, y, j);
        if j == 0 {
        } else {
            assert(j >= 1 && hidden_at(chunks, y, j));
        }
    }
    if chunk_at(chunks, y) matches Some(a) && flagged_hidden(a) {
        assert(up(chunks, y, 0) == y);
        assert(hidden_at(chunks, y, 0));
    }
}

/// The first pass, started from chunks with nothing hidden above them,
/// never counts a chunk inside a hidden subtree as intersecting.
proof fn lemma_first_pass_skips_hidden(m: DocumentView, hits: Seq<GeometryHit>, stack: Seq<u32>, fuel: nat)
    requires
        tree_ok(m.chunks),
        forall|k: int| 0 <= k < stack.len() ==> !hidden_above(m.chunks, #[trigger] stack[k]),
    ensures
        forall|y: u32| #[trigger] first_pass(m, hits, stack, fuel).own.contains(y) ==> !in_hidden_subtree(m.chunks, y),
    decreases fuel,
{
    if fuel > 0 && stack.len() > 0 {
        let id = stack.last();
        let rest = stack.drop_last();
        assert(forall|k: int| 0 <= k < rest.len() ==> rest[k] == #[trigger] stack[k]);
        match chunk_at(m.chunks, id) {
            None => {
                lemma_first_pass_skips_hidden(m, hits, rest, (fuel - 1) as nat);
                assert(first_pass(m, hits, stack, fuel).own == first_pass(m, hits, rest, (fuel - 1) as nat).own);
            },
            Some(c) => if flagged_hidden(c) {
                lemma_first_pass_skips_hidden(m, hits, rest, (fuel - 1) as nat);
                assert(first_pass(m, hits, stack, fuel).own == first_pass(m, hits, rest, (fuel - 1) as nat).own);
            } else {
                let kids = children_of(m.chunks, id);
                let next = rest + kids.reverse();
                assert(!hidden_above(m.chunks, stack[stack.len() - 1]));
                lemma_hidden_split(m.chunks, id);
                assert forall|k: int| 0 <= k < next.len() implies !hidden_above(m.chunks, #[trigger] next[k]) by {
                    if k < rest.len() {
                        assert(next[k] == stack[k]);
                    } else {
                        let ch = kids[kids.len() - 1 - (k - rest.len())];
                        assert(next[k] == ch);
                        assert(child_ok(m.chunks, id, ch));
                        lemma_hidden_above_child(m.chunks, id, ch);
                    }
                }
                lemma_first_pass_skips_hidden(m, hits, next, (fuel - 1) as nat);
                assert(!in_hidden_subtree(m.chunks, id));
                let p = first_pass(m, hits, next, (fuel - 1) as nat);
                assert(first_pass(m, hits, stack, fuel).own == (if hit_of(hits, id) == GeometryHit::Inside {
                    p.own.insert(id)
                } else {
                    p.own
                }));
                assert forall|y: u32| #[trigger] first_pass(m, hits, stack, fuel).own.contains(y) implies !in_hidden_subtree(m.chunks, y) by {
                    if y != id {
                        assert(p.own.contains(y));
                    }
                }
            },
        }
    }
}

/// The aggregation, built over intersecting chunks that lie outside every
/// hidden subtree, marks no chunk inside a hidden subtree, as visible or
/// as holding a visible chunk.
proof fn lemma_visible_skips_hidden(m: DocumentView, ids: Seq<u32>, own: Set<u32>, k: int)
    requires
        tree_ok(m.chunks),
        forall|y: u32| #[trigger] own.contains(y) ==> !in_hidden_subtree(m.chunks, y),
    ensures
        forall|y: u32| #[trigger] aggregate(m, ids, own, k).1.contains(y) ==> !in_hidden_subtree(m.chunks, y),
        forall|y: u32| #[trigger] aggregate(m, ids, own, k).0.contains(y) ==> aggregate(m, ids, own, k).1.contains(y),
    decreases ids.len() - k,
{
    if 0 <= k < ids.len() {
        lemma_visible_skips_hidden(m, ids, own, k + 1);
        let later = aggregate(m, ids, own, k + 1);
        let id = ids[k];
        assert forall|y: u32| #[trigger] aggregate(m, ids, own, k).1.contains(y) implies !in_hidden_subtree(m.chunks, y) by {
            if !later.1.contains(y) && !own.contains(y) {
                let kids = children_of(m.chunks, id);
                assert(y == id);
                assert(any_in(kids, later.1));
                let i = choose|i: int| 0 <= i < kids.len() && later.1.contains(#[trigger] kids[i]);
                assert(child_ok(m.chunks, id, kids[i]));
                lemma_hidden_above_child(m.chunks, id, kids[i]);
                lemma_hidden_split(m.chunks, kids[i]);
            }
        }
        assert forall|y: u32| #[trigger] aggregate(m, ids, own, k).0.contains(y) implies aggregate(m, ids, own, k).1.contains(y) by {
            if later.0.contains(y) {
                assert(later.1.contains(y));
            }
        }
    }
}

/// On every document that builds, no chunk inside a hidden subtree (one
/// that carries the hidden flag, or lies below one) is ever reported
/// visible, whatever the geometry says.
pub proof fn lemma_hidden_subtrees_never_visible(pkg: &Package, hits: Seq<GeometryHit>, y: u32)
    requires
        build_spec(pkg) is Ok,
        in_hidden_subtree(build_spec(pkg)->Ok_0.chunks, y),
    ensures
        !cull_spec(build_spec(pkg)->Ok_0, hits).0.contains(y),
{
    let m = build_spec(pkg)->Ok_0;
    lemma_built_tree(pkg);
    let root = m.root.id;
    assert(!hidden_above(m.chunks, root)) by {
        if hidden_above(m.chunks, root) {
            let j = choose|j: nat| j >= 1 && #[trigger] hidden_at(m.chunks, root, j);
            lemma_up_shift(m.chunks, root, (j - 1) as nat);
            assert(parent_of(m.chunks, root) == 0);
            lemma_up_zero(m.chunks, (j - 1) as nat);
        }
    }
    let p = first_pass(m, hits, seq![root], m.chunks.len());
    let ids = preorder(m.chunks, seq![root], m.chunks.len());
    let vis = visible_from(m, ids, p.own, 0);
    lemma_first_pass_skips_hidden(m, hits, seq![root], m.chunks.len());
    lemma_visible_skips_hidden(m, ids, p.own, 0);
    lemma_keep_in_members(ids, vis, ids.len());
    if cull_spec(m, hits).0.contains(y) {
        let j = choose|j: int| 0 <= j < keep_in(ids, vis, ids.len()).len() && keep_in(ids, vis, ids.len())[j] == y;
        assert(vis.contains(keep_in(ids, vis, ids.len())[j]));
        assert(aggregate(m, ids, p.own, 0).1.contains(y));
    }
}

/// The ids the subtrees of `ids` hold, counted in any order.
pub open spec fn trees_size(chunks: Seq<ChunkRecord>, ids: Seq<u32>) -> nat
    decreases ids.len(),
{
    if ids.len() == 0 {
        0
    } else {
        subtree(chunks, ids[0]).len() + trees_size(chunks, ids.drop_first())
    }
}

proof fn lemma_trees_size_append(chunks: Seq<ChunkRecord>, a: Seq<u32>, b: Seq<u32>)
    ensures
        trees_size(chunks, a + b) == trees_size(chunks, a) + trees_size(chunks, b),
    decreases a.len(),
{
    if a.len() > 0 {
        assert((a + b).drop_first() =~= a.drop_first() + b);
        lemma_trees_size_append(chunks, a.drop_first(), b);
    } else {
        assert(a + b =~= b);
    }
}

proof fn lemma_forest_size(chunks: Seq<ChunkRecord>, ids: Seq<u32>, d: int)
    requires
        forall|k: int| 0 <= k < ids.len() ==> depth_of(chunks, #[trigger] ids[k]) == d + 1,
    ensures
        forest(chunks, ids, d).len() == trees_size(chunks, ids),
    decreases ids.len(),
{
    if ids.len() > 0 {
        let rest = ids.drop_first();
        assert(forall|k: int| 0 <= k < rest.len() ==> rest[k] == #[trigger] ids[k + 1]);
        lemma_forest_size(chunks, rest, d);
    }
}

/// With as much fuel as the subtrees on its stack hold, the walk of a
/// hidden subtree is done: more fuel lists the same ids.
proof fn lemma_hidden_walk_settled(chunks: Seq<ChunkRecord>, sub: Seq<u32>, fuel: nat, more: nat)
    requires
        tree_ok(chunks),
        fuel >= trees_size(chunks, sub),
        more >= fuel,
    ensures
        hidden_walk(chunks, sub, more) == hidden_walk(chunks, sub, fuel),
    decreases fuel,
{
    if sub.len() > 0 {
        let x = sub.last();
        let dl = sub.drop_last();
        let kids = children_of(chunks, x);
        assert(sub =~= dl + seq![x]);
        lemma_trees_size_append(chunks, dl, seq![x]);
        assert(seq![x].drop_first() =~= Seq::<u32>::empty());
        assert(subtree(chunks, x)[0] == x);
        if chunk_at(chunks, x) is Some {
            assert(forall|k: int| 0 <= k < kids.len() ==> child_ok(chunks, x, #[trigger] kids[k]));
        } else {
            assert(kids =~= Seq::<u32>::empty());
        }
        lemma_forest_size(chunks, kids, depth_of(chunks, x));
        lemma_trees_size_append(chunks, dl, kids);
        lemma_hidden_walk_settled(chunks, dl + kids, (fuel - 1) as nat, (more - 1) as nat);
    }
}

/// With as much fuel as the subtrees on its stack hold, the first pass is
/// done: more fuel gives the same outcome.
proof fn lemma_first_pass_settled(m: DocumentView, hits: Seq<GeometryHit>, stack: Seq<u32>, fuel: nat, more: nat)
    requires
        tree_ok(m.chunks),
        fuel >= stack_trees(m.chunks, stack).len(),
        more >= fuel,
    ensures
        first_pass(m, hits, stack, more) == first_pass(m, hits, stack, fuel),
    decreases fuel,
{
    if stack.len() > 0 {
        let chunks = m.chunks;
        let x = stack.last();
        let rest = stack.drop_last();
        let kids = children_of(chunks, x);
        assert(subtree(chunks, x)[0] == x);
        assert(stack_trees(chunks, stack).len() == subtree(chunks, x).len() + stack_trees(chunks, rest).len());
        match chunk_at(chunks, x) {
            None => {
                lemma_first_pass_settled(m, hits, rest, (fuel - 1) as nat, (more - 1) as nat);
            },
            Some(c) => {
                if flagged_hidden(c) {
                    lemma_first_pass_settled(m, hits, rest, (fuel - 1) as nat, (more - 1) as nat);
                } else {
                    assert(forall|k: int| 0 <= k < kids.len() ==> child_ok(chunks, x, #[trigger] kids[k]));
                    lemma_stack_push_children(chunks, rest, kids, depth_of(chunks, x));
                    lemma_first_pass_settled(m, hits, rest + kids.reverse(), (fuel - 1) as nat, (more - 1) as nat);
                }
            },
        }
    }
}

/// On every document that builds, culling's walks never run out of fuel:
/// walking further would change neither the first pass from the root nor
/// the walk of any hidden subtree.
pub proof fn lemma_cull_walks_are_complete(pkg: &Package, hits: Seq<GeometryHit>, id: u32)
    requires
        build_spec(pkg) is Ok,
    ensures
        ({
            let m = build_spec(pkg)->Ok_0;
            let n = m.chunks.len();
            forall|more: nat| more >= n ==> {
                &&& #[trigger] first_pass(m, hits, seq![m.root.id], more) == first_pass(m, hits, seq![m.root.id], n)
                &&& hidden_walk(m.chunks, children_of(m.chunks, id), more) == hidden_walk(
                    m.chunks,
                    children_of(m.chunks, id),
                    n,
                )
            }
        }),
{
    let m = build_spec(pkg)->Ok_0;
    let chunks = m.chunks;
    let n = chunks.len();
    lemma_built_tree(pkg);
    assert(chunks[n - 1].id == n);
    let root = m.root.id;
    lemma_subtree_len(chunks, root);
    assert(seq![root].drop_last() =~= Seq::<u32>::empty());
    assert(stack_trees(chunks, Seq::<u32>::empty()) =~= Seq::<u32>::empty());
    assert(stack_trees(chunks, seq![root]) =~= subtree(chunks, root));
    let kids = children_of(chunks, id);
    lemma_subtree_len(chunks, id);
    if chunk_at(chunks, id) is Some {
        assert(forall|k: int| 0 <= k < kids.len() ==> child_ok(chunks, id, #[trigger] kids[k]));
    } else {
        assert(kids =~= Seq::<u32>::empty());
    }
    lemma_forest_size(chunks, kids, depth_of(chunks, id));
    assert forall|more: nat| more >= n implies {
        &&& #[trigger] first_pass(m, hits, seq![root], more) == first_pass(m, hits, seq![root], n)
        &&& hidden_walk(chunks, kids, more) == hidden_walk(chunks, kids, n)
    } by {
        lemma_first_pass_settled(m, hits, seq![root], n, more);
        lemma_hidden_walk_settled(chunks, kids, n, more);
    }
}

/// The aggregation from `k` only marks ids found at `k` or later.
proof fn lemma_agg_members(m: DocumentView, ids: Seq<u32>, own: Set<u32>, k: int, y: u32)
    requires
        0 <= k,
        aggregate(m, ids, own, k).0.contains(y) || aggregate(m, ids, own, k).1.contains(y),
    ensures
        exists|q: int| k <= q < ids.len() && #[trigger] ids[q] == y,
    decreases ids.len() - k,
{
    if k < ids.len() {
        if ids[k] != y {
            lemma_agg_members(m, ids, own, k + 1, y);
            let q = choose|q: int| k + 1 <= q < ids.len() && #[trigger] ids[q] == y;
            assert(ids[q] == y);
        } else {
            assert(ids[k] == y);
        }
    }
}

/// Over distinct ids, whether the id at position `q` is marked is settled
/// once position `q` has been processed.
proof fn lemma_agg_stable(m: DocumentView, ids: Seq<u32>, own: Set<u32>, k: int, q: int)
    requires
        ids.no_duplicates(),
        0 <= k <= q < ids.len(),
    ensures
        aggregate(m, ids, own, k).0.contains(ids[q]) == aggregate(m, ids, own, q).0.contains(ids[q]),
        aggregate(m, ids, own, k).1.contains(ids[q]) == aggregate(m, ids, own, q).1.contains(ids[q]),
    decreases q - k,
{
    if k < q {
        lemma_agg_stable(m, ids, own, k + 1, q);
        assert(ids[k] != ids[q]);
    }
}

/// Whether one of `kids` is in a set, stated by membership.
proof fn lemma_any_in_same(kids: Seq<u32>, a: Set<u32>, b: Set<u32>)
    requires
        forall|k: int| 0 <= k < kids.len() ==> (a.contains(#[trigger] kids[k]) <==> b.contains(kids[k])),
    ensures
        any_in(kids, a) == any_in(kids, b),
{
    if any_in(kids, a) {
        let i = choose|i: int| 0 <= i < kids.len() && a.contains(#[trigger] kids[i]);
        assert(b.contains(kids[i]));
    }
    if any_in(kids, b) {
        let i = choose|i: int| 0 <= i < kids.len() && b.contains(#[trigger] kids[i]);
        assert(a.contains(kids[i]));
    }
}

/// On the document-order walk of a validated tree, the final aggregation
/// follows the visibility rule chunk by chunk: a structural chunk is
/// visible when the subtree of one of its children holds a visible chunk,
/// a renderable one when its own geometry intersects, and a chunk's
/// subtree holds a visible chunk when it is visible or a child's does.
proof fn lemma_agg_rule(m: DocumentView, own: Set<u32>, x: u32)
    requires
        tree_ok(m.chunks),
        dense(m.chunks),
        m.chunks.len() > 0,
        m.root == m.chunks[0],
        graph_spec(m.chunks) is Ok,
        1 <= x <= m.chunks.len(),
    ensures
        ({
            let ids = preorder(m.chunks, seq![m.root.id], m.chunks.len());
            let v = aggregate(m, ids, own, 0);
            let below = any_in(children_of(m.chunks, x), v.1);
            &&& v.0.contains(x) == (if kind_is_structural(m.chunks[x - 1].kind) { below } else { own.contains(x) })
            &&& v.1.contains(x) == (v.0.contains(x) || below)
        }),
{
    let chunks = m.chunks;
    let n = chunks.len();
    let ids = preorder(chunks, seq![m.root.id], n);
    lemma_walk_lists_each_chunk_once(chunks);
    assert(chunks[n - 1].id == n);
    assert(chunks[0].id == 1);
    crate::document::tree::lemma_subtree_len(chunks, 1);
    assert(seq![1u32].drop_last() =~= Seq::<u32>::empty());
    assert(stack_trees(chunks, Seq::<u32>::empty()) =~= Seq::<u32>::empty());
    assert(stack_trees(chunks, seq![1u32]) =~= subtree(chunks, 1));
    lemma_preorder_trees(chunks, seq![1u32], n);
    assert(ids == subtree(chunks, 1));
    assert(ids.contains(x));
    let q = choose|q: int| 0 <= q < ids.len() && ids[q] == x;
    lemma_agg_stable(m, ids, own, 0, q);
    let later = aggregate(m, ids, own, q + 1);
    let v = aggregate(m, ids, own, 0);
    let kids = children_of(chunks, x);
    assert(!later.0.contains(x) && !later.1.contains(x)) by {
        if later.0.contains(x) || later.1.contains(x) {
            lemma_agg_members(m, ids, own, q + 1, x);
            let q2 = choose|q2: int| q + 1 <= q2 < ids.len() && #[trigger] ids[q2] == x;
            assert(ids[q2] == ids[q]);
        }
    }
    assert forall|k: int| 0 <= k < kids.len() implies (later.1.contains(#[trigger] kids[k]) <==> v.1.contains(kids[k])) by {
        let c = kids[k];
        assert(child_ok(chunks, x, c));
        assert(ids.contains(c));
        let qc = choose|qc: int| 0 <= qc < ids.len() && ids[qc] == c;
        assert(qc != 0) by {
            assert(ids[0] == 1);
            assert(chunks[0].parent_id == 0);
        }
        lemma_subtree_parent_before(chunks, 1, qc);
        let i = choose|i: int| 0 <= i < qc && #[trigger] subtree(chunks, 1)[i] == parent_of(chunks, subtree(chunks, 1)[qc]);
        assert(ids[i] == x);
        assert(i == q);
        lemma_agg_stable(m, ids, own, 0, qc);
        lemma_agg_stable(m, ids, own, q + 1, qc);
    }
    lemma_any_in_same(kids, later.1, v.1);
}

/// Over a validated tree, a chunk's subtree holds a chunk marked visible
/// exactly when the aggregation says so.
proof fn lemma_reach_is_subtree(m: DocumentView, own: Set<u32>, y: u32)
    requires
        tree_ok(m.chunks),
        dense(m.chunks),
        m.chunks.len() > 0,
        m.root == m.chunks[0],
        graph_spec(m.chunks) is Ok,
        1 <= y <= m.chunks.len(),
    ensures
        ({
            let v = aggregate(m, preorder(m.chunks, seq![m.root.id], m.chunks.len()), own, 0);
            v.1.contains(y) <==> exists|z: u32| #[trigger] subtree(m.chunks, y).contains(z) && v.0.contains(z)
        }),
    decreases 0x1_0000_0000int - depth_of(m.chunks, y),
{
    let chunks = m.chunks;
    let v = aggregate(m, preorder(chunks, seq![m.root.id], chunks.len()), own, 0);
    let kids = children_of(chunks, y);
    let d = depth_of(chunks, y);
    lemma_agg_rule(m, own, y);
    assert(forall|k: int| 0 <= k < kids.len() ==> child_ok(chunks, y, #[trigger] kids[k]));
    if v.1.contains(y) {
        if v.0.contains(y) {
            assert(subtree(chunks, y)[0] == y);
            assert(subtree(chunks, y).contains(y));
        } else {
            let i = choose|i: int| 0 <= i < kids.len() && v.1.contains(#[trigger] kids[i]);
            lemma_reach_is_subtree(m, own, kids[i]);
            let z = choose|z: u32| #[trigger] subtree(chunks, kids[i]).contains(z) && v.0.contains(z);
            lemma_forest_has(chunks, kids, d, i, z);
            lemma_subtree_has_forest(chunks, y, z);
        }
    }
    if exists|z: u32| #[trigger] subtree(chunks, y).contains(z) && v.0.contains(z) {
        let z = choose|z: u32| #[trigger] subtree(chunks, y).contains(z) && v.0.contains(z);
        if z != y {
            let s = subtree(chunks, y);
            let j = choose|j: int| 0 <= j < s.len() && s[j] == z;
            assert(j > 0);
            let f = forest(chunks, kids, d);
            assert(f[j - 1] == z);
            let k = lemma_forest_member(chunks, kids, d, z);
            lemma_reach_is_subtree(m, own, kids[k]);
            assert(v.1.contains(kids[k]));
            assert(any_in(kids, v.1));
        }
    }
}

/// What `keep_in` keeps is exactly the listed ids in the set.
proof fn lemma_keep_in_exact(ids: Seq<u32>, set: Set<u32>, n: nat, z: u32)
    requires
        n <= ids.len(),
    ensures
        keep_in(ids, set, n).contains(z) <==> (set.contains(z) && exists|q: int| 0 <= q < n && #[trigger] ids[q] == z),
    decreases n,
{
    if n > 0 {
        lemma_keep_in_exact(ids, set, (n - 1) as nat, z);
        let prev = keep_in(ids, set, (n - 1) as nat);
        if set.contains(ids[n - 1]) {
            let cur = prev.push(ids[n - 1]);
            if cur.contains(z) && !prev.contains(z) {
                let i = choose|i: int| 0 <= i < cur.len() && cur[i] == z;
                assert(i == prev.len());
            }
            if prev.contains(z) {
                let i = choose|i: int| 0 <= i < prev.len() && prev[i] == z;
                assert(cur[i] == z);
            }
            if z == ids[n - 1] {
                assert(cur[prev.len() as int] == z);
            }
        }
        if set.contains(z) && exists|q: int| 0 <= q < n && #[trigger] ids[q] == z {
            let q = choose|q: int| 0 <= q < n && #[trigger] ids[q] == z;
            if q < n - 1 {
                assert(exists|q2: int| 0 <= q2 < n - 1 && #[trigger] ids[q2] == z);
            }
        }
    }
}

/// On every document that builds, a structural chunk (which has no
/// geometry of its own) is reported visible exactly when one of its
/// descendants is, whatever the geometry says.
pub proof fn lemma_structural_visible_iff_descendant(pkg: &Package, hits: Seq<GeometryHit>, x: u32)
    requires
        build_spec(pkg) is Ok,
        chunk_at(build_spec(pkg)->Ok_0.chunks, x) matches Some(c) && kind_is_structural(c.kind),
    ensures
        ({
            let m = build_spec(pkg)->Ok_0;
            let shown = cull_spec(m, hits).0;
            shown.contains(x) <==> exists|z: u32| z != x && #[trigger] subtree(m.chunks, x).contains(z) && shown.contains(z)
        }),
{
    let m = build_spec(pkg)->Ok_0;
    let chunks = m.chunks;
    let n = chunks.len();
    crate::document::tree::lemma_built_tree(pkg);
    let cp = pkg.payload_of(2)->Some_0;
    crate::reader::chunk::lemma_section_dense(cp);
    assert(graph_spec(chunks) is Ok);
    let p = first_pass(m, hits, seq![m.root.id], n);
    let ids = preorder(chunks, seq![m.root.id], n);
    let v = aggregate(m, ids, p.own, 0);
    let shown = cull_spec(m, hits).0;
    lemma_walk_lists_each_chunk_once(chunks);
    assert(chunks[0].id == 1);
    assert(forall|z: u32| 1 <= z <= n ==> #[trigger] ids.contains(z));
    assert forall|z: u32| #[trigger] shown.contains(z) <==> (1 <= z <= n && v.0.contains(z)) by {
        lemma_keep_in_exact(ids, v.0, ids.len(), z);
        if shown.contains(z) {
            let q = choose|q: int| 0 <= q < ids.len() && #[trigger] ids[q] == z;
            assert(ids.contains(z));
            crate::document::tree::lemma_subtree_len(chunks, 1);
            assert(seq![1u32].drop_last() =~= Seq::<u32>::empty());
            assert(stack_trees(chunks, Seq::<u32>::empty()) =~= Seq::<u32>::empty());
            assert(stack_trees(chunks, seq![1u32]) =~= subtree(chunks, 1));
            lemma_preorder_trees(chunks, seq![1u32], n);
            lemma_subtree_anc(chunks, 1, z);
        }
        if 1 <= z <= n && v.0.contains(z) {
            assert(ids.contains(z));
            let q = choose|q: int| 0 <= q < ids.len() && ids[q] == z;
            assert(ids[q] == z);
        }
    }
    lemma_agg_rule(m, p.own, x);
    let kids = children_of(chunks, x);
    let d = depth_of(chunks, x);
    assert(forall|k: int| 0 <= k < kids.len() ==> child_ok(chunks, x, #[trigger] kids[k]));
    if shown.contains(x) {
        let i = choose|i: int| 0 <= i < kids.len() && v.1.contains(#[trigger] kids[i]);
        lemma_reach_is_subtree(m, p.own, kids[i]);
        let z = choose|z: u32| #[trigger] subtree(chunks, kids[i]).contains(z) && v.0.contains(z);
        lemma_subtree_anc(chunks, kids[i], z);
        lemma_forest_has(chunks, kids, d, i, z);
        lemma_subtree_has_forest(chunks, x, z);
        assert(z != x);
        assert(shown.contains(z));
    }
    if exists|z: u32| z != x && #[trigger] subtree(chunks, x).contains(z) && shown.contains(z) {
        let z = choose|z: u32| z != x && #[trigger] subtree(chunks, x).contains(z) && shown.contains(z);
        let s = subtree(chunks, x);
        let j = choose|j: int| 0 <= j < s.len() && s[j] == z;
        assert(j > 0);
        let f = forest(chunks, kids, d);
        assert(f[j - 1] == z);
        let k = lemma_forest_member(chunks, kids, d, z);
        lemma_reach_is_subtree(m, p.own, kids[k]);
        assert(v.1.contains(kids[k]));
        assert(any_in(kids, v.1));
    }
}

/// What a concatenation holds is what either part holds.
proof fn lemma_concat_contains(a: Seq<u32>, b: Seq<u32>, y: u32)
    ensures
        (a + b).contains(y) <==> (a.contains(y) || b.contains(y)),
{
    if (a + b).contains(y) {
        let i = choose|i: int| 0 <= i < (a + b).len() && (a + b)[i] == y;
        if i < a.len() {
            assert(a[i] == y);
        } else {
            assert(b[i - a.len()] == y);
        }
    }
    if a.contains(y) {
        let i = choose|i: int| 0 <= i < a.len() && a[i] == y;
        assert((a + b)[i] == y);
    }
    if b.contains(y) {
        let i = choose|i: int| 0 <= i < b.len() && b[i] == y;
        assert((a + b)[a.len() + i] == y);
    }
}

/// The first pass misses no frontier chunk: every renderable chunk in the
/// subtrees on the stack, outside every hidden subtree, whose geometry is
/// missing is reported as not yet visible (given fuel for the whole walk).
proof fn lemma_first_pass_reports_missing(m: DocumentView, hits: Seq<GeometryHit>, stack: Seq<u32>, fuel: nat, y: u32)
    requires
        tree_ok(m.chunks),
        forall|k: int| 0 <= k < stack.len() ==> 1 <= #[trigger] stack[k] <= m.chunks.len(),
        fuel >= stack_trees(m.chunks, stack).len(),
        stack_trees(m.chunks, stack).contains(y),
        !in_hidden_subtree(m.chunks, y),
        chunk_at(m.chunks, y) matches Some(c) && !kind_is_structural(c.kind),
        hit_of(hits, y) == GeometryHit::Missing,
    ensures
        first_pass(m, hits, stack, fuel).not_yet_visible.contains(y),
    decreases fuel,
{
    let chunks = m.chunks;
    let x = stack.last();
    let rest = stack.drop_last();
    assert(stack_trees(chunks, stack) == subtree(chunks, x) + stack_trees(chunks, rest));
    assert(subtree(chunks, x)[0] == x);
    lemma_concat_contains(subtree(chunks, x), stack_trees(chunks, rest), y);
    assert(forall|k: int| 0 <= k < rest.len() ==> rest[k] == #[trigger] stack[k]);
    let c = chunk_at(chunks, x)->Some_0;
    if flagged_hidden(c) {
        if subtree(chunks, x).contains(y) {
            lemma_subtree_anc(chunks, x, y);
            let j = (depth_of(chunks, y) - depth_of(chunks, x)) as nat;
            assert(hidden_at(chunks, y, j));
        }
        lemma_first_pass_reports_missing(m, hits, rest, (fuel - 1) as nat, y);
    } else {
        let kids = children_of(chunks, x);
        let d = depth_of(chunks, x);
        let next = rest + kids.reverse();
        assert(forall|k: int| 0 <= k < kids.len() ==> child_ok(chunks, x, #[trigger] kids[k]));
        lemma_stack_push_children(chunks, rest, kids, d);
        assert(stack_trees(chunks, stack) =~= seq![x] + stack_trees(chunks, next));
        let p = first_pass(m, hits, next, (fuel - 1) as nat);
        let q = first_pass(m, hits, stack, fuel);
        if y == x {
            assert(q.not_yet_visible == seq![x] + p.not_yet_visible);
            assert(q.not_yet_visible[0] == y);
        } else {
            lemma_concat_contains(seq![x], stack_trees(chunks, next), y);
            assert forall|k: int| 0 <= k < next.len() implies 1 <= #[trigger] next[k] <= chunks.len() by {
                if k < rest.len() {
                    assert(next[k] == stack[k]);
                } else {
                    assert(next[k] == kids[kids.len() - 1 - (k - rest.len())]);
                }
            }
            lemma_first_pass_reports_missing(m, hits, next, (fuel - 1) as nat, y);
            if hit_of(hits, x) == GeometryHit::Missing && !kind_is_structural(c.kind) {
                lemma_concat_contains(seq![x], p.not_yet_visible, y);
            }
        }
    }
}

/// On every document that builds, culling reports the whole frontier:
/// every renderable chunk of the document outside every hidden subtree
/// whose geometry is missing is reported as not yet visible (the converse
/// of [`lemma_not_yet_visible_is_not_visible`]'s premise: what is reported
/// has missing geometry and is renderable).
pub proof fn lemma_missing_chunks_are_reported(pkg: &Package, hits: Seq<GeometryHit>, y: u32)
    requires
        build_spec(pkg) is Ok,
        preorder(build_spec(pkg)->Ok_0.chunks, seq![build_spec(pkg)->Ok_0.root.id], build_spec(pkg)->Ok_0.chunks.len()).contains(y),
        !in_hidden_subtree(build_spec(pkg)->Ok_0.chunks, y),
        chunk_at(build_spec(pkg)->Ok_0.chunks, y) matches Some(c) && !kind_is_structural(c.kind),
        hit_of(hits, y) == GeometryHit::Missing,
    ensures
        cull_spec(build_spec(pkg)->Ok_0, hits).2.contains(y),
{
    let m = build_spec(pkg)->Ok_0;
    let chunks = m.chunks;
    let n = chunks.len();
    lemma_built_tree(pkg);
    assert(chunks[n - 1].id == n);
    let root = m.root.id;
    lemma_subtree_len(chunks, root);
    assert(seq![root].drop_last() =~= Seq::<u32>::empty());
    assert(stack_trees(chunks, Seq::<u32>::empty()) =~= Seq::<u32>::empty());
    assert(stack_trees(chunks, seq![root]) =~= subtree(chunks, root));
    lemma_preorder_trees(chunks, seq![root], n);
    lemma_first_pass_reports_missing(m, hits, seq![root], n, y);
}

/// Culling reports nothing else as not yet visible: every chunk it
/// reports is a renderable chunk whose geometry is missing.
pub proof fn lemma_reported_chunks_have_no_geometry(m: DocumentView, hits: Seq<GeometryHit>, y: u32)
    requires
        cull_spec(m, hits).2.contains(y),
    ensures
        hit_of(hits, y) == GeometryHit::Missing,
        chunk_at(m.chunks, y) matches Some(c) && !kind_is_structural(c.kind),
{
    let p = first_pass(m, hits, seq![m.root.id], m.chunks.len());
    lemma_first_pass_sources(m, hits, seq![m.root.id], m.chunks.len());
    let i = choose|i: int| 0 <= i < p.not_yet_visible.len() && p.not_yet_visible[i] == y;
    assert(p.not_yet_visible[i] == y);
}

} // verus!
