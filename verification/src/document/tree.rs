//! The chunk tree behind a validated graph: subtrees in pre-order, and the
//! proof that the document-order walk lists every chunk exactly once.

use vstd::prelude::*;
use crate::document::graph::{
    chunk_at, count_marked, dense, depth_ok, graph_spec, is_marked, lemma_count_marked_bound,
    lemma_count_marked_set, marks_ok, no_marks, ring_spec, walk_spec,
};
use crate::document::model::{build_spec, child_walk, children_of, plain, preorder, DocumentView};
use crate::reader::Package;
use crate::reader::chunk::{ChunkKind, ChunkRecord};

verus! {

/// The depth recorded for chunk `id` (0 for an id without a chunk).
pub open spec fn depth_of(chunks: Seq<ChunkRecord>, id: u32) -> int {
    match chunk_at(chunks, id) {
        Some(c) => c.depth as int,
        None => 0,
    }
}

/// The parent recorded for chunk `id` (0 for an id without a chunk).
pub open spec fn parent_of(chunks: Seq<ChunkRecord>, id: u32) -> u32 {
    match chunk_at(chunks, id) {
        Some(c) => c.parent_id,
        None => 0,
    }
}

/// The subtree of `id` in pre-order: `id`, then the subtrees of those of
/// its children that sit one level deeper, in ring order.
pub open spec fn subtree(chunks: Seq<ChunkRecord>, id: u32) -> Seq<u32>
    decreases 0x1_0000_0000int - depth_of(chunks, id), 0int,
{
    seq![id] + forest(chunks, children_of(chunks, id), depth_of(chunks, id))
}

/// The subtrees of those `ids` at depth `d + 1`, one after another.
pub open spec fn forest(chunks: Seq<ChunkRecord>, ids: Seq<u32>, d: int) -> Seq<u32>
    decreases 0x1_0000_0000int - d - 1, ids.len(),
{
    if ids.len() == 0 {
        Seq::empty()
    } else if depth_of(chunks, ids[0]) == d + 1 {
        subtree(chunks, ids[0]) + forest(chunks, ids.drop_first(), d)
    } else {
        forest(chunks, ids.drop_first(), d)
    }
}

/// The subtrees of a walk's stack, the top (last) one first.
pub open spec fn stack_trees(chunks: Seq<ChunkRecord>, stack: Seq<u32>) -> Seq<u32>
    decreases stack.len(),
{
    if stack.len() == 0 {
        Seq::empty()
    } else {
        subtree(chunks, stack.last()) + stack_trees(chunks, stack.drop_last())
    }
}

/// `c`, a child of `x`, is a chunk that names `x` as its parent and sits
/// one level below it.
pub open spec fn child_ok(chunks: Seq<ChunkRecord>, x: u32, c: u32) -> bool {
    &&& 1 <= c <= chunks.len()
    &&& chunks[c - 1].parent_id == x
    &&& depth_of(chunks, c) == depth_of(chunks, x) + 1
}

/// Every chunk's children are distinct chunks that name it as their parent
/// and sit one level below it.
pub open spec fn tree_ok(chunks: Seq<ChunkRecord>) -> bool {
    &&& forall|x: u32| 1 <= x <= chunks.len() ==> (#[trigger] children_of(chunks, x)).no_duplicates()
    &&& forall|x: u32, k: int|
        1 <= x <= chunks.len() && 0 <= k < children_of(chunks, x).len() ==> child_ok(
            chunks,
            x,
            #[trigger] children_of(chunks, x)[k],
        )
}

/// What a walk learns of a chunk it visits: a real chunk, at the right
/// depth unless it is the root, whose distinct children name it as parent.
pub open spec fn visited_ok(chunks: Seq<ChunkRecord>, y: u32) -> bool {
    &&& 1 <= y <= chunks.len()
    &&& y != 1 ==> depth_ok(chunks, chunks[y - 1])
    &&& children_of(chunks, y).no_duplicates()
    &&& forall|k: int|
        0 <= k < children_of(chunks, y).len() ==> {
            let c = #[trigger] children_of(chunks, y)[k];
            1 <= c <= chunks.len() && chunks[c - 1].parent_id == y
        }
}

/// `y` lies in the subtree of some id on `stack`.
pub open spec fn in_stack_trees(chunks: Seq<ChunkRecord>, stack: Seq<u32>, y: u32) -> bool {
    exists|k: int| 0 <= k < stack.len() && (#[trigger] subtree(chunks, stack[k])).contains(y)
}

/// The id `k` parent links above `y`.
pub open spec fn up(chunks: Seq<ChunkRecord>, y: u32, k: nat) -> u32
    decreases k,
{
    if k == 0 {
        y
    } else {
        parent_of(chunks, up(chunks, y, (k - 1) as nat))
    }
}

/// A sibling ring that validates is what the child walk reads, and each of
/// its members is a chunk that names the parent.
proof fn lemma_ring_children(chunks: Seq<ChunkRecord>, marks: Seq<bool>, p: ChunkRecord, child: u32, acc: Seq<u32>)
    requires
        dense(chunks),
        acc.len() <= chunks.len() + 1,
        ring_spec(chunks, marks, p, child, acc) is Ok,
    ensures
        ({
            let r = ring_spec(chunks, marks, p, child, acc)->Ok_0;
            &&& child_walk(chunks, p, child, acc) == r
            &&& acc.len() <= r.len()
            &&& r.subrange(0, acc.len() as int) == acc
            &&& forall|k: int|
                acc.len() <= k < r.len() ==> 1 <= #[trigger] r[k] <= chunks.len() && chunks[r[k] - 1].parent_id
                    == p.id
        }),
    decreases chunks.len() + 1 - acc.len(),
{
    if child == 0 {
        assert(acc.subrange(0, acc.len() as int) =~= acc);
    } else {
        let cc = chunks[child - 1];
        let acc2 = acc.push(child);
        if child == p.last_child_id {
            assert(acc2.subrange(0, acc.len() as int) =~= acc);
        } else {
            lemma_ring_children(chunks, marks, p, cc.next_id, acc2);
            let r = ring_spec(chunks, marks, p, child, acc)->Ok_0;
            assert(r.subrange(0, acc.len() as int) =~= r.subrange(0, acc2.len() as int).subrange(0, acc.len() as int));
            assert(r[acc.len() as int] == r.subrange(0, acc2.len() as int)[acc.len() as int]);
        }
    }
}

/// A validated depth-first walk visits each stacked id once, learns
/// `visited_ok` of every chunk it visits, and visits only ids in the
/// subtrees of its stack.
proof fn lemma_walk(chunks: Seq<ChunkRecord>, stack: Seq<u32>, marks: Seq<bool>)
    requires
        dense(chunks),
        chunks.len() > 0,
        chunks[0].parent_id == 0,
        marks_ok(chunks, marks),
        walk_spec(chunks, stack, marks) is Ok,
    ensures
        ({
            let m2 = walk_spec(chunks, stack, marks)->Ok_0;
            &&& marks_ok(chunks, m2)
            &&& forall|i: int| 0 <= i < marks.len() && marks[i] ==> m2[i]
            &&& stack.no_duplicates()
            &&& forall|k: int|
                0 <= k < stack.len() ==> !is_marked(marks, #[trigger] stack[k]) && is_marked(m2, stack[k]) && 1
                    <= stack[k] <= chunks.len()
            &&& forall|y: u32|
                is_marked(m2, y) && !is_marked(marks, y) ==> #[trigger] visited_ok(chunks, y) && in_stack_trees(
                    chunks,
                    stack,
                    y,
                )
        }),
    decreases chunks.len() + 1 - count_marked(marks),
{
    if stack.len() == 0 {
        return;
    }
    let x = stack.last();
    let c = chunks[x - 1];
    let marks2 = marks.update(x as int, true);
    let kids = ring_spec(chunks, marks2, c, c.first_child_id, Seq::empty())->Ok_0;
    let rest = stack.drop_last() + kids;
    let m2 = walk_spec(chunks, stack, marks)->Ok_0;
    lemma_count_marked_set(marks, x as int);
    lemma_count_marked_bound(marks2);
    lemma_ring_children(chunks, marks2, c, c.first_child_id, Seq::empty());
    assert(kids.subrange(0, 0) =~= Seq::<u32>::empty());
    assert(children_of(chunks, x) == kids);
    assert(walk_spec(chunks, rest, marks2) == walk_spec(chunks, stack, marks));
    lemma_walk(chunks, rest, marks2);
    let dl = stack.drop_last();
    assert(forall|k: int| 0 <= k < dl.len() ==> rest[k] == #[trigger] dl[k]);
    assert(forall|k: int| 0 <= k < kids.len() ==> rest[dl.len() + k] == #[trigger] kids[k]);
    assert(kids =~= rest.subrange(dl.len() as int, rest.len() as int));
    assert(dl =~= rest.subrange(0, dl.len() as int));
    assert(stack =~= dl.push(x));
    assert forall|k: int| 0 <= k < stack.len() implies !is_marked(marks, #[trigger] stack[k]) && is_marked(m2, stack[k])
        && 1 <= stack[k] <= chunks.len() by {
        if k < dl.len() {
            assert(stack[k] == rest[k]);
        }
    }
    assert(stack.no_duplicates()) by {
        assert forall|i: int, j: int| 0 <= i < stack.len() && 0 <= j < stack.len() && i != j implies stack[i]
            != stack[j] by {
            if i < dl.len() && j < dl.len() {
                assert(rest[i] == stack[i] && rest[j] == stack[j]);
            } else if i < dl.len() {
                assert(rest[i] == stack[i]);
            } else if j < dl.len() {
                assert(rest[j] == stack[j]);
            }
        }
    }
    assert forall|y: u32| is_marked(m2, y) && !is_marked(marks, y) implies #[trigger] visited_ok(chunks, y)
        && in_stack_trees(chunks, stack, y) by {
        if y == x {
            assert(kids.no_duplicates()) by {
                assert forall|i: int, j: int| 0 <= i < kids.len() && 0 <= j < kids.len() && i != j implies kids[i]
                    != kids[j] by {
                    assert(rest[dl.len() + i] == kids[i] && rest[dl.len() + j] == kids[j]);
                }
            }
            assert(subtree(chunks, stack[stack.len() - 1]).contains(y)) by {
                assert(subtree(chunks, x)[0] == x);
            }
        } else {
            assert(is_marked(m2, y) && !is_marked(marks2, y));
            assert(visited_ok(chunks, y));
            assert(in_stack_trees(chunks, rest, y));
            let k = choose|k: int| 0 <= k < rest.len() && (#[trigger] subtree(chunks, rest[k])).contains(y);
            if k < dl.len() {
                assert(rest[k] == stack[k]);
            } else {
                let j = k - dl.len();
                let ch = kids[j];
                assert(rest[k] == ch);
                assert(is_marked(m2, ch) && !is_marked(marks2, ch));
                assert(visited_ok(chunks, ch));
                assert(ch != 1);
                assert(depth_of(chunks, ch) == depth_of(chunks, x) + 1);
                lemma_forest_has(chunks, kids, depth_of(chunks, x), j, y);
                lemma_subtree_has_forest(chunks, x, y);
                assert(subtree(chunks, stack[stack.len() - 1]).contains(y));
            }
        }
    }
}

/// A forest holds what the subtree of any of its ids one level down holds.
pub(crate) proof fn lemma_forest_has(chunks: Seq<ChunkRecord>, ids: Seq<u32>, d: int, j: int, y: u32)
    requires
        0 <= j < ids.len(),
        depth_of(chunks, ids[j]) == d + 1,
        subtree(chunks, ids[j]).contains(y),
    ensures
        forest(chunks, ids, d).contains(y),
    decreases ids.len(),
{
    let f = forest(chunks, ids, d);
    if j == 0 {
        let s = subtree(chunks, ids[0]);
        let i = choose|i: int| 0 <= i < s.len() && s[i] == y;
        assert(f[i] == y);
    } else {
        lemma_forest_has(chunks, ids.drop_first(), d, j - 1, y);
        let g = forest(chunks, ids.drop_first(), d);
        let i = choose|i: int| 0 <= i < g.len() && g[i] == y;
        if depth_of(chunks, ids[0]) == d + 1 {
            assert(f[subtree(chunks, ids[0]).len() + i] == y);
        } else {
            assert(f[i] == y);
        }
    }
}

/// A subtree holds what its forest holds.
pub(crate) proof fn lemma_subtree_has_forest(chunks: Seq<ChunkRecord>, x: u32, y: u32)
    requires
        forest(chunks, children_of(chunks, x), depth_of(chunks, x)).contains(y),
    ensures
        subtree(chunks, x).contains(y),
{
    let f = forest(chunks, children_of(chunks, x), depth_of(chunks, x));
    let i = choose|i: int| 0 <= i < f.len() && f[i] == y;
    assert(subtree(chunks, x)[i + 1] == y);
}

/// Two unvisited slots, slot 0 among them, keep the count two short.
proof fn lemma_count_two_unmarked(marks: Seq<bool>, i: int)
    requires
        0 < i < marks.len(),
        !marks[0],
        !marks[i],
    ensures
        count_marked(marks) + 2 <= marks.len(),
    decreases marks.len(),
{
    let dl = marks.drop_last();
    if i == marks.len() - 1 {
        assert(dl[0] == marks[0]);
        lemma_count_marked_bound(dl);
    } else {
        assert(dl[0] == marks[0]);
        assert(dl[i] == marks[i]);
        lemma_count_two_unmarked(dl, i);
    }
}

/// A forest member lies in the subtree of one of its ids one level down.
pub(crate) proof fn lemma_forest_member(chunks: Seq<ChunkRecord>, ids: Seq<u32>, d: int, y: u32) -> (k: int)
    requires
        forest(chunks, ids, d).contains(y),
    ensures
        0 <= k < ids.len(),
        depth_of(chunks, ids[k]) == d + 1,
        subtree(chunks, ids[k]).contains(y),
    decreases ids.len(),
{
    let f = forest(chunks, ids, d);
    let i = choose|i: int| 0 <= i < f.len() && f[i] == y;
    let g = forest(chunks, ids.drop_first(), d);
    if depth_of(chunks, ids[0]) == d + 1 {
        let a = subtree(chunks, ids[0]);
        if i < a.len() {
            assert(a[i] == y);
            0
        } else {
            assert(g[i - a.len()] == y);
            let k = lemma_forest_member(chunks, ids.drop_first(), d, y);
            k + 1
        }
    } else {
        assert(g[i] == y);
        let k = lemma_forest_member(chunks, ids.drop_first(), d, y);
        k + 1
    }
}

/// Whatever lies in the subtree of a chunk is a chunk no shallower than it,
/// whose parent links lead back up to it.
pub(crate) proof fn lemma_subtree_anc(chunks: Seq<ChunkRecord>, x: u32, y: u32)
    requires
        tree_ok(chunks),
        1 <= x <= chunks.len(),
        subtree(chunks, x).contains(y),
    ensures
        1 <= y <= chunks.len(),
        depth_of(chunks, y) >= depth_of(chunks, x),
        up(chunks, y, (depth_of(chunks, y) - depth_of(chunks, x)) as nat) == x,
    decreases 0x1_0000_0000int - depth_of(chunks, x),
{
    let kids = children_of(chunks, x);
    let f = forest(chunks, kids, depth_of(chunks, x));
    let s = subtree(chunks, x);
    if y != x {
        let i = choose|i: int| 0 <= i < s.len() && s[i] == y;
        assert(i > 0);
        assert(f[i - 1] == y);
        let k = lemma_forest_member(chunks, kids, depth_of(chunks, x), y);
        let ch = kids[k];
        assert(child_ok(chunks, x, ch));
        lemma_subtree_anc(chunks, ch, y);
        let j = (depth_of(chunks, y) - depth_of(chunks, ch)) as nat;
        assert(up(chunks, y, j + 1) == parent_of(chunks, up(chunks, y, j)));
        assert((depth_of(chunks, y) - depth_of(chunks, x)) as nat == j + 1);
    }
}

/// A subtree lists no id twice.
proof fn lemma_subtree_nodup(chunks: Seq<ChunkRecord>, x: u32)
    requires
        tree_ok(chunks),
        1 <= x <= chunks.len(),
    ensures
        subtree(chunks, x).no_duplicates(),
    decreases 0x1_0000_0000int - depth_of(chunks, x), 0int,
{
    let kids = children_of(chunks, x);
    let d = depth_of(chunks, x);
    let f = forest(chunks, kids, d);
    assert(forall|k: int| 0 <= k < kids.len() ==> child_ok(chunks, x, #[trigger] kids[k]));
    lemma_forest_nodup(chunks, kids, d);
    if f.contains(x) {
        let k = lemma_forest_member(chunks, kids, d, x);
        lemma_subtree_anc(chunks, kids[k], x);
    }
    vstd::seq_lib::lemma_no_dup_in_concat(seq![x], f);
}

/// A forest over distinct chunks lists no id twice.
proof fn lemma_forest_nodup(chunks: Seq<ChunkRecord>, ids: Seq<u32>, d: int)
    requires
        tree_ok(chunks),
        ids.no_duplicates(),
        forall|k: int| 0 <= k < ids.len() ==> 1 <= #[trigger] ids[k] <= chunks.len(),
    ensures
        forest(chunks, ids, d).no_duplicates(),
    decreases 0x1_0000_0000int - d - 1, ids.len(),
{
    if ids.len() > 0 {
        let rest = ids.drop_first();
        assert(forall|k: int| 0 <= k < rest.len() ==> rest[k] == #[trigger] ids[k + 1]);
        lemma_forest_nodup(chunks, rest, d);
        if depth_of(chunks, ids[0]) == d + 1 {
            let a = subtree(chunks, ids[0]);
            let b = forest(chunks, rest, d);
            lemma_subtree_nodup(chunks, ids[0]);
            assert forall|i: int, j: int| 0 <= i < a.len() && 0 <= j < b.len() implies a[i] != b[j] by {
                if a[i] == b[j] {
                    let y = b[j];
                    assert(b.contains(y));
                    assert(a.contains(y));
                    let k = lemma_forest_member(chunks, rest, d, y);
                    lemma_subtree_anc(chunks, ids[0], y);
                    lemma_subtree_anc(chunks, rest[k], y);
                    assert(ids[0] != ids[k + 1]);
                }
            }
            vstd::seq_lib::lemma_no_dup_in_concat(a, b);
        }
    }
}

/// Pushing children (reversed, so the first is on top) puts their forest
/// in front of the stack's subtrees.
pub(crate) proof fn lemma_stack_push_children(chunks: Seq<ChunkRecord>, t: Seq<u32>, r: Seq<u32>, d: int)
    requires
        forall|k: int| 0 <= k < r.len() ==> depth_of(chunks, #[trigger] r[k]) == d + 1,
    ensures
        stack_trees(chunks, t + r.reverse()) == forest(chunks, r, d) + stack_trees(chunks, t),
    decreases r.len(),
{
    if r.len() == 0 {
        assert(t + r.reverse() =~= t);
        assert(forest(chunks, r, d) + stack_trees(chunks, t) =~= stack_trees(chunks, t));
    } else {
        let rest = r.drop_first();
        assert(forall|k: int| 0 <= k < rest.len() ==> rest[k] == #[trigger] r[k + 1]);
        lemma_stack_push_children(chunks, t, rest, d);
        let st = t + r.reverse();
        assert(st.last() == r[0]);
        assert(st.drop_last() =~= t + rest.reverse());
        assert(stack_trees(chunks, st) =~= forest(chunks, r, d) + stack_trees(chunks, t));
    }
}

/// With enough fuel, the pre-order walk of a stack lists exactly the
/// stack's subtrees.
pub(crate) proof fn lemma_preorder_trees(chunks: Seq<ChunkRecord>, stack: Seq<u32>, fuel: nat)
    requires
        tree_ok(chunks),
        forall|k: int| 0 <= k < stack.len() ==> 1 <= #[trigger] stack[k] <= chunks.len(),
        fuel >= stack_trees(chunks, stack).len(),
    ensures
        preorder(chunks, stack, fuel) == stack_trees(chunks, stack),
    decreases fuel,
{
    if stack.len() > 0 {
        let x = stack.last();
        let dl = stack.drop_last();
        let kids = children_of(chunks, x);
        let d = depth_of(chunks, x);
        let next = dl + kids.reverse();
        assert(forall|k: int| 0 <= k < kids.len() ==> child_ok(chunks, x, #[trigger] kids[k]));
        lemma_stack_push_children(chunks, dl, kids, d);
        assert(stack_trees(chunks, stack) =~= seq![x] + stack_trees(chunks, next));
        assert forall|k: int| 0 <= k < next.len() implies 1 <= #[trigger] next[k] <= chunks.len() by {
            if k < dl.len() {
                assert(next[k] == stack[k]);
            } else {
                assert(next[k] == kids[kids.len() - 1 - (k - dl.len())]);
            }
        }
        lemma_preorder_trees(chunks, next, (fuel - 1) as nat);
    }
}

/// The ids `1..=n`.
pub open spec fn ids_upto(n: nat) -> Set<u32> {
    Set::new(|v: u32| 1 <= v && v <= n)
}

proof fn lemma_ids_upto(n: nat)
    requires
        n <= u32::MAX,
    ensures
        ids_upto(n).finite(),
        ids_upto(n).len() == n,
    decreases n,
{
    if n == 0 {
        assert(ids_upto(n) =~= Set::<u32>::empty());
    } else {
        lemma_ids_upto((n - 1) as nat);
        assert(ids_upto(n) =~= ids_upto((n - 1) as nat).insert(n as u32));
    }
}

/// On a graph that validates, the pre-order walk from the root lists every
/// chunk exactly once (so no walk's guard ever cuts it short), and every
/// chunk's children are distinct chunks that name it as their parent.
pub proof fn lemma_walk_lists_each_chunk_once(chunks: Seq<ChunkRecord>)
    requires
        dense(chunks),
        graph_spec(chunks) is Ok,
    ensures
        tree_ok(chunks),
        preorder(chunks, seq![1u32], chunks.len()).len() == chunks.len(),
        preorder(chunks, seq![1u32], chunks.len()).no_duplicates(),
        forall|id: u32| 1 <= id <= chunks.len() ==> #[trigger] preorder(chunks, seq![1u32], chunks.len()).contains(id),
{
    let n = chunks.len();
    let start = no_marks(n);
    let m = walk_spec(chunks, seq![1u32], start)->Ok_0;
    assert(chunks[n - 1].id == n);
    lemma_walk(chunks, seq![1u32], start);
    assert forall|i: int| 1 <= i < m.len() implies m[i] by {
        if !m[i] {
            lemma_count_two_unmarked(m, i);
        }
    }
    assert forall|y: u32| 1 <= y <= n implies #[trigger] visited_ok(chunks, y) && subtree(chunks, 1).contains(y) by {
        assert(is_marked(m, y) && !is_marked(start, y));
        assert(visited_ok(chunks, y));
        assert(in_stack_trees(chunks, seq![1u32], y));
        let k = choose|k: int| 0 <= k < 1 && (#[trigger] subtree(chunks, seq![1u32][k])).contains(y);
        assert(seq![1u32][k] == 1);
    }
    assert forall|x: u32, k: int| 1 <= x <= n && 0 <= k < children_of(chunks, x).len() implies child_ok(
        chunks,
        x,
        #[trigger] children_of(chunks, x)[k],
    ) by {
        assert(visited_ok(chunks, x));
        let c = children_of(chunks, x)[k];
        assert(visited_ok(chunks, c));
    }
    assert forall|x: u32| 1 <= x <= n implies (#[trigger] children_of(chunks, x)).no_duplicates() by {
        assert(visited_ok(chunks, x));
    }
    let s = subtree(chunks, 1);
    lemma_subtree_nodup(chunks, 1);
    assert forall|y: u32| s.contains(y) implies 1 <= y <= n by {
        lemma_subtree_anc(chunks, 1, y);
    }
    assert forall|v: u32| s.to_set().contains(v) <==> ids_upto(n).contains(v) by {
        if 1 <= v <= n {
            assert(visited_ok(chunks, v));
        }
    }
    assert(s.to_set() =~= ids_upto(n));
    lemma_ids_upto(n);
    s.unique_seq_to_set();
    assert(seq![1u32].drop_last() =~= Seq::<u32>::empty());
    assert(stack_trees(chunks, Seq::<u32>::empty()) =~= Seq::<u32>::empty());
    assert(stack_trees(chunks, seq![1u32]) =~= s);
    lemma_preorder_trees(chunks, seq![1u32], n);
    assert forall|id: u32| 1 <= id <= n implies #[trigger] preorder(chunks, seq![1u32], n).contains(id) by {
        assert(visited_ok(chunks, id));
    }
}

/// On every document that builds, the document-order walk (`all_ids`)
/// lists each chunk exactly once, and each chunk's children (`child_ids`)
/// are distinct chunks that name it as their parent.
pub proof fn lemma_all_ids_lists_each_chunk_once(pkg: &Package)
    requires
        build_spec(pkg) is Ok,
    ensures
        ({
            let v = build_spec(pkg)->Ok_0;
            let ids = preorder(v.chunks, seq![v.root.id], v.chunks.len());
            &&& ids.len() == v.chunks.len()
            &&& ids.no_duplicates()
            &&& forall|id: u32| 1 <= id <= v.chunks.len() ==> #[trigger] ids.contains(id)
            &&& forall|x: u32| 1 <= x <= v.chunks.len() ==> (#[trigger] children_of(v.chunks, x)).no_duplicates()
            &&& forall|x: u32, k: int|
                1 <= x <= v.chunks.len() && 0 <= k < children_of(v.chunks, x).len() ==> (chunk_at(
                    v.chunks,
                    #[trigger] children_of(v.chunks, x)[k],
                ) matches Some(c) && c.parent_id == x)
        }),
{
    let cp = pkg.payload_of(2)->Some_0;
    let chunks = crate::reader::chunk::chunk_section_spec(cp)->Ok_0.chunks;
    crate::reader::chunk::lemma_section_dense(cp);
    assert(dense(chunks));
    lemma_walk_lists_each_chunk_once(chunks);
    assert(chunks[0].id == 1);
    assert forall|x: u32, k: int| 1 <= x <= chunks.len() && 0 <= k < children_of(chunks, x).len() implies (chunk_at(
        chunks,
        #[trigger] children_of(chunks, x)[k],
    ) matches Some(c) && c.parent_id == x) by {
        assert(child_ok(chunks, x, children_of(chunks, x)[k]));
    }
}

/// With at least as much fuel as the stack's subtrees hold, the text walk
/// is done: more fuel gives the same text.
proof fn lemma_plain_settled(m: DocumentView, stack: Seq<u32>, fuel: nat, more: nat)
    requires
        tree_ok(m.chunks),
        fuel >= stack_trees(m.chunks, stack).len(),
        more >= fuel,
    ensures
        plain(m, stack, more) == plain(m, stack, fuel),
    decreases fuel,
{
    if stack.len() > 0 {
        let chunks = m.chunks;
        let x = stack.last();
        let rest = stack.drop_last();
        let kids = children_of(chunks, x);
        let d = depth_of(chunks, x);
        assert(subtree(chunks, x)[0] == x);
        assert(stack_trees(chunks, stack).len() == subtree(chunks, x).len() + stack_trees(chunks, rest).len());
        match chunk_at(chunks, x) {
            None => {
                lemma_plain_settled(m, rest, (fuel - 1) as nat, (more - 1) as nat);
            },
            Some(c) => {
                if c.kind == ChunkKind::Br {
                    lemma_plain_settled(m, rest, (fuel - 1) as nat, (more - 1) as nat);
                } else {
                    assert(forall|k: int| 0 <= k < kids.len() ==> child_ok(chunks, x, #[trigger] kids[k]));
                    lemma_stack_push_children(chunks, rest, kids, d);
                    lemma_plain_settled(m, rest + kids.reverse(), (fuel - 1) as nat, (more - 1) as nat);
                }
            },
        }
    }
}

/// A subtree on a validated graph holds at most one id per chunk.
pub(crate) proof fn lemma_subtree_len(chunks: Seq<ChunkRecord>, x: u32)
    requires
        tree_ok(chunks),
        chunks.len() <= u32::MAX,
        chunks.len() > 0,
    ensures
        subtree(chunks, x).len() <= chunks.len(),
{
    let s = subtree(chunks, x);
    if 1 <= x <= chunks.len() {
        lemma_subtree_nodup(chunks, x);
        assert forall|y: u32| s.to_set().contains(y) implies ids_upto(chunks.len()).contains(y) by {
            lemma_subtree_anc(chunks, x, y);
        }
        lemma_ids_upto(chunks.len());
        vstd::set_lib::lemma_len_subset(s.to_set(), ids_upto(chunks.len()));
        s.unique_seq_to_set();
    } else {
        assert(children_of(chunks, x) =~= Seq::<u32>::empty());
        assert(s.len() == 1);
    }
}

/// On every document that builds, `plain_text` of any chunk is the whole
/// text of its subtree: walking further would add nothing.
pub proof fn lemma_plain_text_is_complete(pkg: &Package, id: u32)
    requires
        build_spec(pkg) is Ok,
    ensures
        ({
            let v = build_spec(pkg)->Ok_0;
            forall|more: nat| more >= v.chunks.len() ==> #[trigger] plain(v, seq![id], more) == plain(
                v,
                seq![id],
                v.chunks.len(),
            )
        }),
{
    let v = build_spec(pkg)->Ok_0;
    let cp = pkg.payload_of(2)->Some_0;
    let chunks = crate::reader::chunk::chunk_section_spec(cp)->Ok_0.chunks;
    crate::reader::chunk::lemma_section_dense(cp);
    assert(dense(chunks));
    lemma_walk_lists_each_chunk_once(chunks);
    assert(chunks[chunks.len() - 1].id == chunks.len());
    lemma_subtree_len(chunks, id);
    assert(seq![id].drop_last() =~= Seq::<u32>::empty());
    assert(stack_trees(chunks, Seq::<u32>::empty()) =~= Seq::<u32>::empty());
    assert(stack_trees(chunks, seq![id]) =~= subtree(chunks, id));
    assert forall|more: nat| more >= v.chunks.len() implies #[trigger] plain(v, seq![id], more) == plain(
        v,
        seq![id],
        v.chunks.len(),
    ) by {
        lemma_plain_settled(v, seq![id], v.chunks.len(), more);
    }
}

/// One more parent link above `y` is the same walk started from its parent.
pub proof fn lemma_up_shift(chunks: Seq<ChunkRecord>, y: u32, k: nat)
    ensures
        up(chunks, y, k + 1) == up(chunks, parent_of(chunks, y), k),
    decreases k,
{
    assert(up(chunks, y, k + 1) == parent_of(chunks, up(chunks, y, k)));
    if k > 0 {
        lemma_up_shift(chunks, y, (k - 1) as nat);
        assert(up(chunks, parent_of(chunks, y), k) == parent_of(chunks, up(chunks, parent_of(chunks, y), (k - 1) as nat)));
    } else {
        assert(up(chunks, y, 0) == y);
        assert(up(chunks, parent_of(chunks, y), 0) == parent_of(chunks, y));
    }
}

/// Above id 0 there is only id 0.
pub proof fn lemma_up_zero(chunks: Seq<ChunkRecord>, k: nat)
    ensures
        up(chunks, 0, k) == 0,
    decreases k,
{
    if k > 0 {
        lemma_up_zero(chunks, (k - 1) as nat);
    }
}

/// What a document that builds holds: dense chunks forming a tree under
/// chunk 1, the root, which has no parent.
pub proof fn lemma_built_tree(pkg: &Package)
    requires
        build_spec(pkg) is Ok,
    ensures
        ({
            let v = build_spec(pkg)->Ok_0;
            &&& v.chunks.len() > 0
            &&& dense(v.chunks)
            &&& tree_ok(v.chunks)
            &&& v.root == v.chunks[0]
            &&& v.root.id == 1
            &&& v.root.parent_id == 0
        }),
{
    let cp = pkg.payload_of(2)->Some_0;
    let chunks = crate::reader::chunk::chunk_section_spec(cp)->Ok_0.chunks;
    crate::reader::chunk::lemma_section_dense(cp);
    assert(dense(chunks));
    lemma_walk_lists_each_chunk_once(chunks);
    assert(chunks[0].id == 1);
}

/// A forest is at least as long as any subtree in it.
proof fn lemma_forest_len_ge(chunks: Seq<ChunkRecord>, ids: Seq<u32>, d: int, k: int)
    requires
        0 <= k < ids.len(),
        depth_of(chunks, ids[k]) == d + 1,
    ensures
        forest(chunks, ids, d).len() >= subtree(chunks, ids[k]).len(),
    decreases ids.len(),
{
    if k > 0 {
        lemma_forest_len_ge(chunks, ids.drop_first(), d, k - 1);
    }
}

/// A chunk below `x` names a chunk one level up as its parent, and the
/// subtree of `x` is at least as long as the path down to it.
proof fn lemma_subtree_path(chunks: Seq<ChunkRecord>, x: u32, y: u32)
    requires
        tree_ok(chunks),
        1 <= x <= chunks.len(),
        subtree(chunks, x).contains(y),
    ensures
        subtree(chunks, x).len() >= depth_of(chunks, y) - depth_of(chunks, x) + 1,
        y != x ==> 1 <= parent_of(chunks, y) <= chunks.len() && depth_of(chunks, y) == depth_of(
            chunks,
            parent_of(chunks, y),
        ) + 1,
    decreases 0x1_0000_0000int - depth_of(chunks, x),
{
    let kids = children_of(chunks, x);
    let d = depth_of(chunks, x);
    let f = forest(chunks, kids, d);
    let s = subtree(chunks, x);
    lemma_subtree_anc(chunks, x, y);
    if y != x {
        let i = choose|i: int| 0 <= i < s.len() && s[i] == y;
        assert(i > 0);
        assert(f[i - 1] == y);
        let k = lemma_forest_member(chunks, kids, d, y);
        let ch = kids[k];
        assert(child_ok(chunks, x, ch));
        lemma_subtree_path(chunks, ch, y);
        lemma_forest_len_ge(chunks, kids, d, k);
    }
}

/// On every document that builds, every chunk but the root names a chunk
/// one level up as its parent, the root has no parent and depth 0, and no
/// chunk lies as deep as there are chunks.
pub proof fn lemma_parent_links(pkg: &Package)
    requires
        build_spec(pkg) is Ok,
    ensures
        ({
            let chunks = build_spec(pkg)->Ok_0.chunks;
            &&& parent_of(chunks, 1) == 0
            &&& depth_of(chunks, 1) == 0
            &&& forall|y: u32|
                1 <= y <= chunks.len() ==> #[trigger] depth_of(chunks, y) < chunks.len() && (y == 1 || (1
                    <= parent_of(chunks, y) <= chunks.len() && depth_of(chunks, y) == depth_of(
                    chunks,
                    parent_of(chunks, y),
                ) + 1))
        }),
{
    let cp = pkg.payload_of(2)->Some_0;
    let chunks = crate::reader::chunk::chunk_section_spec(cp)->Ok_0.chunks;
    crate::reader::chunk::lemma_section_dense(cp);
    assert(dense(chunks));
    lemma_walk_lists_each_chunk_once(chunks);
    assert(chunks[chunks.len() - 1].id == chunks.len());
    let ids = preorder(chunks, seq![1u32], chunks.len());
    assert(stack_trees(chunks, Seq::<u32>::empty()) =~= Seq::<u32>::empty());
    assert(seq![1u32].drop_last() =~= Seq::<u32>::empty());
    assert(stack_trees(chunks, seq![1u32]) =~= subtree(chunks, 1));
    lemma_subtree_len(chunks, 1);
    lemma_preorder_trees(chunks, seq![1u32], chunks.len());
    assert forall|y: u32| 1 <= y <= chunks.len() implies #[trigger] depth_of(chunks, y) < chunks.len() && (y == 1 || (1
        <= parent_of(chunks, y) <= chunks.len() && depth_of(chunks, y) == depth_of(chunks, parent_of(chunks, y)) + 1)) by {
        assert(ids.contains(y));
        lemma_subtree_path(chunks, 1, y);
    }
}

/// In a subtree every id but the first comes after its parent.
pub proof fn lemma_subtree_parent_before(chunks: Seq<ChunkRecord>, x: u32, j: int)
    requires
        tree_ok(chunks),
        1 <= x <= chunks.len(),
        0 < j < subtree(chunks, x).len(),
    ensures
        exists|i: int| 0 <= i < j && #[trigger] subtree(chunks, x)[i] == parent_of(chunks, subtree(chunks, x)[j]),
    decreases 0x1_0000_0000int - depth_of(chunks, x), 0int,
{
    let kids = children_of(chunks, x);
    let d = depth_of(chunks, x);
    let s = subtree(chunks, x);
    let f = forest(chunks, kids, d);
    assert(forall|k: int| 0 <= k < kids.len() ==> child_ok(chunks, x, #[trigger] kids[k]));
    lemma_forest_parent_before(chunks, kids, d, x, j - 1);
    assert(s[j] == f[j - 1]);
    if parent_of(chunks, f[j - 1]) == x {
        assert(s[0] == x);
    } else {
        let i = choose|i: int| 0 <= i < j - 1 && #[trigger] f[i] == parent_of(chunks, f[j - 1]);
        assert(s[i + 1] == f[i]);
    }
}

/// In a forest of children of `p`, each id either names `p` as its parent
/// or comes after its parent.
pub proof fn lemma_forest_parent_before(chunks: Seq<ChunkRecord>, ids: Seq<u32>, d: int, p: u32, j: int)
    requires
        tree_ok(chunks),
        forall|k: int| 0 <= k < ids.len() ==> child_ok(chunks, p, #[trigger] ids[k]),
        0 <= j < forest(chunks, ids, d).len(),
    ensures
        parent_of(chunks, forest(chunks, ids, d)[j]) == p || exists|i: int|
            0 <= i < j && #[trigger] forest(chunks, ids, d)[i] == parent_of(chunks, forest(chunks, ids, d)[j]),
    decreases 0x1_0000_0000int - d - 1, ids.len(),
{
    let f = forest(chunks, ids, d);
    let rest = ids.drop_first();
    assert(forall|k: int| 0 <= k < rest.len() ==> rest[k] == #[trigger] ids[k + 1]);
    assert(child_ok(chunks, p, ids[0]));
    if depth_of(chunks, ids[0]) == d + 1 {
        let a = subtree(chunks, ids[0]);
        let g = forest(chunks, rest, d);
        if j < a.len() {
            assert(f[j] == a[j]);
            if j == 0 {
                assert(a[0] == ids[0]);
            } else {
                lemma_subtree_parent_before(chunks, ids[0], j);
                let i = choose|i: int| 0 <= i < j && #[trigger] a[i] == parent_of(chunks, a[j]);
                assert(f[i] == a[i]);
            }
        } else {
            lemma_forest_parent_before(chunks, rest, d, p, j - a.len());
            assert(f[j] == g[j - a.len()]);
            if parent_of(chunks, g[j - a.len()]) != p {
                let i = choose|i: int| 0 <= i < j - a.len() && #[trigger] g[i] == parent_of(chunks, g[j - a.len()]);
                assert(f[i + a.len()] == g[i]);
            }
        }
    } else {
        lemma_forest_parent_before(chunks, rest, d, p, j);
    }
}

} // verus!
