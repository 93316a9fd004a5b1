//! Chunk-graph validation: dense ids and ordinals, the document root, and a
//! depth-first walk from the root that checks depths, sibling rings and
//! parent links, visits every chunk exactly once, and reaches them all.

use vstd::prelude::*;
use crate::document::{DocumentError, DocumentErrorKind};
use crate::reader::chunk::{ChunkKind, ChunkRecord};

verus! {

/// The chunk with id `id`: ids are dense, chunk `id` sits at index `id - 1`.
pub open spec fn chunk_at(chunks: Seq<ChunkRecord>, id: u32) -> Option<ChunkRecord> {
    if 1 <= id && id <= chunks.len() {
        Some(chunks[id - 1])
    } else {
        None
    }
}

/// Whether the ids are dense: chunk `i` has id `i + 1`.
pub open spec fn dense(chunks: Seq<ChunkRecord>) -> bool {
    forall|i: int| 0 <= i < chunks.len() ==> (#[trigger] chunks[i]).id == i + 1
}

/// Whether every chunk's ordinal is its id minus one.
pub open spec fn ordinals_ok(chunks: Seq<ChunkRecord>) -> bool {
    forall|i: int| 0 <= i < chunks.len() ==> (#[trigger] chunks[i]).ordinal + 1 == chunks[i].id
}

/// Whether `id` has been visited.
pub open spec fn is_marked(marks: Seq<bool>, id: u32) -> bool {
    id < marks.len() && marks[id as int]
}

/// The number of visited ids.
pub open spec fn count_marked(marks: Seq<bool>) -> nat
    decreases marks.len(),
{
    if marks.len() == 0 {
        0
    } else {
        count_marked(marks.drop_last()) + if marks.last() { 1nat } else { 0nat }
    }
}

/// The shape the walk keeps its marks in: one slot per id `0..=n`, slot 0
/// never set.
pub open spec fn marks_ok(chunks: Seq<ChunkRecord>, marks: Seq<bool>) -> bool {
    marks.len() == chunks.len() + 1 && !marks[0]
}

pub proof fn lemma_count_marked_bound(marks: Seq<bool>)
    ensures
        count_marked(marks) <= marks.len(),
        marks.len() > 0 && !marks[0] ==> count_marked(marks) < marks.len(),
    decreases marks.len(),
{
    if marks.len() > 0 {
        lemma_count_marked_bound(marks.drop_last());
        if marks.len() == 1 {
            assert(marks.drop_last().len() == 0);
        } else {
            assert(marks.drop_last()[0] == marks[0]);
        }
    }
}

pub proof fn lemma_count_marked_set(marks: Seq<bool>, i: int)
    requires
        0 <= i < marks.len(),
        !marks[i],
    ensures
        count_marked(marks.update(i, true)) == count_marked(marks) + 1,
    decreases marks.len(),
{
    let m2 = marks.update(i, true);
    if i == marks.len() - 1 {
        assert(m2.drop_last() =~= marks.drop_last());
    } else {
        lemma_count_marked_set(marks.drop_last(), i);
        assert(m2.drop_last() =~= marks.drop_last().update(i, true));
    }
}

pub proof fn lemma_count_marked_none(n: nat)
    ensures
        count_marked(no_marks(n)) == 0,
    decreases n,
{
    if n > 0 {
        lemma_count_marked_none((n - 1) as nat);
        assert(no_marks(n).drop_last() =~= no_marks((n - 1) as nat));
        assert(!no_marks(n).last());
    } else {
        assert(no_marks(0).drop_last() =~= Seq::<bool>::empty());
        assert(count_marked(Seq::<bool>::empty()) == 0);
        assert(!no_marks(0).last());
    }
}

/// Whether a chunk's depth is its parent's depth plus one (a missing
/// parent counts as depth `-1`).
pub open spec fn depth_ok(chunks: Seq<ChunkRecord>, c: ChunkRecord) -> bool {
    let parent_depth: int = match chunk_at(chunks, c.parent_id) {
        Some(p) => p.depth as int,
        None => -1,
    };
    c.depth as int == parent_depth + 1
}

/// Walking the sibling ring of `parent` from `child` with `acc` walked so
/// far: every child must be unvisited, present, and name `parent` as its
/// parent; the walk ends at `last_child` and may not run longer than there
/// are chunks.
pub open spec fn ring_spec(
    chunks: Seq<ChunkRecord>,
    marks: Seq<bool>,
    parent: ChunkRecord,
    child: u32,
    acc: Seq<u32>,
) -> Result<Seq<u32>, DocumentErrorKind>
    decreases chunks.len() + 1 - acc.len(),
    when acc.len() <= chunks.len() + 1
{
    if child == 0 {
        if acc.len() > 0 && acc.last() != parent.last_child_id {
            Err(DocumentErrorKind::InvalidChunkGraph)
        } else if acc.len() == 0 && parent.last_child_id != 0 {
            Err(DocumentErrorKind::InvalidChunkGraph)
        } else {
            Ok(acc)
        }
    } else if is_marked(marks, child) {
        Err(DocumentErrorKind::InvalidChunkGraph)
    } else {
        match chunk_at(chunks, child) {
            None => Err(DocumentErrorKind::DanglingReference),
            Some(cc) => if cc.parent_id != parent.id {
                Err(DocumentErrorKind::InvalidChunkGraph)
            } else if acc.len() > chunks.len() {
                Err(DocumentErrorKind::InvalidChunkGraph)
            } else if child == parent.last_child_id {
                Ok(acc.push(child))
            } else {
                ring_spec(chunks, marks, parent, cc.next_id, acc.push(child))
            },
        }
    }
}

/// The depth-first walk from `stack`: the top id must be unvisited and
/// present; it is marked, its depth checked, its sibling ring walked, and
/// its children pushed in ring order. The outcome is the final marks.
pub open spec fn walk_spec(chunks: Seq<ChunkRecord>, stack: Seq<u32>, marks: Seq<bool>) -> Result<Seq<bool>, DocumentErrorKind>
    decreases chunks.len() + 1 - count_marked(marks),
    when marks_ok(chunks, marks)
{
    if stack.len() == 0 {
        Ok(marks)
    } else {
        let id = stack.last();
        if is_marked(marks, id) {
            Err(DocumentErrorKind::InvalidChunkGraph)
        } else {
            match chunk_at(chunks, id) {
                None => Err(DocumentErrorKind::InvalidChunkGraph),
                Some(c) => {
                    let marks2 = marks.update(id as int, true);
                    if c.id != 1 && !depth_ok(chunks, c) {
                        Err(DocumentErrorKind::InvalidChunkGraph)
                    } else {
                        match ring_spec(chunks, marks2, c, c.first_child_id, Seq::empty()) {
                            Err(k) => Err(k),
                            Ok(children) => {
                                proof {
                                    lemma_count_marked_set(marks, id as int);
                                    lemma_count_marked_bound(marks2);
                                }
                                walk_spec(chunks, stack.drop_last() + children, marks2)
                            },
                        }
                    }
                },
            }
        }
    }
}

/// No id visited yet.
pub open spec fn no_marks(n: nat) -> Seq<bool> {
    Seq::new(n + 1, |i: int| false)
}

/// The outcome of validating the chunk graph: non-empty, ordinals match
/// ids, chunk 1 is a `Document` root at depth 0 without a parent, and the
/// walk from the root succeeds and visits every chunk.
pub open spec fn graph_spec(chunks: Seq<ChunkRecord>) -> Result<(), DocumentErrorKind> {
    if chunks.len() == 0 {
        Err(DocumentErrorKind::InvalidChunkGraph)
    } else if !ordinals_ok(chunks) {
        Err(DocumentErrorKind::InvalidChunkGraph)
    } else if chunks[0].kind != ChunkKind::Document {
        Err(DocumentErrorKind::InvalidChunkGraph)
    } else if chunks[0].depth != 0 || chunks[0].parent_id != 0 {
        Err(DocumentErrorKind::InvalidChunkGraph)
    } else {
        match walk_spec(chunks, seq![1u32], no_marks(chunks.len())) {
            Err(k) => Err(k),
            Ok(marks) => if count_marked(marks) != chunks.len() {
                Err(DocumentErrorKind::InvalidChunkGraph)
            } else {
                Ok(())
            },
        }
    }
}

fn graph_error(kind: DocumentErrorKind, message: &str) -> (r: DocumentError)
    ensures
        r.kind == kind,
{
    DocumentError::new(kind, crate::text::to_owned_string(message))
}

/// Walk the sibling ring of `chunk`, pushing each child onto `stack`.
fn walk_ring(chunks: &[ChunkRecord], marks: &Vec<bool>, chunk: &ChunkRecord, stack: &mut Vec<u32>) -> (r: Result<(), DocumentError>)
    requires
        dense(chunks@),
        marks_ok(chunks@, marks@),
    ensures
        match ring_spec(chunks@, marks@, *chunk, chunk.first_child_id, Seq::empty()) {
            Ok(children) => r is Ok && final(stack)@ == old(stack)@ + children,
            Err(k) => r matches Err(e) && e.kind == k,
        },
{
    let n = chunks.len();
    let ghost base = stack@;
    let mut child = chunk.first_child_id;
    let mut count: usize = 0;
    let mut last_seen: u32 = 0;
    assert(stack@ =~= base + Seq::<u32>::empty());
    assert(stack@.subrange(base.len() as int, stack@.len() as int) =~= Seq::<u32>::empty());
    assert(stack@.subrange(0, base.len() as int) =~= base);
    while child != 0
        invariant_except_break
            n == chunks@.len(),
            dense(chunks@),
            marks_ok(chunks@, marks@),
            count <= n + 1,
            stack@.len() == base.len() + count,
            ring_spec(chunks@, marks@, *chunk, chunk.first_child_id, Seq::empty()) == ring_spec(
                chunks@,
                marks@,
                *chunk,
                child,
                stack@.subrange(base.len() as int, stack@.len() as int),
            ),
            stack@.subrange(0, base.len() as int) == base,
            count > 0 ==> last_seen == stack@.last(),
        ensures
            n == chunks@.len(),
            count <= n + 1,
            stack@.len() == base.len() + count,
            stack@.subrange(0, base.len() as int) == base,
            count > 0 ==> last_seen == stack@.last(),
            child == 0 ==> ring_spec(chunks@, marks@, *chunk, chunk.first_child_id, Seq::empty()) == ring_spec(
                chunks@,
                marks@,
                *chunk,
                0,
                stack@.subrange(base.len() as int, stack@.len() as int),
            ),
            child != 0 ==> count > 0 && last_seen == chunk.last_child_id && ring_spec(
                chunks@,
                marks@,
                *chunk,
                chunk.first_child_id,
                Seq::empty(),
            ) == Ok::<Seq<u32>, DocumentErrorKind>(stack@.subrange(base.len() as int, stack@.len() as int)),
        decreases n + 1 - count,
    {
        let ghost acc = stack@.subrange(base.len() as int, stack@.len() as int);
        if (child as usize) < marks.len() && marks[child as usize] {
            return Err(graph_error(DocumentErrorKind::InvalidChunkGraph, "child visited twice"));
        }
        if child as usize > n {
            return Err(graph_error(DocumentErrorKind::DanglingReference, "child missing"));
        }
        let child_chunk = &chunks[(child - 1) as usize];
        if child_chunk.parent_id != chunk.id {
            return Err(graph_error(DocumentErrorKind::InvalidChunkGraph, "child names another parent"));
        }
        if count > n {
            return Err(graph_error(DocumentErrorKind::InvalidChunkGraph, "sibling ring does not terminate"));
        }
        last_seen = child;
        stack.push(child);
        count = count + 1;
        proof {
            assert(stack@.subrange(base.len() as int, stack@.len() as int) =~= acc.push(child));
            assert(stack@.subrange(0, base.len() as int) =~= base);
        }
        if child == chunk.last_child_id {
            break;
        }
        child = child_chunk.next_id;
    }
    if count > 0 && last_seen != chunk.last_child_id {
        return Err(graph_error(DocumentErrorKind::InvalidChunkGraph, "next-chain does not reach last_child"));
    }
    if count == 0 && chunk.last_child_id != 0 {
        return Err(graph_error(DocumentErrorKind::InvalidChunkGraph, "last_child set but no first_child"));
    }
    assert(stack@ =~= base + stack@.subrange(base.len() as int, stack@.len() as int));
    Ok(())
}

/// Validate the chunk graph's structure.
pub fn validate_graph(chunks: &[ChunkRecord]) -> (r: Result<(), DocumentError>)
    requires
        dense(chunks@),
    ensures
        match graph_spec(chunks@) {
            Ok(()) => r is Ok,
            Err(k) => r matches Err(e) && e.kind == k,
        },
{
    let n = chunks.len();
    if n == 0 {
        return Err(graph_error(DocumentErrorKind::InvalidChunkGraph, "chunk graph is empty"));
    }
    let mut i: usize = 0;
    while i < n
        invariant
            n == chunks@.len(),
            i <= n,
            forall|j: int| 0 <= j < i ==> (#[trigger] chunks@[j]).ordinal + 1 == chunks@[j].id,
        decreases n - i,
    {
        let chunk = &chunks[i];
        if chunk.ordinal == u32::MAX || chunk.id != chunk.ordinal + 1 {
            return Err(graph_error(DocumentErrorKind::InvalidChunkGraph, "chunk id does not match its ordinal"));
        }
        i = i + 1;
    }
    let root = &chunks[0];
    if root.kind != ChunkKind::Document {
        return Err(graph_error(DocumentErrorKind::InvalidChunkGraph, "chunk 1 must be the document root"));
    }
    if root.depth != 0 || root.parent_id != 0 {
        return Err(graph_error(DocumentErrorKind::InvalidChunkGraph, "root must have depth 0 and parent 0"));
    }
    let mut marks: Vec<bool> = vec![false];
    let mut k: usize = 0;
    assert(marks@ =~= Seq::new(1nat, |x: int| false));
    while k < n
        invariant
            n == chunks@.len(),
            k <= n,
            marks@ == Seq::new((k + 1) as nat, |x: int| false),
        decreases n - k,
    {
        marks.push(false);
        assert(marks@ =~= Seq::new((k + 2) as nat, |x: int| false));
        k = k + 1;
    }
    assert(marks@ =~= no_marks(n as nat));
    proof {
        lemma_count_marked_none(n as nat);
    }
    let mut visited: usize = 0;
    let mut stack: Vec<u32> = vec![1u32];
    loop
        invariant_except_break
            n == chunks@.len(),
            dense(chunks@),
            n > 0,
            ordinals_ok(chunks@),
            chunks@[0].kind == ChunkKind::Document,
            chunks@[0].depth == 0 && chunks@[0].parent_id == 0,
            marks_ok(chunks@, marks@),
            visited == count_marked(marks@),
            visited <= n,
            walk_spec(chunks@, seq![1u32], no_marks(n as nat)) == walk_spec(chunks@, stack@, marks@),
        ensures
            n == chunks@.len(),
            n > 0,
            ordinals_ok(chunks@),
            chunks@[0].kind == ChunkKind::Document,
            chunks@[0].depth == 0 && chunks@[0].parent_id == 0,
            visited == count_marked(marks@),
            walk_spec(chunks@, seq![1u32], no_marks(n as nat)) == Ok::<Seq<bool>, DocumentErrorKind>(marks@),
        decreases n + 1 - visited,
    {
        let id = match stack.pop() {
            Some(id) => id,
            None => {
                break;
            },
        };
        let ghost before = marks@;
        if (id as usize) < marks.len() && marks[id as usize] {
            return Err(graph_error(DocumentErrorKind::InvalidChunkGraph, "cycle or duplicate visit"));
        }
        if id == 0 || id as usize > n {
            return Err(graph_error(DocumentErrorKind::InvalidChunkGraph, "chunk missing"));
        }
        marks.set(id as usize, true);
        let chunk = &chunks[(id - 1) as usize];
        proof {
            lemma_count_marked_set(before, id as int);
            lemma_count_marked_bound(marks@);
        }
        visited = visited + 1;
        if chunk.id != 1 {
            let parent_depth: i64 = if 1 <= chunk.parent_id && chunk.parent_id as usize <= n {
                chunks[(chunk.parent_id - 1) as usize].depth as i64
            } else {
                -1
            };
            if chunk.depth as i64 != parent_depth + 1 {
                return Err(graph_error(DocumentErrorKind::InvalidChunkGraph, "depth is not the parent's depth + 1"));
            }
        }
        walk_ring(chunks, &marks, chunk, &mut stack)?;
    }
    if visited != n {
        return Err(graph_error(DocumentErrorKind::InvalidChunkGraph, "some chunks are unreachable from the root"));
    }
    Ok(())
}

} // verus!
