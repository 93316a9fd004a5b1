//! The scheduler's deterministic binary min-heap over (key, ordinal).

use vstd::prelude::*;
use vstd::multiset::Multiset;

verus! {

broadcast use {vstd::seq_lib::group_to_multiset_ensures, vstd::multiset::group_multiset_axioms};

/// One queued chunk: ordered by its priority key, then by document order.
#[derive(Debug, Clone, Copy, PartialEq, Eq, Structural)]
pub struct QueueItem {
    /// The queued chunk.
    pub chunk_id: u32,
    /// The deterministic priority: lower runs first.
    pub key: u128,
    /// The document-order tie-break.
    pub ordinal: u32,
}

/// `a` runs before `b`: a strictly lower key, or an equal key and a lower
/// ordinal.
pub open spec fn precedes(a: QueueItem, b: QueueItem) -> bool {
    a.key < b.key || (a.key == b.key && a.ordinal < b.ordinal)
}

/// The heap slot above slot `i`.
pub open spec fn parent(i: int) -> int {
    (i - 1) / 2
}

/// No slot runs before its parent.
pub open spec fn heap_ok(s: Seq<QueueItem>) -> bool {
    forall|i: int| 0 < i < s.len() ==> !precedes(#[trigger] s[i], s[parent(i)])
}

/// The heap order holds everywhere but between slot `i` and its parent, and
/// `i`'s parent does not run after `i`'s children.
pub open spec fn up_inv(s: Seq<QueueItem>, i: int) -> bool {
    &&& 0 <= i < s.len()
    &&& forall|j: int| 0 < j < s.len() && j != i ==> !precedes(#[trigger] s[j], s[parent(j)])
    &&& i > 0 ==> forall|j: int| 0 < j < s.len() && parent(j) == i ==> !precedes(#[trigger] s[j], s[parent(i)])
}

/// The heap order holds everywhere but between slot `i` and its children,
/// and `i`'s parent does not run after `i`'s children.
pub open spec fn down_inv(s: Seq<QueueItem>, i: int) -> bool {
    &&& 0 <= i < s.len()
    &&& forall|j: int| 0 < j < s.len() && parent(j) != i ==> !precedes(#[trigger] s[j], s[parent(j)])
    &&& i > 0 ==> forall|j: int| 0 < j < s.len() && parent(j) == i ==> !precedes(#[trigger] s[j], s[parent(i)])
}

/// `s` with slots `i` and `j` exchanged.
pub open spec fn swapped(s: Seq<QueueItem>, i: int, j: int) -> Seq<QueueItem> {
    s.update(i, s[j]).update(j, s[i])
}

proof fn lemma_swap_multiset(s: Seq<QueueItem>, i: int, j: int)
    requires
        0 <= i < s.len(),
        0 <= j < s.len(),
    ensures
        swapped(s, i, j).to_multiset() =~= s.to_multiset(),
{
    let s1 = s.update(i, s[j]);
    assert(s1.to_multiset() == s.to_multiset().insert(s[j]).remove(s[i]));
    assert(s1.update(j, s[i]).to_multiset() == s1.to_multiset().insert(s[i]).remove(s1[j]));
    assert(s.to_multiset().contains(s[i]));
    assert(s.to_multiset().contains(s[j]));
}

proof fn lemma_drop_last_multiset(s: Seq<QueueItem>)
    requires
        s.len() > 0,
    ensures
        s.drop_last().to_multiset() =~= s.to_multiset().remove(s.last()),
{
    assert(s.drop_last().push(s.last()) =~= s);
    assert(s.drop_last().push(s.last()).to_multiset() =~= s.drop_last().to_multiset().insert(s.last()));
}

/// In a heap no slot runs before the root.
proof fn lemma_root_first(s: Seq<QueueItem>, i: int)
    requires
        heap_ok(s),
        0 <= i < s.len(),
    ensures
        !precedes(s[i], s[0]),
    decreases i,
{
    if i > 0 {
        lemma_root_first(s, parent(i));
    }
}

/// A heap satisfies the sift-down invariant at every slot.
proof fn lemma_heap_down_inv(s: Seq<QueueItem>, i: int)
    requires
        heap_ok(s),
        0 <= i < s.len(),
    ensures
        down_inv(s, i),
{
    if i > 0 {
        assert forall|j: int| 0 < j < s.len() && parent(j) == i implies !precedes(#[trigger] s[j], s[parent(i)]) by {
            assert(!precedes(s[j], s[i]));
            assert(!precedes(s[i], s[parent(i)]));
        }
    }
}

/// Moving the last slot of a heap into slot `idx`, where it runs before its
/// parent, leaves only the edge above `idx` out of order.
proof fn lemma_replaced_up(s: Seq<QueueItem>, u: Seq<QueueItem>, idx: int)
    requires
        heap_ok(s),
        0 < idx < u.len(),
        u.len() + 1 == s.len(),
        u == s.drop_last().update(idx, s.last()),
        precedes(u[idx], u[parent(idx)]),
    ensures
        up_inv(u, idx),
{
    let p = parent(idx);
    assert(!precedes(s[idx], s[p]));
    assert(u[p] == s[p]);
    assert forall|j: int| 0 < j < u.len() && j != idx implies !precedes(#[trigger] u[j], u[parent(j)]) by {
        if parent(j) == idx {
            assert(u[j] == s[j]);
            assert(!precedes(s[j], s[idx]));
        } else {
            assert(u[j] == s[j]);
            assert(u[parent(j)] == s[parent(j)]);
        }
    }
    assert forall|j: int| 0 < j < u.len() && parent(j) == idx implies !precedes(#[trigger] u[j], u[parent(idx)]) by {
        assert(!precedes(s[j], s[idx]));
    }
}

/// Moving the last slot of a heap into slot `idx`, where it does not run
/// before its parent, leaves only the edges below `idx` out of order.
proof fn lemma_replaced_down(s: Seq<QueueItem>, u: Seq<QueueItem>, idx: int)
    requires
        heap_ok(s),
        0 <= idx < u.len(),
        u.len() + 1 == s.len(),
        u == s.drop_last().update(idx, s.last()),
        idx > 0 ==> !precedes(u[idx], u[parent(idx)]),
    ensures
        down_inv(u, idx),
{
    assert forall|j: int| 0 < j < u.len() && parent(j) != idx implies !precedes(#[trigger] u[j], u[parent(j)]) by {
        if j != idx {
            assert(u[j] == s[j]);
            assert(u[parent(j)] == s[parent(j)]);
        }
    }
    if idx > 0 {
        let p = parent(idx);
        assert(!precedes(s[idx], s[p]));
        assert forall|j: int| 0 < j < u.len() && parent(j) == idx implies !precedes(#[trigger] u[j], u[parent(idx)]) by {
            assert(!precedes(s[j], s[idx]));
        }
    }
}

/// The queue: a binary min-heap stored in a vector.
#[derive(Debug)]
pub struct PriorityQueue {
    items: Vec<QueueItem>,
}

impl View for PriorityQueue {
    type V = Seq<QueueItem>;

    closed spec fn view(&self) -> Seq<QueueItem> {
        self.items@
    }
}

impl PriorityQueue {
    /// An empty queue.
    pub fn new() -> (r: Self)
        ensures
            r@ == Seq::<QueueItem>::empty(),
    {
        PriorityQueue { items: Vec::new() }
    }

    /// The number of queued items.
    pub fn size(&self) -> (r: usize)
        ensures
            r == self@.len(),
    {
        self.items.len()
    }

    fn less(a: &QueueItem, b: &QueueItem) -> (r: bool)
        ensures
            r == precedes(*a, *b),
    {
        a.key < b.key || (a.key == b.key && a.ordinal < b.ordinal)
    }

    fn swap(&mut self, i: usize, j: usize)
        requires
            i < old(self)@.len(),
            j < old(self)@.len(),
        ensures
            final(self)@ == swapped(old(self)@, i as int, j as int),
            final(self)@.to_multiset() == old(self)@.to_multiset(),
    {
        proof {
            lemma_swap_multiset(self@, i as int, j as int);
        }
        let a = self.items[i];
        let b = self.items[j];
        self.items.set(i, b);
        self.items.set(j, a);
    }

    /// Move slot `start` up until its parent does not run after it.
    fn sift_up(&mut self, start: usize) -> (r: usize)
        requires
            up_inv(old(self)@, start as int),
        ensures
            heap_ok(final(self)@),
            final(self)@.to_multiset() == old(self)@.to_multiset(),
            final(self)@.len() == old(self)@.len(),
            r < final(self)@.len(),
    {
        let mut i = start;
        while i > 0 && Self::less(&self.items[i], &self.items[(i - 1) / 2])
            invariant
                up_inv(self@, i as int),
                self@.to_multiset() == old(self)@.to_multiset(),
                self@.len() == old(self)@.len(),
            decreases i,
        {
            let p = (i - 1) / 2;
            let ghost s = self@;
            self.swap(i, p);
            proof {
                let t = self@;
                assert(t[p as int] == s[i as int]);
                assert(t[i as int] == s[p as int]);
                assert forall|j: int| 0 < j < t.len() && j != p implies !precedes(#[trigger] t[j], t[parent(j)]) by {
                    if j == i as int {
                    } else if parent(j) == i as int {
                        assert(!precedes(s[j], s[parent(i as int)]));
                    } else if parent(j) == p as int {
                        assert(!precedes(s[j], s[p as int]));
                    } else {
                        assert(t[j] == s[j]);
                        assert(!precedes(s[j], s[parent(j)]));
                    }
                }
                if p > 0 {
                    assert forall|j: int| 0 < j < t.len() && parent(j) == p as int implies !precedes(#[trigger] t[j], t[parent(p as int)]) by {
                        assert(!precedes(s[p as int], s[parent(p as int)]));
                        if j == i as int {
                        } else {
                            assert(!precedes(s[j], s[p as int]));
                        }
                    }
                }
            }
            i = p;
        }
        proof {
            assert forall|j: int| 0 < j < self@.len() implies !precedes(#[trigger] self@[j], self@[parent(j)]) by {
                if j == i as int {
                }
            }
        }
        i
    }

    /// Move slot `start` down until no child runs before it.
    fn sift_down(&mut self, start: usize)
        requires
            down_inv(old(self)@, start as int),
        ensures
            heap_ok(final(self)@),
            final(self)@.to_multiset() == old(self)@.to_multiset(),
            final(self)@.len() == old(self)@.len(),
    {
        let mut i = start;
        let n = self.items.len();
        loop
            invariant_except_break
                down_inv(self@, i as int),
                self@.to_multiset() == old(self)@.to_multiset(),
                self@.len() == n,
                n == old(self)@.len(),
            ensures
                heap_ok(self@),
                self@.to_multiset() == old(self)@.to_multiset(),
                self@.len() == n,
            decreases n - i,
        {
            let ghost s = self@;
            let mut smallest = i;
            if i < n / 2 {
                let left = 2 * i + 1;
                if Self::less(&self.items[left], &self.items[smallest]) {
                    smallest = left;
                }
                if i < (n - 1) / 2 {
                    let right = left + 1;
                    if Self::less(&self.items[right], &self.items[smallest]) {
                        smallest = right;
                    }
                }
            }
            proof {
                assert(smallest == i || smallest == 2 * i + 1 || smallest == 2 * i + 2);
                assert(smallest != i ==> precedes(s[smallest as int], s[i as int]));
                assert forall|c: int| 0 < c < n && parent(c) == i as int implies !precedes(#[trigger] s[c], s[smallest as int]) by {
                    assert(c == 2 * i + 1 || c == 2 * i + 2);
                }
            }
            if smallest == i {
                proof {
                    assert forall|j: int| 0 < j < self@.len() implies !precedes(#[trigger] self@[j], self@[parent(j)]) by {
                        if parent(j) == i as int {
                            assert(!precedes(s[j], s[smallest as int]));
                        }
                    }
                }
                break;
            }
            self.swap(i, smallest);
            proof {
                let t = self@;
                let m = smallest as int;
                let ii = i as int;
                assert(t[m] == s[ii]);
                assert(t[ii] == s[m]);
                assert(parent(m) == ii);
                assert forall|j: int| 0 < j < t.len() && parent(j) != m implies !precedes(#[trigger] t[j], t[parent(j)]) by {
                    if j == m {
                    } else if parent(j) == ii {
                        assert(!precedes(s[j], s[m]));
                    } else if j == ii {
                        assert(!precedes(s[m], s[parent(ii)]));
                    } else {
                        assert(t[j] == s[j]);
                        assert(!precedes(s[j], s[parent(j)]));
                    }
                }
                assert forall|j: int| 0 < j < t.len() && parent(j) == m implies !precedes(#[trigger] t[j], t[parent(m)]) by {
                    assert(!precedes(s[j], s[m]));
                }
            }
            i = smallest;
        }
    }

    /// Add an item.
    pub fn push(&mut self, item: QueueItem)
        requires
            heap_ok(old(self)@),
        ensures
            heap_ok(final(self)@),
            final(self)@.to_multiset() == old(self)@.to_multiset().insert(item),
            final(self)@.len() == old(self)@.len() + 1,
    {
        self.items.push(item);
        let i = self.items.len() - 1;
        proof {
            assert(self@ =~= old(self)@.push(item));
            assert(up_inv(self@, i as int));
        }
        self.sift_up(i);
    }

    /// Take the item that runs first, or `None` when empty.
    pub fn pop(&mut self) -> (r: Option<QueueItem>)
        requires
            heap_ok(old(self)@),
        ensures
            heap_ok(final(self)@),
            match r {
                None => old(self)@.len() == 0 && final(self)@ == old(self)@,
                Some(top) => {
                    &&& old(self)@.to_multiset().contains(top)
                    &&& final(self)@.to_multiset() == old(self)@.to_multiset().remove(top)
                    &&& final(self)@.len() + 1 == old(self)@.len()
                    &&& forall|x: QueueItem| old(self)@.to_multiset().contains(x) ==> !precedes(x, top)
                },
            },
    {
        if self.items.len() == 0 {
            return None;
        }
        let top = self.items[0];
        proof {
            let s = self@;
            assert forall|x: QueueItem| s.to_multiset().contains(x) implies !precedes(x, top) by {
                assert(s.contains(x));
                let k = choose|k: int| 0 <= k < s.len() && s[k] == x;
                lemma_root_first(s, k);
            }
            lemma_drop_last_multiset(s);
        }
        let last = self.items.pop().unwrap();
        if self.items.len() > 0 {
            let ghost d = self@;
            self.items.set(0, last);
            proof {
                let s = old(self)@;
                assert(d =~= s.drop_last());
                assert(self@.to_multiset() == d.to_multiset().insert(last).remove(d[0]));
                assert(self@.to_multiset() =~= s.to_multiset().remove(top));
                assert forall|j: int| 0 < j < self@.len() && parent(j) != 0 implies !precedes(#[trigger] self@[j], self@[parent(j)]) by {
                    assert(self@[j] == s[j]);
                    assert(self@[parent(j)] == s[parent(j)]);
                }
            }
            self.sift_down(0);
        } else {
            proof {
                assert(self@.to_multiset() =~= old(self)@.to_multiset().remove(top));
            }
        }
        Some(top)
    }

    /// Remove the first item (in slot order) of a chunk, if any.
    pub fn remove(&mut self, chunk_id: u32)
        requires
            heap_ok(old(self)@),
        ensures
            heap_ok(final(self)@),
            (forall|k: int| 0 <= k < old(self)@.len() ==> old(self)@[k].chunk_id != chunk_id) ==> final(self)@
                == old(self)@,
            (exists|k: int| 0 <= k < old(self)@.len() && old(self)@[k].chunk_id == chunk_id) ==> exists|t: QueueItem|
                {
                    &&& old(self)@.to_multiset().contains(t)
                    &&& t.chunk_id == chunk_id
                    &&& final(self)@.to_multiset() == old(self)@.to_multiset().remove(t)
                    &&& final(self)@.len() + 1 == old(self)@.len()
                },
    {
        let n = self.items.len();
        let mut idx: usize = 0;
        while idx < n && self.items[idx].chunk_id != chunk_id
            invariant
                n == self@.len(),
                self@ == old(self)@,
                idx <= n,
                forall|k: int| 0 <= k < idx ==> self@[k].chunk_id != chunk_id,
            decreases n - idx,
        {
            idx = idx + 1;
        }
        if idx == n {
            return;
        }
        let ghost s = self@;
        let ghost t = s[idx as int];
        proof {
            lemma_drop_last_multiset(s);
            assert(s.to_multiset().contains(t));
        }
        let last = self.items.pop().unwrap();
        if idx < self.items.len() {
            let ghost d = self@;
            self.items.set(idx, last);
            proof {
                assert(d =~= s.drop_last());
                assert(self@.to_multiset() == d.to_multiset().insert(last).remove(d[idx as int]));
                assert(self@.to_multiset() =~= s.to_multiset().remove(t));
            }
            let mut i = idx;
            if i > 0 && Self::less(&self.items[i], &self.items[(i - 1) / 2]) {
                proof {
                    lemma_replaced_up(s, self@, idx as int);
                }
                i = self.sift_up(i);
                proof {
                    lemma_heap_down_inv(self@, i as int);
                }
            } else {
                proof {
                    lemma_replaced_down(s, self@, idx as int);
                }
            }
            self.sift_down(i);
        } else {
            proof {
                assert(self@ =~= s.drop_last());
                assert(t == s.last());
            }
        }
    }
}

} // verus!
