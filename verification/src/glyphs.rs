//! The glyph cache: prepared glyph stamps, budgeted in bytes, evicted least
//! recently used first, and owned by chunks.
//!
//! A stamp is cached per (atlas, codepoint, font size, color) key — the
//! font size by its bit pattern, so keys order deterministically. Every
//! `get` / `put` takes the next value of a monotonic touch counter, so the
//! least recently used stamp is the one with the smallest counter. Chunks
//! own their stamps: `release_chunk` drops every stamp whose last owner is
//! the released chunk; stamps shared with live chunks survive.
//!
//! The stamp itself (quad, UV rect, metrics) is prepared from floating-point
//! atlas metrics by the platform layer; the cache holds it opaquely, with
//! the byte size the budget charges for it.

use vstd::prelude::*;
use std::collections::{BTreeMap, BTreeSet};
use vstd::std_specs::btree::increasing_seq;
use vstd::std_specs::iter::IteratorSpec;

verus! {

broadcast use vstd::std_specs::btree::group_btree_axioms;

/// The fixed per-stamp overhead the byte budget accounts for.
pub const STAMP_OVERHEAD: u64 = 128;

/// The stamp payload estimate (quad + key + metrics).
pub const STAMP_PAYLOAD: u64 = 64;

/// The cache key: atlas id, codepoint, font size bits, color.
pub type CacheKey = (u32, u32, u32, u32);

/// A cached stamp, the bytes it is charged, and its last touch.
#[derive(Debug, Clone, Copy)]
pub struct CachedStamp<S> {
    /// The prepared stamp.
    pub stamp: S,
    /// The bytes the budget charges for it.
    pub size_bytes: u64,
    /// The touch counter value of its last `get` / `put`.
    pub tick: u64,
}

/// The mathematical value of a [`GlyphCache`].
pub struct GlyphCacheView<S> {
    pub budget_bytes: u64,
    pub bytes: u64,
    pub next_tick: u64,
    pub stamps: Map<CacheKey, CachedStamp<S>>,
    pub owners: Map<CacheKey, Set<u32>>,
}

/// The cache's standing invariant: exactly the cached keys have owners,
/// and every touch lies before the next counter value.
pub open spec fn cache_inv<S>(v: GlyphCacheView<S>) -> bool {
    &&& v.stamps.dom().finite()
    &&& forall|k: CacheKey| #[trigger] v.owners.contains_key(k) <==> v.stamps.contains_key(k)
    &&& forall|k: CacheKey| #[trigger] v.stamps.contains_key(k) ==> v.stamps[k].tick < v.next_tick
}

/// Keys in lexicographic order.
pub open spec fn key_lt(a: CacheKey, b: CacheKey) -> bool {
    a.0 < b.0 || (a.0 == b.0 && (a.1 < b.1 || (a.1 == b.1 && (a.2 < b.2 || (a.2 == b.2 && a.3 < b.3)))))
}

/// Recency entries (touch, key) in lexicographic order.
pub open spec fn recency_lt(a: (u64, CacheKey), b: (u64, CacheKey)) -> bool {
    a.0 < b.0 || (a.0 == b.0 && key_lt(a.1, b.1))
}

/// The least recently used key: the smallest (touch, key).
pub open spec fn lru_key<S>(stamps: Map<CacheKey, CachedStamp<S>>) -> CacheKey {
    choose|k: CacheKey| stamps.contains_key(k) && forall|j: CacheKey| #[trigger] stamps.contains_key(j) ==> !recency_lt(
        (stamps[j].tick, j),
        (stamps[k].tick, k),
    )
}

/// `a - b`, or 0 when `b > a`.
pub open spec fn sat_sub(a: u64, b: u64) -> u64 {
    if a >= b {
        (a - b) as u64
    } else {
        0
    }
}

/// `a + b`, saturating.
pub open spec fn sat_add(a: u64, b: u64) -> u64 {
    if a + b > u64::MAX {
        u64::MAX
    } else {
        (a + b) as u64
    }
}

/// Evicting least recently used stamps until the budget is satisfied or
/// nothing is left.
pub open spec fn evict_spec<S>(v: GlyphCacheView<S>) -> GlyphCacheView<S>
    decreases v.stamps.dom().len(),
    when v.stamps.dom().finite()
{
    if v.bytes <= v.budget_bytes || v.stamps.dom().len() == 0 {
        v
    } else {
        let k = lru_key(v.stamps);
        if !v.stamps.contains_key(k) {
            v
        } else {
            evict_spec(
                GlyphCacheView {
                    stamps: v.stamps.remove(k),
                    owners: v.owners.remove(k),
                    bytes: sat_sub(v.bytes, v.stamps[k].size_bytes),
                    ..v
                },
            )
        }
    }
}

/// Whether `c` is the only owner in `s`.
pub open spec fn only_owner(s: Set<u32>, c: u32) -> bool {
    forall|x: u32| #[trigger] s.contains(x) ==> x == c
}

/// The byte counter after releasing the stamps of `ks`, in order.
pub open spec fn drain<S>(bytes: u64, stamps: Map<CacheKey, CachedStamp<S>>, ks: Seq<CacheKey>) -> u64
    decreases ks.len(),
{
    if ks.len() == 0 {
        bytes
    } else {
        sat_sub(drain(bytes, stamps, ks.drop_last()), stamps[ks.last()].size_bytes)
    }
}

/// The bytes the stamps of `ks` were charged (saturating).
pub open spec fn freed_of<S>(stamps: Map<CacheKey, CachedStamp<S>>, ks: Seq<CacheKey>) -> u64
    decreases ks.len(),
{
    if ks.len() == 0 {
        0
    } else {
        sat_add(freed_of(stamps, ks.drop_last()), stamps[ks.last()].size_bytes)
    }
}

/// The cache after chunk `c` gives up its stamps: it leaves every owner
/// set, and the stamps of `ks` (those it owned alone) are dropped.
pub open spec fn release_view<S>(v: GlyphCacheView<S>, c: u32, ks: Seq<CacheKey>) -> GlyphCacheView<S> {
    GlyphCacheView {
        stamps: Map::new(|k: CacheKey| v.stamps.contains_key(k) && !ks.contains(k), |k: CacheKey| v.stamps[k]),
        owners: Map::new(|k: CacheKey| v.owners.contains_key(k) && !ks.contains(k), |k: CacheKey| v.owners[k].remove(c)),
        bytes: drain(v.bytes, v.stamps, ks),
        ..v
    }
}

/// Eviction stops only once the budget is met or nothing is left, and it
/// only ever drops stamps.
pub proof fn lemma_eviction_meets_budget<S>(v: GlyphCacheView<S>)
    requires
        v.stamps.dom().finite(),
    ensures
        evict_spec(v).bytes <= evict_spec(v).budget_bytes || evict_spec(v).stamps.dom().len() == 0,
        forall|k: CacheKey| #[trigger] evict_spec(v).stamps.contains_key(k) ==> v.stamps.contains_key(k)
            && evict_spec(v).stamps[k] == v.stamps[k],
    decreases v.stamps.dom().len(),
{
    if v.bytes <= v.budget_bytes || v.stamps.dom().len() == 0 {
    } else {
        let k = lru_key(v.stamps);
        if !v.stamps.contains_key(k) {
            assert(v.stamps.dom().len() != 0);
            let w = v.stamps.dom().choose();
            assert(v.stamps.contains_key(w));
            lemma_lru_exists(v.stamps);
        } else {
            let next = GlyphCacheView {
                stamps: v.stamps.remove(k),
                owners: v.owners.remove(k),
                bytes: sat_sub(v.bytes, v.stamps[k].size_bytes),
                ..v
            };
            lemma_eviction_meets_budget(next);
        }
    }
}

/// Whether `k` is a least recently used key of `stamps`.
pub open spec fn is_lru<S>(stamps: Map<CacheKey, CachedStamp<S>>, k: CacheKey) -> bool {
    stamps.contains_key(k) && forall|j: CacheKey| #[trigger] stamps.contains_key(j) ==> !recency_lt(
        (stamps[j].tick, j),
        (stamps[k].tick, k),
    )
}

/// A finite, non-empty stamp table has a least recently used key.
proof fn lemma_lru_exists<S>(stamps: Map<CacheKey, CachedStamp<S>>)
    requires
        stamps.dom().finite(),
        stamps.dom().len() > 0,
    ensures
        is_lru(stamps, lru_key(stamps)),
    decreases stamps.dom().len(),
{
    let w = stamps.dom().choose();
    assert(stamps.dom().contains(w));
    if stamps.dom().len() == 1 {
        assert forall|j: CacheKey| #[trigger] stamps.contains_key(j) implies !recency_lt((stamps[j].tick, j), (stamps[w].tick, w)) by {
            if j != w {
                assert(stamps.dom().remove(w).contains(j));
                assert(stamps.dom().remove(w).len() == 0);
            }
        }
        assert(is_lru(stamps, w));
    } else {
        let rest = stamps.remove(w);
        assert(rest.dom() =~= stamps.dom().remove(w));
        lemma_lru_exists(rest);
        let m = lru_key(rest);
        assert(is_lru(rest, m));
        if recency_lt((stamps[w].tick, w), (rest[m].tick, m)) {
            assert forall|j: CacheKey| #[trigger] stamps.contains_key(j) implies !recency_lt((stamps[j].tick, j), (stamps[w].tick, w)) by {
                if j != w {
                    assert(rest.contains_key(j));
                    assert(!recency_lt((rest[j].tick, j), (rest[m].tick, m)));
                }
            }
            assert(is_lru(stamps, w));
        } else {
            assert forall|j: CacheKey| #[trigger] stamps.contains_key(j) implies !recency_lt((stamps[j].tick, j), (stamps[m].tick, m)) by {
                if j != w {
                    assert(rest.contains_key(j));
                    assert(!recency_lt((rest[j].tick, j), (rest[m].tick, m)));
                }
            }
            assert(is_lru(stamps, m));
        }
    }
}

/// Releasing a chunk keeps every stamp that another chunk still owns, with
/// that owner.
pub proof fn lemma_shared_stamps_survive<S>(v: GlyphCacheView<S>, c: u32, ks: Seq<CacheKey>, k: CacheKey, other: u32)
    requires
        cache_inv(v),
        forall|j: CacheKey| ks.contains(j) <==> v.owners.contains_key(j) && only_owner(v.owners[j], c),
        v.owners.contains_key(k),
        v.owners[k].contains(other),
        other != c,
    ensures
        release_view(v, c, ks).stamps.contains_key(k),
        release_view(v, c, ks).stamps[k] == v.stamps[k],
        release_view(v, c, ks).owners[k].contains(other),
        !release_view(v, c, ks).owners[k].contains(c),
{
    assert(!only_owner(v.owners[k], c));
    assert(!ks.contains(k));
}

/// Remove and return the least recently used entry of a recency index.
///
/// Calls `BTreeMap::pop_first`, which std documents as removing and
/// returning the first (smallest-key) entry; tuples of integers order
/// lexicographically and numerically. The contract says the returned key
/// was in the map, is no larger than any other key in it, and is gone from
/// it afterwards; `None` only for an empty map.
#[verifier::external_body]
fn pop_oldest(order: &mut BTreeMap<(u64, CacheKey), ()>) -> (r: Option<(u64, CacheKey)>)
    ensures
        match r {
            None => old(order)@.dom().len() == 0 && final(order)@ == old(order)@,
            Some(p) => {
                &&& old(order)@.contains_key(p)
                &&& final(order)@ == old(order)@.remove(p)
                &&& forall|q: (u64, CacheKey)| #[trigger] old(order)@.contains_key(q) ==> !recency_lt(q, p)
            },
        },
{
    match order.pop_first() {
        Some((p, _)) => Some(p),
        None => None,
    }
}

/// The glyph cache: budgeted, deterministic, and chunk-owning.
pub struct GlyphCache<S> {
    budget_bytes: u64,
    /// key → (stamp, charged bytes, last touch).
    stamps: BTreeMap<CacheKey, CachedStamp<S>>,
    /// (last touch, key) → eviction order, least recently used first.
    order: BTreeMap<(u64, CacheKey), ()>,
    /// key → owning chunk ids.
    owners: BTreeMap<CacheKey, BTreeSet<u32>>,
    bytes: u64,
    next_tick: u64,
}

impl<S> View for GlyphCache<S> {
    type V = GlyphCacheView<S>;

    closed spec fn view(&self) -> GlyphCacheView<S> {
        GlyphCacheView {
            budget_bytes: self.budget_bytes,
            bytes: self.bytes,
            next_tick: self.next_tick,
            stamps: self.stamps@,
            owners: Map::new(|k: CacheKey| self.owners@.contains_key(k), |k: CacheKey| self.owners@[k]@),
        }
    }
}

impl<S: Copy> GlyphCache<S> {
    /// The cache's well-formedness: the recency index holds exactly one
    /// entry per stamp, at its last touch, and the view keeps
    /// [`cache_inv`].
    pub closed spec fn wf(&self) -> bool {
        &&& cache_inv(self@)
        &&& forall|k: CacheKey| #[trigger] self.stamps@.contains_key(k) ==> self.order@.contains_key(
            (self.stamps@[k].tick, k),
        )
        &&& forall|p: (u64, CacheKey)| #[trigger] self.order@.contains_key(p) ==> self.stamps@.contains_key(p.1)
            && self.stamps@[p.1].tick == p.0
    }

    /// Create a cache with the given byte budget.
    pub fn new(budget_bytes: u64) -> (r: Self)
        ensures
            r.wf(),
            r@.budget_bytes == budget_bytes,
            r@.bytes == 0,
            r@.next_tick == 0,
            r@.stamps == Map::<CacheKey, CachedStamp<S>>::empty(),
            r@.owners == Map::<CacheKey, Set<u32>>::empty(),
            forall|size: u64| #[trigger] uniform(r@, size),
    {
        let r = GlyphCache {
            budget_bytes,
            stamps: BTreeMap::new(),
            order: BTreeMap::new(),
            owners: BTreeMap::new(),
            bytes: 0,
            next_tick: 0,
        };
        assert(r@.owners =~= Map::<CacheKey, Set<u32>>::empty());
        r
    }

    /// The current byte usage.
    pub fn used_bytes(&self) -> (r: u64)
        ensures
            r == self@.bytes,
    {
        self.bytes
    }

    /// The configured budget.
    pub fn budget(&self) -> (r: u64)
        ensures
            r == self@.budget_bytes,
    {
        self.budget_bytes
    }

    /// The number of cached stamps.
    pub fn size(&self) -> (r: usize)
        ensures
            r == self@.stamps.dom().len(),
    {
        self.stamps.len()
    }

    /// Whether the touch counter can take another value (every `get` and
    /// `put` takes one).
    pub fn can_touch(&self) -> (r: bool)
        ensures
            r == (self@.next_tick < u64::MAX),
    {
        self.next_tick < u64::MAX
    }

    /// Whether a stamp is cached.
    pub fn has(&self, key: CacheKey) -> (r: bool)
        ensures
            r == self@.stamps.contains_key(key),
    {
        self.stamps.contains_key(&key)
    }

    fn take_tick(&mut self) -> (r: u64)
        requires
            old(self).next_tick < u64::MAX,
        ensures
            r == old(self).next_tick,
            final(self).next_tick == old(self).next_tick + 1,
            final(self).stamps == old(self).stamps,
            final(self).order == old(self).order,
            final(self).owners == old(self).owners,
            final(self).bytes == old(self).bytes,
            final(self).budget_bytes == old(self).budget_bytes,
    {
        let tick = self.next_tick;
        self.next_tick = self.next_tick + 1;
        tick
    }

    /// Move a cached stamp's recency to a fresh touch, replacing the stamp.
    fn touch(&mut self, key: CacheKey, entry: CachedStamp<S>)
        requires
            old(self).wf(),
            old(self).stamps@.contains_key(key),
            old(self).next_tick < u64::MAX,
        ensures
            final(self).wf(),
            final(self)@ == (GlyphCacheView {
                stamps: old(self)@.stamps.insert(key, CachedStamp { tick: old(self)@.next_tick, ..entry }),
                next_tick: (old(self)@.next_tick + 1) as u64,
                ..old(self)@
            }),
            final(self).owners == old(self).owners,
    {
        let counter = self.stamps.get(&key).unwrap().tick;
        self.order.remove(&(counter, key));
        let tick = self.take_tick();
        let fresh = CachedStamp { tick, ..entry };
        self.stamps.insert(key, fresh);
        self.order.insert((tick, key), ());
        proof {
            let o = old(self);
            assert forall|k: CacheKey| #[trigger] self.stamps@.contains_key(k) implies self.order@.contains_key(
                (self.stamps@[k].tick, k),
            ) by {
                if k != key {
                    assert(o.order@.contains_key((o.stamps@[k].tick, k)));
                    assert((o.stamps@[k].tick, k) != (counter, key));
                }
            }
            assert forall|p: (u64, CacheKey)| #[trigger] self.order@.contains_key(p) implies self.stamps@.contains_key(p.1)
                && self.stamps@[p.1].tick == p.0 by {
                if p != (tick, key) {
                    assert(o.order@.contains_key(p));
                    if p.1 == key {
                        assert(o.stamps@[key].tick == p.0);
                        assert(p == (counter, key));
                    }
                }
            }
            assert(self@.owners =~= o@.owners);
            assert(self@.stamps =~= o@.stamps.insert(key, CachedStamp { tick: o@.next_tick, ..entry }));
        }
    }

    /// The least recently used key of a well-formed cache is the one its
    /// recency index hands out first.
    proof fn lemma_lru_is_first(&self, p: (u64, CacheKey))
        requires
            self.wf(),
            self.order@.contains_key(p),
            forall|q: (u64, CacheKey)| #[trigger] self.order@.contains_key(q) ==> !recency_lt(q, p),
        ensures
            lru_key(self@.stamps) == p.1,
            self@.stamps.contains_key(p.1),
    {
        let st = self@.stamps;
        assert forall|j: CacheKey| #[trigger] st.contains_key(j) implies !recency_lt((st[j].tick, j), (st[p.1].tick, p.1)) by {
            assert(self.order@.contains_key((st[j].tick, j)));
        }
        let k = lru_key(st);
        assert(st.contains_key(k));
        assert(!recency_lt((st[p.1].tick, p.1), (st[k].tick, k)));
    }

    /// One eviction step keeps the cache well formed and follows
    /// [`evict_spec`].
    proof fn lemma_evict_step(before: &Self, after: &Self, p: (u64, CacheKey))
        requires
            before.wf(),
            before.bytes > before.budget_bytes,
            before.order@.contains_key(p),
            forall|q: (u64, CacheKey)| #[trigger] before.order@.contains_key(q) ==> !recency_lt(q, p),
            after.order@ == before.order@.remove(p),
            after.stamps@ == before.stamps@.remove(p.1),
            after.owners@ == before.owners@.remove(p.1),
            after.bytes == sat_sub(before.bytes, before.stamps@[p.1].size_bytes),
            after.budget_bytes == before.budget_bytes,
            after.next_tick == before.next_tick,
        ensures
            after.wf(),
            evict_spec(before@) == evict_spec(after@),
    {
        before.lemma_lru_is_first(p);
        let b = before@;
        let id = p.1;
        assert(after@.owners =~= b.owners.remove(id));
        assert(b.stamps.dom().len() > 0) by {
            assert(b.stamps.dom().contains(id));
        }
        assert(after@ == GlyphCacheView {
            stamps: b.stamps.remove(id),
            owners: b.owners.remove(id),
            bytes: sat_sub(b.bytes, b.stamps[id].size_bytes),
            ..b
        });
        assert forall|k: CacheKey| #[trigger] after.stamps@.contains_key(k) implies after.order@.contains_key(
            (after.stamps@[k].tick, k),
        ) by {
            assert(before.order@.contains_key((before.stamps@[k].tick, k)));
        }
        assert forall|q: (u64, CacheKey)| #[trigger] after.order@.contains_key(q) implies after.stamps@.contains_key(q.1)
            && after.stamps@[q.1].tick == q.0 by {
            assert(before.order@.contains_key(q));
        }
    }

    /// A well-formed cache with an empty recency index holds no stamp.
    proof fn lemma_empty_index(&self)
        requires
            self.wf(),
            self.order@.dom().len() == 0,
        ensures
            self@.stamps.dom().len() == 0,
            evict_spec(self@) == self@,
    {
        assert forall|k: CacheKey| !self.stamps@.contains_key(k) by {
            if self.stamps@.contains_key(k) {
                assert(self.order@.contains_key((self.stamps@[k].tick, k)));
                assert(self.order@.dom().contains((self.stamps@[k].tick, k)));
            }
        }
        assert(self@.stamps.dom() =~= Set::<CacheKey>::empty());
    }

    /// Evict least-recently-used stamps until the budget is satisfied.
    #[verifier::rlimit(60)]
    fn evict_lru(&mut self)
        requires
            old(self).wf(),
        ensures
            final(self).wf(),
            final(self)@ == evict_spec(old(self)@),
    {
        while self.bytes > self.budget_bytes
            invariant
                self.wf(),
                evict_spec(old(self)@) == evict_spec(self@),
            ensures
                self.wf(),
                evict_spec(old(self)@) == self@,
            decreases self.order@.dom().len(),
        {
            let ghost before = *self;
            let popped = pop_oldest(&mut self.order);
            let p = match popped {
                None => {
                    proof {
                        before.lemma_empty_index();
                    }
                    break;
                },
                Some(p) => p,
            };
            proof {
                before.lemma_lru_is_first(p);
            }
            let entry = self.stamps.remove(&p.1).unwrap();
            self.owners.remove(&p.1);
            self.bytes = self.bytes.saturating_sub(entry.size_bytes);
            proof {
                Self::lemma_evict_step(&before, self, p);
            }
        }
    }

    /// Store a stamp charged `size_bytes` and owned by `owner_chunk_id`. A
    /// cached key is refreshed (new stamp and size, new touch, one more
    /// owner) without charging the byte count again; otherwise the stamp is
    /// added and charged, and when the budget is exceeded the least recently
    /// used stamps are evicted. When every stamp is charged the same size,
    /// the byte count stays that size times the number of stamps and, once
    /// within the budget, stays within it.
    pub fn put(&mut self, key: CacheKey, stamp: S, size_bytes: u64, owner_chunk_id: u32)
        requires
            old(self).wf(),
            old(self)@.next_tick < u64::MAX,
            !old(self)@.stamps.contains_key(key) ==> old(self)@.bytes + size_bytes <= u64::MAX,
        ensures
            final(self).wf(),
            old(self)@.stamps.contains_key(key) ==> final(self)@ == (GlyphCacheView {
                stamps: old(self)@.stamps.insert(key, CachedStamp { stamp, size_bytes, tick: old(self)@.next_tick }),
                owners: old(self)@.owners.insert(key, old(self)@.owners[key].insert(owner_chunk_id)),
                next_tick: (old(self)@.next_tick + 1) as u64,
                ..old(self)@
            }),
            !old(self)@.stamps.contains_key(key) ==> final(self)@ == evict_spec(
                GlyphCacheView {
                    stamps: old(self)@.stamps.insert(key, CachedStamp { stamp, size_bytes, tick: old(self)@.next_tick }),
                    owners: old(self)@.owners.insert(key, set![owner_chunk_id]),
                    bytes: (old(self)@.bytes + size_bytes) as u64,
                    next_tick: (old(self)@.next_tick + 1) as u64,
                    ..old(self)@
                },
            ),
            !old(self)@.stamps.contains_key(key) ==> final(self)@.bytes <= final(self)@.budget_bytes
                || final(self)@.stamps.dom().len() == 0,
            uniform(old(self)@, size_bytes) ==> uniform(final(self)@, size_bytes),
            uniform(old(self)@, size_bytes) && !old(self)@.stamps.contains_key(key) ==> final(self)@.bytes
                <= final(self)@.budget_bytes,
            uniform(old(self)@, size_bytes) && old(self)@.bytes <= old(self)@.budget_bytes ==> final(self)@.bytes
                <= final(self)@.budget_bytes,
    {
        if self.stamps.contains_key(&key) {
            self.touch(key, CachedStamp { stamp, size_bytes, tick: 0 });
            let ghost mid = *self;
            match self.owners.remove(&key) {
                Some(set) => {
                    let mut set = set;
                    set.insert(owner_chunk_id);
                    self.owners.insert(key, set);
                },
                None => {},
            }
            proof {
                assert(mid@.stamps.contains_key(key));
                assert(mid@.owners.contains_key(key));
                assert(mid.owners@.contains_key(key));
                assert(self@.owners =~= mid@.owners.insert(key, mid@.owners[key].insert(owner_chunk_id)));
                assert(self@.stamps == mid@.stamps);
            }
            return;
        }
        let tick = self.take_tick();
        let ghost o = *old(self);
        self.stamps.insert(key, CachedStamp { stamp, size_bytes, tick });
        self.order.insert((tick, key), ());
        self.bytes = self.bytes + size_bytes;
        let mut set: BTreeSet<u32> = BTreeSet::new();
        set.insert(owner_chunk_id);
        self.owners.insert(key, set);
        proof {
            assert(!o@.owners.contains_key(key));
            assert(!o.owners@.contains_key(key));
            assert(set@ =~= set![owner_chunk_id]);
            assert(self@.owners =~= o@.owners.insert(key, set![owner_chunk_id]));
            assert forall|k: CacheKey| #[trigger] self.stamps@.contains_key(k) implies self.order@.contains_key(
                (self.stamps@[k].tick, k),
            ) by {
                if k != key {
                    assert(o.order@.contains_key((o.stamps@[k].tick, k)));
                }
            }
            assert forall|q: (u64, CacheKey)| #[trigger] self.order@.contains_key(q) implies self.stamps@.contains_key(q.1)
                && self.stamps@[q.1].tick == q.0 by {
                if q != (tick, key) {
                    assert(o.order@.contains_key(q));
                    if q.1 == key {
                        assert(o.stamps@.contains_key(key));
                    }
                }
            }
        }
        let ghost pre = self@;
        self.evict_lru();
        proof {
            lemma_eviction_meets_budget(pre);
            if uniform(o@, size_bytes) {
                lemma_uniform_insert(o@, key, CachedStamp { stamp, size_bytes, tick }, pre);
                lemma_evict_uniform(pre, size_bytes);
            }
        }
    }

    /// The chunk ids owning a key, ascending (empty for an uncached key).
    pub fn owners_of(&self, key: CacheKey) -> (r: Vec<u32>)
        ensures
            forall|i: int, j: int| 0 <= i < j < r@.len() ==> r@[i] < r@[j],
            forall|c: u32| r@.contains(c) <==> (self@.owners.contains_key(key) && self@.owners[key].contains(c)),
    {
        let mut out: Vec<u32> = Vec::new();
        match self.owners.get(&key) {
            None => {},
            Some(set) => {
                let ghost rem = set.iter().remaining();
                proof {
                    assert(rem.no_duplicates());
                }
                for c in it: set.iter()
                    invariant
                        it.seq() == rem,
                        rem.no_duplicates(),
                        forall|a: int, b: int| 0 <= a < b < out@.len() ==> out@[a] < out@[b],
                        forall|x: u32| out@.contains(x) <==> rem.take(it.index() as int).unref().contains(x),
                {
                    let ghost before = out@;
                    let ghost i0 = it.index() as int;
                    assert(!before.contains(*c)) by {
                        if before.contains(*c) {
                            let k = choose|k: int| 0 <= k < i0 && rem.take(i0).unref()[k] == *c;
                            assert(rem[k] == rem[i0]);
                        }
                    }
                    let mut p: usize = 0;
                    while p < out.len() && out[p] < *c
                        invariant
                            p <= out@.len(),
                            forall|j: int| 0 <= j < p ==> out@[j] < *c,
                        decreases out@.len() - p,
                    {
                        p = p + 1;
                    }
                    out.insert(p, *c);
                    proof {
                        before.insert_ensures(p as int, *c);
                        assert(rem.take(i0 + 1).unref() =~= rem.take(i0).unref().push(*c));
                        assert forall|a: int, b: int| 0 <= a < b < out@.len() implies out@[a] < out@[b] by {
                            if b < p {
                                assert(out@[a] == before[a] && out@[b] == before[b]);
                            } else if b == p {
                                assert(out@[a] == before[a]);
                            } else if a == p {
                                assert(out@[b] == before[b - 1]);
                                assert(before[p as int] != *c);
                                assert(before.contains(before[p as int]));
                                if b - 1 > p {
                                    assert(before[p as int] < before[b - 1]);
                                }
                            } else if a < p {
                                assert(out@[a] == before[a] && out@[b] == before[b - 1]);
                                if b - 1 >= p {
                                    assert(before.contains(before[p as int]));
                                    assert(before[p as int] != *c);
                                }
                            } else {
                                assert(out@[a] == before[a - 1] && out@[b] == before[b - 1]);
                            }
                        }
                        let t0 = rem.take(i0).unref();
                        let t1 = rem.take(i0 + 1).unref();
                        assert(t1 =~= t0.push(*c));
                        assert forall|x: u32| out@.contains(x) <==> t1.contains(x) by {
                            if out@.contains(x) {
                                let k = choose|k: int| 0 <= k < out@.len() && out@[k] == x;
                                if k < p {
                                    assert(before[k] == x);
                                    assert(before.contains(x));
                                    assert(t0.contains(x));
                                    let k0 = choose|k0: int| 0 <= k0 < t0.len() && t0[k0] == x;
                                    assert(t1[k0] == x);
                                } else if k > p {
                                    assert(before[k - 1] == x);
                                    assert(before.contains(x));
                                    assert(t0.contains(x));
                                    let k0 = choose|k0: int| 0 <= k0 < t0.len() && t0[k0] == x;
                                    assert(t1[k0] == x);
                                } else {
                                    assert(t1[i0] == x);
                                }
                            }
                            if t1.contains(x) {
                                let k = choose|k: int| 0 <= k < t1.len() && t1[k] == x;
                                if k < i0 {
                                    assert(t0[k] == x);
                                    assert(t0.contains(x));
                                    assert(before.contains(x));
                                    let k2 = choose|k2: int| 0 <= k2 < before.len() && before[k2] == x;
                                    if k2 < p {
                                        assert(out@[k2] == x);
                                    } else {
                                        assert(out@[k2 + 1] == x);
                                    }
                                } else {
                                    assert(out@[p as int] == x);
                                }
                            }
                        }
                    }
                }
                proof {
                    assert(rem.take(rem.len() as int) =~= rem);
                    assert forall|x: u32| out@.contains(x) <==> set@.contains(x) by {
                        assert(rem.unref().to_set().contains(x) <==> rem.unref().contains(x));
                    }
                    assert(self@.owners[key] == set@);
                }
            },
        }
        out
    }

    /// Drop everything (the touch counter keeps running).
    pub fn clear(&mut self)
        requires
            old(self).wf(),
        ensures
            final(self).wf(),
            final(self)@ == (GlyphCacheView {
                bytes: 0,
                stamps: Map::<CacheKey, CachedStamp<S>>::empty(),
                owners: Map::<CacheKey, Set<u32>>::empty(),
                ..old(self)@
            }),
            forall|size: u64| #[trigger] uniform(final(self)@, size),
    {
        self.stamps.clear();
        self.order.clear();
        self.owners.clear();
        self.bytes = 0;
        assert(self@.owners =~= Map::<CacheKey, Set<u32>>::empty());
    }

    /// The keys of the owner table, ascending.
    fn owner_keys(&self) -> (r: Vec<CacheKey>)
        ensures
            r@.no_duplicates(),
            forall|k: CacheKey| r@.contains(k) <==> self.owners@.contains_key(k),
    {
        let mut out: Vec<CacheKey> = Vec::new();
        let ghost rem = self.owners.keys().remaining();
        proof {
            assert(rem.unref().to_set() == self.owners@.dom());
            assert(rem.no_duplicates());
        }
        for k in it: self.owners.keys()
            invariant
                it.seq() == rem,
                out@ == rem.take(it.index() as int).unref(),
        {
            out.push(*k);
            assert(rem.take(it.index() as int + 1).unref() =~= rem.take(it.index() as int).unref().push(*k));
        }
        proof {
            assert(rem.take(rem.len() as int) =~= rem);
            assert forall|k: CacheKey| out@.contains(k) <==> self.owners@.contains_key(k) by {
                assert(rem.unref().to_set().contains(k) <==> rem.unref().contains(k));
            }
            assert forall|a: int, b: int| 0 <= a < out@.len() && 0 <= b < out@.len() && a != b implies out@[a] != out@[b] by {
                assert(out@[a] == *rem[a] && out@[b] == *rem[b]);
                assert(rem[a] != rem[b]);
            }
        }
        out
    }

    /// Take chunk `c` out of every owner set; the keys it owned alone, in
    /// key order.
    fn drop_owner(&mut self, c: u32) -> (r: Vec<CacheKey>)
        requires
            old(self).wf(),
        ensures
            final(self).wf(),
            r@.no_duplicates(),
            forall|k: CacheKey| r@.contains(k) <==> old(self)@.owners.contains_key(k) && only_owner(old(self)@.owners[k], c),
            final(self)@ == (GlyphCacheView {
                owners: Map::new(|k: CacheKey| old(self)@.owners.contains_key(k), |k: CacheKey| old(self)@.owners[k].remove(c)),
                ..old(self)@
            }),
            final(self).stamps == old(self).stamps,
            final(self).order == old(self).order,
    {
        let keys = self.owner_keys();
        let ghost o = *old(self);
        let mut empty: Vec<CacheKey> = Vec::new();
        let mut i: usize = 0;
        while i < keys.len()
            invariant
                i <= keys@.len(),
                keys@.no_duplicates(),
                forall|k: CacheKey| keys@.contains(k) <==> o.owners@.contains_key(k),
                self.stamps == o.stamps,
                self.order == o.order,
                self.bytes == o.bytes,
                self.budget_bytes == o.budget_bytes,
                self.next_tick == o.next_tick,
                self.owners@.dom() == o.owners@.dom(),
                o.wf(),
                forall|k: CacheKey| #[trigger] self.owners@.contains_key(k) ==> self.owners@[k]@ == (if keys@.take(i as int).contains(k) {
                    o.owners@[k]@.remove(c)
                } else {
                    o.owners@[k]@
                }),
                empty@.no_duplicates(),
                forall|k: CacheKey| empty@.contains(k) <==> keys@.take(i as int).contains(k) && only_owner(o@.owners[k], c),
            decreases keys@.len() - i,
        {
            let key = keys[i];
            let ghost before_empty = empty@;
            proof {
                assert(keys@.contains(key));
                assert(!keys@.take(i as int).contains(key)) by {
                    let t0 = keys@.take(i as int);
                    if t0.contains(key) {
                        let k = choose|k: int| 0 <= k < t0.len() && t0[k] == key;
                        assert(keys@[k] == keys@[i as int]);
                    }
                }
                assert(keys@.take(i as int + 1) =~= keys@.take(i as int).push(key));
            }
            let taken = self.owners.remove(&key);
            match taken {
                Some(set) => {
                    let mut set = set;
                    let ghost was = set@;
                    set.remove(&c);
                    let alone = set.is_empty();
                    proof {
                        assert(was == o.owners@[key]@);
                        assert(o@.owners[key] == was);
                        assert(alone <==> only_owner(was, c)) by {
                            if only_owner(was, c) {
                                assert(set@ =~= Set::<u32>::empty());
                            }
                            if alone {
                                assert forall|x: u32| #[trigger] was.contains(x) implies x == c by {
                                    if x != c {
                                        assert(set@.contains(x));
                                    }
                                }
                            }
                        }
                    }
                    proof {
                        assert(!before_empty.contains(key));
                    }
                    if alone {
                        empty.push(key);
                        proof {
                            assert(empty@ == before_empty.push(key));
                            assert forall|a: int, b: int| 0 <= a < empty@.len() && 0 <= b < empty@.len() && a != b implies empty@[a] != empty@[b] by {
                                if a == before_empty.len() as int {
                                    assert(before_empty.contains(empty@[b]));
                                } else if b == before_empty.len() as int {
                                    assert(before_empty.contains(empty@[a]));
                                }
                            }
                        }
                    }
                    proof {
                        assert forall|k: CacheKey| k != key implies (empty@.contains(k) <==> before_empty.contains(k)) by {
                            if empty@.contains(k) && alone {
                                let q = choose|q: int| 0 <= q < empty@.len() && empty@[q] == k;
                                if q < before_empty.len() {
                                    assert(before_empty[q] == k);
                                }
                            }
                            if before_empty.contains(k) && alone {
                                let q = choose|q: int| 0 <= q < before_empty.len() && before_empty[q] == k;
                                assert(empty@[q] == k);
                            }
                        }
                        assert(empty@.contains(key) <==> alone) by {
                            if alone {
                                assert(empty@[before_empty.len() as int] == key);
                            }
                        }
                    }
                    self.owners.insert(key, set);
                },
                None => {
                    proof {
                        assert(o.owners@.contains_key(key));
                        assert(self.owners@.dom().contains(key));
                    }
                },
            }
            proof {
                assert(empty@.contains(key) <==> only_owner(o@.owners[key], c));
                assert(keys@.take(i as int + 1).contains(key)) by {
                    assert(keys@.take(i as int + 1)[i as int] == key);
                }
                assert forall|k: CacheKey| k != key implies (keys@.take(i as int + 1).contains(k) <==> keys@.take(i as int).contains(k)) by {
                    let t1 = keys@.take(i as int + 1);
                    if t1.contains(k) {
                        let q = choose|q: int| 0 <= q < t1.len() && t1[q] == k;
                        assert(keys@.take(i as int)[q] == k);
                    }
                    let t0 = keys@.take(i as int);
                    if t0.contains(k) {
                        let q = choose|q: int| 0 <= q < t0.len() && t0[q] == k;
                        assert(keys@.take(i as int + 1)[q] == k);
                    }
                }
                assert forall|k: CacheKey| empty@.contains(k) <==> keys@.take(i as int + 1).contains(k) && only_owner(o@.owners[k], c) by {
                    if k != key {
                        assert(empty@.contains(k) <==> before_empty.contains(k));
                    }
                }
                assert forall|k: CacheKey| #[trigger] self.owners@.contains_key(k) implies self.owners@[k]@ == (if keys@.take(i as int + 1).contains(k) {
                    o.owners@[k]@.remove(c)
                } else {
                    o.owners@[k]@
                }) by {
                    if k != key {
                        let t1 = keys@.take(i as int + 1);
                        if t1.contains(k) {
                            let q = choose|q: int| 0 <= q < t1.len() && t1[q] == k;
                            assert(keys@.take(i as int)[q] == k);
                        }
                        let t0 = keys@.take(i as int);
                        if t0.contains(k) {
                            let q = choose|q: int| 0 <= q < t0.len() && t0[q] == k;
                            assert(keys@.take(i as int + 1)[q] == k);
                        }
                    } else {
                        assert(keys@.take(i as int + 1)[i as int] == key);
                    }
                }
                assert(self.owners@.dom() =~= o.owners@.dom());
            }
            i = i + 1;
        }
        proof {
            assert(keys@.take(keys@.len() as int) =~= keys@);
            assert(self@.owners =~= Map::new(|k: CacheKey| o@.owners.contains_key(k), |k: CacheKey| o@.owners[k].remove(c)));
        }
        empty
    }

    /// Dropping one cached key from every table keeps the cache well
    /// formed.
    proof fn lemma_drop_key(before: &Self, after: &Self, key: CacheKey)
        requires
            before.wf(),
            before.stamps@.contains_key(key),
            after.stamps@ == before.stamps@.remove(key),
            after.order@ == before.order@.remove((before.stamps@[key].tick, key)),
            after.owners@ == before.owners@.remove(key),
            after.next_tick == before.next_tick,
            after.bytes == sat_sub(before.bytes, before.stamps@[key].size_bytes),
        ensures
            after.wf(),
            after@.owners =~= before@.owners.remove(key),
    {
        assert(after@.owners =~= before@.owners.remove(key));
        assert forall|k: CacheKey| #[trigger] after.stamps@.contains_key(k) implies after.order@.contains_key(
            (after.stamps@[k].tick, k),
        ) by {
            assert(before.order@.contains_key((before.stamps@[k].tick, k)));
        }
        assert forall|q: (u64, CacheKey)| #[trigger] after.order@.contains_key(q) implies after.stamps@.contains_key(q.1)
            && after.stamps@[q.1].tick == q.0 by {
            assert(before.order@.contains_key(q));
        }
    }

    /// Release every stamp owned by a chunk (called when the chunk is
    /// evicted): the chunk leaves every owner set, and the stamps it owned
    /// alone are dropped. Stamps shared with live chunks survive. Returns
    /// the freed bytes (saturating).
    pub fn release_chunk(&mut self, chunk_id: u32) -> (r: u64)
        requires
            old(self).wf(),
        ensures
            final(self).wf(),
            exists|ks: Seq<CacheKey>| {
                &&& ks.no_duplicates()
                &&& forall|k: CacheKey| ks.contains(k) <==> old(self)@.owners.contains_key(k) && only_owner(old(self)@.owners[k], chunk_id)
                &&& final(self)@ == #[trigger] release_view(old(self)@, chunk_id, ks)
                &&& r == freed_of(old(self)@.stamps, ks)
            },
            forall|size: u64| #[trigger] uniform(old(self)@, size) ==> uniform(final(self)@, size),
    {
        let ghost o = old(self)@;
        let empty = self.drop_owner(chunk_id);
        proof {
            assert(empty@.take(0) =~= Seq::<CacheKey>::empty());
            assert(self@.stamps =~= release_view(o, chunk_id, empty@.take(0)).stamps);
            assert(self@.owners =~= release_view(o, chunk_id, empty@.take(0)).owners);
        }
        let mut freed: u64 = 0;
        let mut j: usize = 0;
        while j < empty.len()
            invariant
                self.wf(),
                j <= empty@.len(),
                empty@.no_duplicates(),
                forall|k: CacheKey| empty@.contains(k) ==> o.stamps.contains_key(k),
                self@ == release_view(o, chunk_id, empty@.take(j as int)),
                freed == freed_of(o.stamps, empty@.take(j as int)),
            decreases empty@.len() - j,
        {
            let key = empty[j];
            let ghost before = *self;
            let ghost t0 = empty@.take(j as int);
            let ghost t1 = empty@.take(j as int + 1);
            proof {
                assert(t1 =~= t0.push(key));
                assert(t1.drop_last() =~= t0);
                assert(!t0.contains(key)) by {
                    if t0.contains(key) {
                        let q = choose|q: int| 0 <= q < t0.len() && t0[q] == key;
                        assert(empty@[q] == empty@[j as int]);
                    }
                }
                assert(empty@.contains(key));
                assert(before@.stamps.contains_key(key));
                assert(before.stamps@.contains_key(key));
            }
            let entry = self.stamps.remove(&key).unwrap();
            self.order.remove(&(entry.tick, key));
            self.owners.remove(&key);
            self.bytes = self.bytes.saturating_sub(entry.size_bytes);
            freed = freed.saturating_add(entry.size_bytes);
            proof {
                Self::lemma_drop_key(&before, self, key);
                assert(entry == o.stamps[key]);
                assert forall|k: CacheKey| t1.contains(k) <==> (t0.contains(k) || k == key) by {
                    if t1.contains(k) {
                        let q = choose|q: int| 0 <= q < t1.len() && t1[q] == k;
                        if q < t0.len() {
                            assert(t0[q] == k);
                        }
                    }
                    if t0.contains(k) {
                        let q = choose|q: int| 0 <= q < t0.len() && t0[q] == k;
                        assert(t1[q] == k);
                    }
                    if k == key {
                        assert(t1[t0.len() as int] == key);
                    }
                }
                assert(self@.stamps =~= release_view(o, chunk_id, t1).stamps);
                assert(self@.owners =~= release_view(o, chunk_id, t1).owners);
            }
            j = j + 1;
        }
        proof {
            assert(empty@.take(empty@.len() as int) =~= empty@);
            assert forall|size: u64| #[trigger] uniform(o, size) implies uniform(self@, size) by {
                lemma_release_uniform(o, chunk_id, empty@, size);
            }
        }
        freed
    }

    /// Fetch a stamp (touching its LRU position), or `None`.
    pub fn get(&mut self, key: CacheKey) -> (r: Option<S>)
        requires
            old(self).wf(),
            old(self)@.next_tick < u64::MAX,
        ensures
            final(self).wf(),
            match old(self)@.stamps.get(key) {
                None => r is None && final(self)@ == old(self)@,
                Some(e) => r == Some(e.stamp) && final(self)@ == (GlyphCacheView {
                    stamps: old(self)@.stamps.insert(key, CachedStamp { tick: old(self)@.next_tick, ..e }),
                    next_tick: (old(self)@.next_tick + 1) as u64,
                    ..old(self)@
                }),
            },
            forall|size: u64| #[trigger] uniform(old(self)@, size) ==> uniform(final(self)@, size),
    {
        let entry = match self.stamps.get(&key) {
            Some(e) => *e,
            None => {
                return None;
            },
        };
        self.touch(key, entry);
        Some(entry.stamp)
    }
}

/// Every stamp is charged `size`, and the byte count is `size` times the
/// number of stamps.
pub open spec fn uniform<S>(v: GlyphCacheView<S>, size: u64) -> bool {
    &&& forall|k: CacheKey| #[trigger] v.stamps.contains_key(k) ==> v.stamps[k].size_bytes == size
    &&& v.bytes == size * v.stamps.dom().len()
}

/// Adding a stamp of the common size to a uniform cache, and charging it,
/// keeps the cache uniform.
proof fn lemma_uniform_insert<S>(v: GlyphCacheView<S>, key: CacheKey, e: CachedStamp<S>, w: GlyphCacheView<S>)
    requires
        uniform(v, e.size_bytes),
        v.stamps.dom().finite(),
        !v.stamps.contains_key(key),
        w.stamps == v.stamps.insert(key, e),
        w.bytes == v.bytes + e.size_bytes,
    ensures
        uniform(w, e.size_bytes),
{
    assert(w.stamps.dom() =~= v.stamps.dom().insert(key));
    let n = v.stamps.dom().len();
    let size = e.size_bytes;
    assert(size * (n + 1) == size * n + size) by (nonlinear_arith);
}

/// Eviction keeps a uniform cache uniform.
proof fn lemma_evict_uniform<S>(v: GlyphCacheView<S>, size: u64)
    requires
        v.stamps.dom().finite(),
        uniform(v, size),
    ensures
        uniform(evict_spec(v), size),
    decreases v.stamps.dom().len(),
{
    if v.bytes <= v.budget_bytes || v.stamps.dom().len() == 0 {
    } else {
        let k = lru_key(v.stamps);
        if v.stamps.contains_key(k) {
            let n = v.stamps.dom().len();
            let next = GlyphCacheView {
                stamps: v.stamps.remove(k),
                owners: v.owners.remove(k),
                bytes: sat_sub(v.bytes, v.stamps[k].size_bytes),
                ..v
            };
            assert(next.stamps.dom() =~= v.stamps.dom().remove(k));
            assert(size * n == size * (n - 1) + size) by (nonlinear_arith)
                requires
                    n >= 1;
            assert(size * (n - 1) >= 0) by (nonlinear_arith)
                requires
                    n >= 1;
            lemma_evict_uniform(next, size);
        }
    }
}

/// The stamps left once the keys of `ks` are dropped.
pub open spec fn kept_keys<S>(stamps: Map<CacheKey, CachedStamp<S>>, ks: Seq<CacheKey>) -> Set<CacheKey> {
    Set::new(|k: CacheKey| stamps.contains_key(k) && !ks.contains(k))
}

/// Dropping distinct cached keys from a uniform table takes the common size
/// off the byte count for each of them.
proof fn lemma_drain_uniform<S>(v: GlyphCacheView<S>, ks: Seq<CacheKey>, size: u64)
    requires
        uniform(v, size),
        v.stamps.dom().finite(),
        ks.no_duplicates(),
        forall|i: int| 0 <= i < ks.len() ==> v.stamps.contains_key(#[trigger] ks[i]),
    ensures
        ks.len() <= v.stamps.dom().len(),
        kept_keys(v.stamps, ks).finite(),
        kept_keys(v.stamps, ks).len() == v.stamps.dom().len() - ks.len(),
        drain(v.bytes, v.stamps, ks) == size * (v.stamps.dom().len() - ks.len()),
    decreases ks.len(),
{
    let n = v.stamps.dom().len();
    if ks.len() == 0 {
        assert(kept_keys(v.stamps, ks) =~= v.stamps.dom());
    } else {
        let prev = ks.drop_last();
        let x = ks.last();
        assert(forall|i: int| 0 <= i < prev.len() ==> prev[i] == #[trigger] ks[i]);
        assert(prev.no_duplicates());
        lemma_drain_uniform(v, prev, size);
        assert(!prev.contains(x)) by {
            if prev.contains(x) {
                let i = choose|i: int| 0 <= i < prev.len() && prev[i] == x;
                assert(ks[i] == ks[ks.len() - 1]);
            }
        }
        assert(v.stamps.contains_key(ks[ks.len() - 1]));
        assert(kept_keys(v.stamps, prev).contains(x));
        assert(kept_keys(v.stamps, ks) =~= kept_keys(v.stamps, prev).remove(x)) by {
            assert forall|k: CacheKey| ks.contains(k) <==> (prev.contains(k) || k == x) by {
                if ks.contains(k) {
                    let i = choose|i: int| 0 <= i < ks.len() && ks[i] == k;
                    if i < prev.len() {
                        assert(prev[i] == k);
                    }
                }
                if prev.contains(k) {
                    let i = choose|i: int| 0 <= i < prev.len() && prev[i] == k;
                    assert(ks[i] == k);
                }
                if k == x {
                    assert(ks[ks.len() - 1] == k);
                }
            }
        }
        let m = n - prev.len();
        assert(m >= 1);
        assert(size * m == size * (m - 1) + size) by (nonlinear_arith);
        assert(size * (m - 1) >= 0) by (nonlinear_arith)
            requires
                m >= 1;
    }
}

/// Releasing a chunk keeps a uniform cache uniform.
proof fn lemma_release_uniform<S>(v: GlyphCacheView<S>, c: u32, ks: Seq<CacheKey>, size: u64)
    requires
        cache_inv(v),
        uniform(v, size),
        ks.no_duplicates(),
        forall|k: CacheKey| ks.contains(k) ==> v.owners.contains_key(k),
    ensures
        uniform(release_view(v, c, ks), size),
{
    assert forall|i: int| 0 <= i < ks.len() implies v.stamps.contains_key(#[trigger] ks[i]) by {
        assert(ks.contains(ks[i]));
    }
    lemma_drain_uniform(v, ks, size);
    assert(release_view(v, c, ks).stamps.dom() =~= kept_keys(v.stamps, ks));
}

} // verus!
