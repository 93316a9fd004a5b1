use glyphcull_core::glyphs::{CacheKey, GlyphCache, STAMP_OVERHEAD, STAMP_PAYLOAD};

const STAMP: u64 = STAMP_OVERHEAD + STAMP_PAYLOAD;

fn key(cp: u32) -> CacheKey {
    (0, cp, 16.0f32.to_bits(), 0x0000_00ff)
}

#[test]
fn budget_zero_evicts_everything() {
    let mut cache: GlyphCache<char> = GlyphCache::new(0);
    cache.put(key(0x41), 'A', STAMP, 1);
    assert_eq!(cache.size(), 0, "a zero budget holds nothing");
    assert_eq!(cache.used_bytes(), 0);
    assert!(!cache.has(key(0x41)));
}

#[test]
fn the_least_recently_used_stamp_is_evicted_first() {
    let mut cache: GlyphCache<char> = GlyphCache::new(2 * STAMP);
    cache.put(key(0x41), 'A', STAMP, 1);
    cache.put(key(0x42), 'B', STAMP, 1);
    assert_eq!(cache.get(key(0x41)), Some('A'));
    cache.put(key(0x43), 'C', STAMP, 1);
    assert!(cache.has(key(0x41)));
    assert!(!cache.has(key(0x42)));
    assert!(cache.has(key(0x43)));
    assert_eq!(cache.used_bytes(), 2 * STAMP);
    assert_eq!(cache.budget(), 2 * STAMP);
    assert_eq!(cache.get(key(0x42)), None);
}

#[test]
fn refreshing_a_stamp_adds_an_owner_without_charging_again() {
    let mut cache: GlyphCache<char> = GlyphCache::new(10 * STAMP);
    cache.put(key(0x41), 'A', STAMP, 3);
    cache.put(key(0x41), 'a', STAMP, 1);
    assert_eq!(cache.size(), 1);
    assert_eq!(cache.used_bytes(), STAMP);
    assert_eq!(cache.owners_of(key(0x41)), vec![1, 3]);
    assert_eq!(cache.get(key(0x41)), Some('a'));
    assert_eq!(cache.owners_of(key(0x99)), Vec::<u32>::new());
}

#[test]
fn releasing_a_chunk_keeps_shared_stamps() {
    let mut cache: GlyphCache<char> = GlyphCache::new(10 * STAMP);
    cache.put(key(0x41), 'A', STAMP, 1);
    cache.put(key(0x42), 'B', STAMP, 1);
    cache.put(key(0x42), 'B', STAMP, 2);
    cache.put(key(0x43), 'C', STAMP, 2);
    assert_eq!(cache.release_chunk(1), STAMP);
    assert!(!cache.has(key(0x41)));
    assert!(cache.has(key(0x42)));
    assert_eq!(cache.owners_of(key(0x42)), vec![2]);
    assert_eq!(cache.used_bytes(), 2 * STAMP);
    assert_eq!(cache.release_chunk(2), 2 * STAMP);
    assert_eq!(cache.size(), 0);
    assert_eq!(cache.used_bytes(), 0);
}

#[test]
fn clearing_drops_everything() {
    let mut cache: GlyphCache<char> = GlyphCache::new(10 * STAMP);
    cache.put(key(0x41), 'A', STAMP, 1);
    cache.clear();
    assert_eq!(cache.size(), 0);
    assert_eq!(cache.used_bytes(), 0);
    cache.put(key(0x41), 'A', STAMP, 1);
    assert_eq!(cache.size(), 1);
}

#[test]
fn usage_stays_within_the_budget_and_counts_every_stamp() {
    let mut cache: GlyphCache<char> = GlyphCache::new(3 * STAMP + 7);
    for cp in 0x41..0x50u32 {
        cache.put(key(cp), 'x', STAMP, cp);
        assert!(cache.used_bytes() <= cache.budget());
        assert_eq!(cache.used_bytes(), STAMP * cache.size() as u64);
    }
    assert_eq!(cache.size(), 3);
    cache.put(key(0x4f), 'y', STAMP, 99);
    assert_eq!(cache.used_bytes(), 3 * STAMP);
}
