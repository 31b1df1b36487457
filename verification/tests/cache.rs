//! The block cache.
use basemyai_engine::key::Key;
use basemyai_engine::store::block_cache::{BlockCache, CachedBlock};

fn block(n: usize, val_len: usize) -> CachedBlock {
    (0..n).map(|i| (Key::from(format!("k{i}").as_bytes()), Some(vec![b'v'; val_len]))).collect()
}

#[test]
fn miss_then_insert_then_hit() {
    let mut cache = BlockCache::new(1024 * 1024);
    assert!(cache.get(0, 0).is_none());
    assert_eq!(cache.misses(), 1);
    cache.insert(0, 0, block(5, 10));
    let hit = cache.get(0, 0).expect("hit after insert");
    assert_eq!(hit, block(5, 10));
    assert_eq!(cache.hits(), 1);
}

#[test]
fn distinct_keys_do_not_collide() {
    let mut cache = BlockCache::new(1024 * 1024);
    cache.insert(0, 0, block(1, 10));
    cache.insert(0, 1, block(2, 10));
    cache.insert(1, 0, block(3, 10));
    assert_eq!(cache.get(0, 0).expect("hit").len(), 1);
    assert_eq!(cache.get(0, 1).expect("hit").len(), 2);
    assert_eq!(cache.get(1, 0).expect("hit").len(), 3);
}

#[test]
fn eviction_stays_within_capacity_and_drops_least_recently_used() {
    // Ten entries of 2 + 10 bytes: 120 bytes a block, so 250 holds two.
    let mut cache = BlockCache::new(250);
    cache.insert(0, 0, block(10, 10));
    cache.insert(0, 1, block(10, 10));
    assert!(cache.get(0, 0).is_some());
    cache.insert(0, 2, block(10, 10));
    assert!(cache.get(0, 0).is_some(), "recently-touched block must survive eviction");
    assert!(cache.get(0, 1).is_none(), "untouched least-recently-used block must be evicted");
    assert!(cache.get(0, 2).is_some(), "just-inserted block must be resident");
}

#[test]
fn invalidate_sst_drops_only_that_sst() {
    let mut cache = BlockCache::new(1024 * 1024);
    cache.insert(0, 0, block(1, 10));
    cache.insert(1, 0, block(1, 10));
    cache.invalidate_sst(0);
    assert!(cache.get(0, 0).is_none());
    assert!(cache.get(1, 0).is_some());
}

#[test]
fn oversized_single_block_is_still_cached() {
    let mut cache = BlockCache::new(10);
    cache.insert(0, 0, block(50, 50));
    assert!(cache.get(0, 0).is_some(), "an oversized block should still be cached, not silently dropped");
}

#[test]
fn a_resident_block_is_not_inserted_again() {
    let mut cache = BlockCache::new(1024);
    cache.insert(7, 3, block(1, 10));
    cache.insert(7, 3, block(2, 10));
    assert_eq!(cache.get(7, 3).expect("hit"), block(1, 10));
}

#[test]
fn an_invalidated_table_makes_room() {
    let mut cache = BlockCache::new(250);
    cache.insert(0, 0, block(10, 10));
    cache.insert(1, 0, block(10, 10));
    cache.invalidate_sst(0);
    cache.insert(2, 0, block(10, 10));
    assert!(cache.get(1, 0).is_some());
    assert!(cache.get(2, 0).is_some());
}

#[test]
fn counters_tell_hits_from_misses() {
    let mut cache = BlockCache::new(1024);
    cache.insert(0, 0, block(1, 1));
    let _ = cache.get(0, 0);
    let _ = cache.get(0, 0);
    let _ = cache.get(0, 1);
    assert_eq!(cache.hits(), 2);
    assert_eq!(cache.misses(), 1);
}
