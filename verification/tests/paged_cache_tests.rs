use oxide_rs::paged_cache::{PagedAttentionConfig, PagedCacheError, PagedKvCache};

fn small_cache() -> PagedKvCache {
    PagedKvCache::new(PagedAttentionConfig { num_blocks: 8, block_capacity: 4, max_sequences: 3 })
}

#[test]
fn test_new_cache_is_all_free() {
    let cache = small_cache();
    assert_eq!(cache.free_block_count(), 8);
    assert_eq!(cache.used_block_count(), 0);
    assert_eq!(cache.sequence_count(), 0);
}

#[test]
fn test_memory_bound_over_growth() {
    let mut cache = small_cache();
    cache.allocate(1).unwrap();
    cache.allocate(2).unwrap();
    assert!(cache.ensure_capacity(1, 12).is_ok());
    assert!(cache.ensure_capacity(2, 16).is_ok());
    // 3 + 4 blocks taken out of 8.
    assert_eq!(cache.used_block_count(), 7);
    assert_eq!(cache.free_block_count(), 1);
    assert!(cache.used_block_count() + cache.free_block_count() == 8);

    // Growing further than the pool allows is refused and changes nothing.
    assert_eq!(cache.ensure_capacity(1, 24), Err(PagedCacheError::OutOfMemory));
    assert_eq!(cache.used_block_count(), 7);

    cache.release(1);
    assert_eq!(cache.free_block_count(), 4);
    assert!(cache.ensure_capacity(2, 24).is_ok());
    assert_eq!(cache.used_block_count(), 6);
}

#[test]
fn test_no_cross_sequence_aliasing() {
    let mut cache = small_cache();
    cache.allocate(10).unwrap();
    cache.allocate(20).unwrap();
    cache.ensure_capacity(10, 8).unwrap();
    cache.ensure_capacity(20, 8).unwrap();

    let spans_a = cache.read(10, 0, 8).unwrap();
    let spans_b = cache.read(20, 0, 8).unwrap();
    let blocks_a: Vec<usize> = spans_a.iter().map(|s| s.block).collect();
    let blocks_b: Vec<usize> = spans_b.iter().map(|s| s.block).collect();
    for a in &blocks_a {
        assert!(!blocks_b.contains(a), "sequences share block {}", a);
    }
}

#[test]
fn test_idempotent_release() {
    let mut cache = small_cache();
    cache.allocate(5).unwrap();
    cache.ensure_capacity(5, 10).unwrap();
    assert_eq!(cache.free_block_count(), 5);

    cache.release(5);
    assert_eq!(cache.free_block_count(), 8);
    assert!(!cache.has_sequence(5));

    // The second release is a no-op: no table, no double-freed blocks.
    cache.release(5);
    assert_eq!(cache.free_block_count(), 8);
    assert_eq!(cache.used_block_count(), 0);

    // The freed blocks are each usable exactly once again.
    cache.allocate(6).unwrap();
    cache.ensure_capacity(6, 32).unwrap();
    assert_eq!(cache.free_block_count(), 0);
}

#[test]
fn test_allocate_capacity_exceeded() {
    let mut cache = small_cache();
    cache.allocate(1).unwrap();
    cache.allocate(2).unwrap();
    cache.allocate(3).unwrap();
    assert_eq!(cache.allocate(4), Err(PagedCacheError::CapacityExceeded));
    assert_eq!(cache.sequence_count(), 3);
}

#[test]
fn test_write_read_roundtrip_across_blocks() {
    let mut cache = small_cache();
    cache.allocate(7).unwrap();
    cache.ensure_capacity(7, 8).unwrap();

    // Six entries starting at position 2 cross the block boundary at 4.
    let entries: Vec<Vec<u8>> = (0..6u8).map(|i| vec![i, i + 10]).collect();
    cache.write(7, 2, entries).unwrap();

    for i in 0..6u8 {
        let e = cache.read_entry(7, 2 + i as usize).unwrap();
        assert_eq!(*e, vec![i, i + 10]);
    }

    let spans = cache.read(7, 2, 6).unwrap();
    assert_eq!(spans.len(), 2);
    assert_eq!(spans[0].start_slot, 2);
    assert_eq!(spans[0].len, 2);
    assert_eq!(spans[1].start_slot, 0);
    assert_eq!(spans[1].len, 4);
    let total: usize = spans.iter().map(|s| s.len).sum();
    assert_eq!(total, 6);
}

#[test]
fn test_write_outside_reserved_range() {
    let mut cache = small_cache();
    cache.allocate(9).unwrap();
    cache.ensure_capacity(9, 4).unwrap();
    let r = cache.write(9, 3, vec![vec![1], vec![2]]);
    assert_eq!(r, Err(PagedCacheError::InvalidRange));
    // The rejected write changed nothing.
    assert_eq!(cache.read_entry(9, 3).unwrap().len(), 0);
}

#[test]
fn test_writes_do_not_leak_between_sequences() {
    let mut cache = small_cache();
    cache.allocate(1).unwrap();
    cache.allocate(2).unwrap();
    cache.ensure_capacity(1, 4).unwrap();
    cache.ensure_capacity(2, 4).unwrap();
    cache.write(1, 0, vec![vec![0xAA]; 4]).unwrap();
    cache.write(2, 0, vec![vec![0xBB]; 4]).unwrap();
    for p in 0..4 {
        assert_eq!(*cache.read_entry(1, p).unwrap(), vec![0xAA]);
        assert_eq!(*cache.read_entry(2, p).unwrap(), vec![0xBB]);
    }
}

#[test]
fn test_config_for_budget() {
    // 1 MB over blocks of 16 positions, 2 layers, 4 bytes per entry:
    // 128 bytes per block, 8192 blocks.
    let cfg = PagedAttentionConfig::for_budget(1, 16, 2, 4, 8);
    assert_eq!(cfg.num_blocks, 8192);
    assert_eq!(cfg.block_capacity, 16);
    assert_eq!(cfg.max_sequences, 8);
}
