use oxide_rs::prefix_cache::{CacheKey, CachedLayer, PrefixCache, PrefixCacheConfig, hash_prompt};

#[test]
fn test_cache_key_creation() {
    let key1 = CacheKey::new("Hello", Some("System"), "config");
    let key2 = CacheKey::new("Hello", Some("System"), "config");
    let key3 = CacheKey::new("World", Some("System"), "config");

    assert_eq!(key1, key2);
    assert_ne!(key1, key3);
}

#[test]
fn test_prefix_cache_insert() {
    let config = PrefixCacheConfig::default();
    let mut cache = PrefixCache::new(config);

    let key = CacheKey::new("test prompt", Some("system"), "config");
    cache.insert(key, vec![1, 2, 3, 4], Vec::new());

    assert_eq!(cache.stats().num_entries, 1);
}

#[test]
fn test_cache_key_distinguishes_parts() {
    let base = CacheKey::new("p", Some("s"), "c");
    assert_ne!(base, CacheKey::new("q", Some("s"), "c"));
    assert_ne!(base, CacheKey::new("p", Some("t"), "c"));
    assert_ne!(base, CacheKey::new("p", Some("s"), "d"));
    assert_ne!(base, CacheKey::new("p", None, "c"));
}

#[test]
fn test_get_returns_inserted_entry() {
    let mut cache = PrefixCache::new(PrefixCacheConfig::default());
    let key = CacheKey::new("prompt", None, "cfg");
    let layers = vec![CachedLayer { k_cache: vec![1, 2], v_cache: vec![3, 4] }];
    cache.insert(key, vec![10, 20, 30], layers);

    let hit = cache.get(&key).expect("entry should be cached");
    assert_eq!(hit.key, key);
    assert_eq!(hit.tokens, vec![10, 20, 30]);
    assert_eq!(hit.kv_cache.len(), 1);
    assert_eq!(hit.kv_cache[0].k_cache, vec![1, 2]);
    assert_eq!(hit.access_count, 1);

    let miss = CacheKey::new("other", None, "cfg");
    assert!(cache.get(&miss).is_none());
}

#[test]
fn test_disabled_cache_stores_nothing() {
    let mut cache = PrefixCache::new(PrefixCacheConfig { memory_budget_mb: 4, enabled: false });
    assert!(!cache.is_enabled());
    let key = CacheKey::new("p", None, "c");
    cache.insert(key, vec![1], Vec::new());
    assert_eq!(cache.stats().num_entries, 0);
    assert!(cache.get(&key).is_none());
}

#[test]
fn test_budget_invariant_many_inserts() {
    // A one-megabyte budget holds at most 1020 one-token entries of
    // 4 + 1024 bytes each; 2000 inserts must evict down to that.
    let mut cache = PrefixCache::new(PrefixCacheConfig { memory_budget_mb: 1, enabled: true });
    for i in 0..2000u64 {
        let prompt = format!("prompt {}", i);
        let key = CacheKey::new(&prompt, None, "cfg");
        cache.insert(key, vec![7], Vec::new());
        let stats = cache.stats();
        assert!(stats.memory_used_mb <= stats.memory_budget_mb);
    }
    let stats = cache.stats();
    assert_eq!(stats.num_entries, 1020);
    assert_eq!(stats.memory_budget_mb, 1);
}

#[test]
fn test_lru_eviction_order() {
    // Two large entries fill the budget; a touch decides the victim.
    let mut cache = PrefixCache::new(PrefixCacheConfig { memory_budget_mb: 1, enabled: true });
    let key_a = CacheKey::new("a", None, "cfg");
    let key_b = CacheKey::new("b", None, "cfg");
    let key_c = CacheKey::new("c", None, "cfg");
    let big = vec![0u32; 130000];

    cache.insert(key_a, big.clone(), Vec::new());
    cache.insert(key_b, big.clone(), Vec::new());
    assert_eq!(cache.stats().num_entries, 2);

    // key_a becomes most recently used, so key_b is the next victim.
    cache.touch(&key_a);
    cache.insert(key_c, big.clone(), Vec::new());

    assert!(cache.get(&key_a).is_some());
    assert!(cache.get(&key_b).is_none());
    assert!(cache.get(&key_c).is_some());
    assert_eq!(cache.stats().num_entries, 2);
}

#[test]
fn test_oversized_entry_is_not_cached() {
    // 4 bytes per token: 300000 tokens exceed a one-megabyte budget even
    // with everything else evicted.
    let mut cache = PrefixCache::new(PrefixCacheConfig { memory_budget_mb: 1, enabled: true });
    let small = CacheKey::new("small", None, "cfg");
    cache.insert(small, vec![1, 2], Vec::new());
    let huge = CacheKey::new("huge", None, "cfg");
    cache.insert(huge, vec![0u32; 300000], Vec::new());
    assert!(cache.get(&huge).is_none());
    // The failed insert evicted the older entries first; nothing remains.
    assert_eq!(cache.stats().num_entries, 0);
}

#[test]
fn test_clear_resets_accounting() {
    let mut cache = PrefixCache::new(PrefixCacheConfig::default());
    cache.insert(CacheKey::new("p", None, "c"), vec![1, 2, 3], Vec::new());
    cache.clear();
    let stats = cache.stats();
    assert_eq!(stats.num_entries, 0);
    assert_eq!(stats.memory_used_mb, 0);
    assert_eq!(stats.memory_budget_mb, 512);
}

#[test]
fn test_hash_prompt_known_digests() {
    // First eight bytes, little-endian, of well-known SHA-256 digests.
    assert_eq!(
        hash_prompt("abc"),
        u64::from_le_bytes([0xba, 0x78, 0x16, 0xbf, 0x8f, 0x01, 0xcf, 0xea])
    );
    assert_eq!(
        hash_prompt(""),
        u64::from_le_bytes([0xe3, 0xb0, 0xc4, 0x42, 0x98, 0xfc, 0x1c, 0x14])
    );
    assert_ne!(hash_prompt("abc"), hash_prompt("abd"));
}
