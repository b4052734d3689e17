use cache_layer::eviction::{LFU, LRU};
use cache_layer::memory::MemoryCache;
use cache_layer::tier::Tier;
use cache_layer::{CacheError, TierError};
use std::time::Duration;

#[test]
fn test_memory_cache_creation() {
    let cache = MemoryCache::<String, String>::new(1024);
    assert_eq!(cache.capacity(), 1024);
    assert_eq!(cache.size(), 0);
}

#[test]
fn test_memory_cache_set_get() {
    let mut cache = MemoryCache::new(1024);

    cache
        .set("key".to_string(), "value".to_string(), None)
        .unwrap();

    let result = cache.get(&"key".to_string()).unwrap();
    assert_eq!(result, Some("value".to_string()));
}

#[test]
fn test_memory_cache_get_miss() {
    let mut cache: MemoryCache<String, String> = MemoryCache::new(1024);
    let result = cache.get(&"nonexistent".to_string()).unwrap();
    assert_eq!(result, None);
}

#[test]
fn test_memory_cache_delete() {
    let mut cache = MemoryCache::new(1024);

    cache
        .set("key".to_string(), "value".to_string(), None)
        .unwrap();

    cache.delete(&"key".to_string()).unwrap();
    let result = cache.get(&"key".to_string()).unwrap();
    assert_eq!(result, None);
}

#[test]
fn test_memory_cache_exists() {
    let mut cache = MemoryCache::new(1024);

    assert!(!cache.key_exists(&"key".to_string()).unwrap());

    cache
        .set("key".to_string(), "value".to_string(), None)
        .unwrap();

    assert!(cache.key_exists(&"key".to_string()).unwrap());
}

#[test]
fn test_memory_cache_clear() {
    let mut cache = MemoryCache::new(1024);

    cache
        .set("key1".to_string(), "value1".to_string(), None)
        .unwrap();
    cache
        .set("key2".to_string(), "value2".to_string(), None)
        .unwrap();

    cache.clear().unwrap();

    assert_eq!(cache.get(&"key1".to_string()).unwrap(), None);
    assert_eq!(cache.get(&"key2".to_string()).unwrap(), None);
    assert_eq!(cache.size(), 0);
}

#[test]
fn test_memory_cache_stats() {
    let mut cache = MemoryCache::new(1024);

    cache
        .set("key".to_string(), "value".to_string(), None)
        .unwrap();

    cache.get(&"key".to_string()).unwrap(); // Hit
    cache.get(&"nonexistent".to_string()).unwrap(); // Miss

    let stats = cache.stats();
    assert_eq!(stats.hits, 1);
    assert_eq!(stats.misses, 1);
    assert_eq!(stats.hits as f64 / stats.total_requests() as f64, 0.5);
}

#[test]
fn test_memory_cache_ttl() {
    let mut cache: MemoryCache<String, String> = MemoryCache::new(1024);

    // Set with 1ms TTL, at time 0
    cache
        .set_at("key".to_string(), "value".to_string(), Some(1_000_000), 0)
        .unwrap();

    // Should exist immediately
    assert!(cache.exists_at(&"key".to_string(), 0));

    // 10ms later it has expired
    assert!(!cache.exists_at(&"key".to_string(), 10_000_000));
    assert_eq!(cache.get_at(&"key".to_string(), 10_000_000).unwrap(), None);
}

#[test]
fn test_memory_cache_update() {
    let mut cache = MemoryCache::new(1024);

    cache
        .set("key".to_string(), "value1".to_string(), None)
        .unwrap();

    cache
        .set("key".to_string(), "value2".to_string(), None)
        .unwrap();

    let result = cache.get(&"key".to_string()).unwrap();
    assert_eq!(result, Some("value2".to_string()));
}

#[test]
fn test_memory_cache_with_policy() {
    let cache: MemoryCache<String, String> = MemoryCache::with_policy(1024, LRU::new(10));
    assert_eq!(cache.capacity(), 1024);
}

#[test]
fn test_memory_cache_with_lfu_policy() {
    let mut cache: MemoryCache<u64, u64, LFU<u64>> = MemoryCache::with_policy(32, LFU::new(10));
    // each entry is charged 16 bytes: room for two
    cache.set(1, 10, None).unwrap();
    cache.set(2, 20, None).unwrap();
    assert_eq!(cache.get(&1).unwrap(), Some(10));
    // key 2 is the least frequently used: it is evicted
    cache.set(3, 30, None).unwrap();
    assert_eq!(cache.get(&2).unwrap(), None);
    assert_eq!(cache.get(&1).unwrap(), Some(10));
    assert_eq!(cache.get(&3).unwrap(), Some(30));
    assert_eq!(cache.stats().evictions, 1);
}

#[test]
fn test_memory_cache_lru_eviction_order() {
    let mut cache: MemoryCache<u64, u64> = MemoryCache::new(32);
    cache.set(1, 10, None).unwrap();
    cache.set(2, 20, None).unwrap();
    assert_eq!(cache.size(), 32);
    // touch 1, so 2 is the least recently used
    assert_eq!(cache.get(&1).unwrap(), Some(10));
    cache.set(3, 30, None).unwrap();
    assert_eq!(cache.get(&2).unwrap(), None);
    assert_eq!(cache.get(&1).unwrap(), Some(10));
    assert_eq!(cache.get(&3).unwrap(), Some(30));
    assert_eq!(cache.size(), 32);
    assert_eq!(cache.stats().entries, 2);
    assert_eq!(cache.stats().evictions, 1);
}

#[test]
fn test_memory_cache_capacity_exceeded() {
    // an entry of two u64 is charged 16 bytes, more than the capacity
    let mut cache: MemoryCache<u64, u64> = MemoryCache::new(8);
    let result = cache.set(1, 10, None);
    assert!(matches!(
        result,
        Err(CacheError::TierError(TierError::CapacityExceeded { size: 16, max: 8 }))
    ));
    assert_eq!(cache.get(&1).unwrap(), None);
    assert_eq!(cache.size(), 0);
}

#[test]
fn test_memory_cache_entry_size_and_stats() {
    let mut cache: MemoryCache<String, String> = MemoryCache::new(1024);
    cache.set("a".to_string(), "b".to_string(), None).unwrap();
    assert_eq!(cache.size(), 48);
    let stats = cache.stats();
    assert_eq!(stats.entries, 1);
    assert_eq!(stats.size_bytes, 48);
    assert_eq!(stats.capacity_bytes, 1024);
    cache.set("a".to_string(), "c".to_string(), None).unwrap();
    assert_eq!(cache.stats().entries, 1);
    assert_eq!(cache.size(), 48);
    cache.delete(&"a".to_string()).unwrap();
    assert_eq!(cache.stats().entries, 0);
    assert_eq!(cache.size(), 0);
}

#[test]
fn test_memory_cache_expired_get_is_a_miss() {
    let mut cache: MemoryCache<u64, u64> = MemoryCache::new(1024);
    cache.set_at(5, 50, Some(100), 1_000).unwrap();
    assert_eq!(cache.get_at(&5, 1_100).unwrap(), Some(50));
    assert_eq!(cache.get_at(&5, 1_101).unwrap(), None);
    let stats = cache.stats();
    assert_eq!(stats.hits, 1);
    assert_eq!(stats.misses, 1);
    // the expired entry is gone, with its bytes and its count
    assert_eq!(cache.size(), 0);
    assert_eq!(stats.entries, 0);
    assert_eq!(stats.size_bytes, 0);
}

#[test]
fn test_memory_cache_no_ttl_never_expires() {
    let mut cache: MemoryCache<u64, u64> = MemoryCache::new(1024);
    cache.set_at(1, 2, None, 0).unwrap();
    assert!(cache.exists_at(&1, u128::MAX));
    assert_eq!(cache.get_at(&1, u128::MAX).unwrap(), Some(2));
}

#[test]
fn test_memory_cache_long_ttl() {
    let mut cache: MemoryCache<u64, u64> = MemoryCache::new(1024);
    cache.set(1, 2, Some(Duration::from_secs(3600))).unwrap();
    assert!(cache.key_exists(&1).unwrap());
    assert_eq!(cache.get(&1).unwrap(), Some(2));
}

#[test]
fn test_memory_cache_capacity_exceeded_leaves_cache_unchanged() {
    let mut cache: MemoryCache<u64, u64> = MemoryCache::new(10);
    let result = cache.set(1, 1, None);
    assert!(matches!(
        result,
        Err(CacheError::TierError(TierError::CapacityExceeded { size: 16, max: 10 }))
    ));
    assert_eq!(cache.size(), 0);
    assert!(!cache.key_exists(&1).unwrap());
    assert!(result.unwrap_err().to_string().contains("Capacity exceeded"));
}

#[test]
fn test_memory_cache_evicts_only_until_the_entry_fits() {
    // room for three entries of 16 bytes
    let mut cache: MemoryCache<u64, u64> = MemoryCache::new(48);
    cache.set(1, 10, None).unwrap();
    cache.set(2, 20, None).unwrap();
    cache.set(3, 30, None).unwrap();
    cache.set(4, 40, None).unwrap();
    assert_eq!(cache.stats().evictions, 1);
    assert_eq!(cache.stats().entries, 3);
    assert_eq!(cache.size(), 48);
    assert_eq!(cache.get(&1).unwrap(), None);
    assert_eq!(cache.get(&2).unwrap(), Some(20));
    assert_eq!(cache.get(&3).unwrap(), Some(30));
    assert_eq!(cache.get(&4).unwrap(), Some(40));
}

#[test]
fn test_memory_cache_lfu_evicts_least_frequent() {
    let mut cache: MemoryCache<u64, u64, LFU<u64>> = MemoryCache::with_policy(32, LFU::new(100));
    cache.set(1, 10, None).unwrap();
    cache.set(2, 20, None).unwrap();
    assert_eq!(cache.get(&1).unwrap(), Some(10));
    assert_eq!(cache.get(&1).unwrap(), Some(10));
    cache.set(3, 30, None).unwrap();
    assert_eq!(cache.get(&2).unwrap(), None);
    assert_eq!(cache.get(&1).unwrap(), Some(10));
    assert_eq!(cache.get(&3).unwrap(), Some(30));
}

#[test]
fn test_memory_cache_full_tier_accepts_by_evicting() {
    let mut cache: MemoryCache<u64, u64> = MemoryCache::new(32);
    cache.set(1, 10, None).unwrap();
    cache.set(2, 20, None).unwrap();
    // full, but every stored key is tracked: the write evicts and succeeds
    assert!(cache.set(3, 30, None).is_ok());
    assert_eq!(cache.stats().entries, 2);
    assert_eq!(cache.get(&1).unwrap(), None);
}
