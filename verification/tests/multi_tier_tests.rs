use cache_layer::cache::Cache;
use cache_layer::memory::MemoryCache;
use cache_layer::multi_tier::MultiTierCache;
use cache_layer::tier::Tier;
use std::time::{Duration, Instant};

#[test]
fn test_multi_tier_creation() {
    let cache: MultiTierCache<String, String> = MultiTierCache::new();
    assert_eq!(cache.num_tiers(), 0);
}

#[test]
fn test_multi_tier_add_tier() {
    let mut cache: MultiTierCache<String, String> = MultiTierCache::new();
    cache.add_tier(Box::new(MemoryCache::new(1024)));
    assert_eq!(cache.num_tiers(), 1);
}

#[test]
fn test_multi_tier_default() {
    let cache: MultiTierCache<String, String> = MultiTierCache::default();
    assert_eq!(cache.num_tiers(), 0);
}

#[test]
fn test_multi_tier_single_tier() {
    let mut cache: MultiTierCache<String, String> = MultiTierCache::new();
    cache.add_tier(Box::new(MemoryCache::new(1024)));

    cache.set("key".to_string(), "value".to_string()).unwrap();

    let result = cache.get(&"key".to_string()).unwrap();
    assert_eq!(result, Some("value".to_string()));
}

#[test]
fn test_multi_tier_get_miss() {
    let mut cache: MultiTierCache<String, String> = MultiTierCache::new();
    cache.add_tier(Box::new(MemoryCache::new(1024)));

    let result = cache.get(&"nonexistent".to_string()).unwrap();
    assert_eq!(result, None);
}

#[test]
fn test_multi_tier_delete() {
    let mut cache: MultiTierCache<String, String> = MultiTierCache::new();
    cache.add_tier(Box::new(MemoryCache::new(1024)));

    cache.set("key".to_string(), "value".to_string()).unwrap();

    cache.delete(&"key".to_string()).unwrap();

    let result = cache.get(&"key".to_string()).unwrap();
    assert_eq!(result, None);
}

#[test]
fn test_multi_tier_exists() {
    let mut cache: MultiTierCache<String, String> = MultiTierCache::new();
    cache.add_tier(Box::new(MemoryCache::new(1024)));

    assert!(!cache.key_exists(&"key".to_string()).unwrap());

    cache.set("key".to_string(), "value".to_string()).unwrap();

    assert!(cache.key_exists(&"key".to_string()).unwrap());
}

#[test]
fn test_multi_tier_set_with_ttl() {
    let mut cache: MultiTierCache<String, String> = MultiTierCache::new();
    cache.add_tier(Box::new(MemoryCache::new(1024)));

    cache
        .set_with_ttl(
            "key".to_string(),
            "value".to_string(),
            Duration::from_millis(1),
        )
        .unwrap();

    // Should exist immediately
    assert!(cache.key_exists(&"key".to_string()).unwrap());

    // Wait for expiration
    let start = Instant::now();
    while start.elapsed() < Duration::from_millis(10) {}

    // Should be expired
    assert!(!cache.key_exists(&"key".to_string()).unwrap());
}

#[test]
fn test_multi_tier_two_tiers() {
    let mut cache: MultiTierCache<String, String> = MultiTierCache::new();
    cache.add_tier(Box::new(MemoryCache::new(512))); // L1
    cache.add_tier(Box::new(MemoryCache::new(1024))); // L2

    assert_eq!(cache.num_tiers(), 2);

    cache.set("key".to_string(), "value".to_string()).unwrap();

    let stats = cache.stats();
    assert_eq!(stats.len(), 2);
}

#[test]
fn test_multi_tier_promotion() {
    let mut cache: MultiTierCache<String, String> = MultiTierCache::new();
    cache.add_tier(Box::new(MemoryCache::new(100))); // L1 (small)
    cache.add_tier(Box::new(MemoryCache::new(1024))); // L2 (larger)

    // Set a value
    cache.set("key".to_string(), "value".to_string()).unwrap();

    let result = cache.get(&"key".to_string()).unwrap();
    assert_eq!(result, Some("value".to_string()));

    // Verify both tiers have the value
    let stats = cache.stats();
    assert_eq!(stats[0].entries, 1); // L1 has it
    assert_eq!(stats[1].entries, 1); // L2 has it
}

#[test]
fn test_multi_tier_promotes_from_slower_tier() {
    let mut l2: MemoryCache<String, String> = MemoryCache::new(1024);
    l2.set("key".to_string(), "deep".to_string(), None).unwrap();

    let mut cache: MultiTierCache<String, String> = MultiTierCache::new();
    cache.add_tier(Box::new(MemoryCache::new(1024))); // L1, empty
    cache.add_tier(Box::new(l2)); // L2 holds the value

    let stats = cache.stats();
    assert_eq!(stats[0].entries, 0);

    assert_eq!(cache.get(&"key".to_string()).unwrap(), Some("deep".to_string()));

    let stats = cache.stats();
    assert_eq!(stats[0].entries, 1); // promoted to L1
    assert_eq!(stats[0].misses, 1);
    assert_eq!(stats[1].hits, 1);

    // the next read is an L1 hit
    assert_eq!(cache.get(&"key".to_string()).unwrap(), Some("deep".to_string()));
    let stats = cache.stats();
    assert_eq!(stats[0].hits, 1);
    assert_eq!(stats[1].hits, 1);
}

#[test]
fn test_multi_tier_set_reports_tier_failure() {
    let mut cache: MultiTierCache<u64, u64> = MultiTierCache::new();
    cache.add_tier(Box::new(MemoryCache::new(8))); // too small for any entry
    cache.add_tier(Box::new(MemoryCache::new(1024)));
    assert!(cache.set(1, 2).is_err());
    // the larger tier still took the value
    assert_eq!(cache.get(&1).unwrap(), Some(2));
}

#[test]
fn test_multi_tier_without_tiers() {
    let mut cache: MultiTierCache<u64, u64> = MultiTierCache::new();
    assert!(cache.set(1, 2).is_ok());
    assert_eq!(cache.get(&1).unwrap(), None);
    assert!(!cache.key_exists(&1).unwrap());
    assert!(cache.delete(&1).is_ok());
    assert_eq!(cache.stats().len(), 0);
}

#[test]
fn test_multi_tier_memory_miss_is_not_an_error() {
    let mut cache: MultiTierCache<u64, u64> = MultiTierCache::new();
    cache.add_tier(Box::new(MemoryCache::new(1024)));
    // memory tiers never fail a read: a miss is Ok(None)
    assert_eq!(cache.get(&9).unwrap(), None);
}

/// A tier whose every operation fails.
struct UnavailableTier;

fn unavailable() -> cache_layer::CacheError {
    cache_layer::CacheError::TierError(cache_layer::TierError::TierNotAvailable(
        "down".to_string(),
    ))
}

impl Tier<u64, u64> for UnavailableTier {
    // What the tier's contract is stated over: it holds nothing and promises nothing.
    fn well_formed(&self) -> bool {
        true
    }

    fn lookup(&self, _key: u64) -> Option<u64> {
        None
    }

    fn accepts(&self, _key: u64) -> bool {
        false
    }

    fn infallible(&self) -> bool {
        false
    }

    fn surely_present(&self, _key: u64) -> bool {
        false
    }

    fn written_ttl(&self, _key: u64) -> Option<u128> {
        None
    }

    fn spec_size(&self) -> usize {
        0
    }

    fn spec_capacity(&self) -> usize {
        0
    }

    fn spec_stats(&self) -> cache_layer::TierStats {
        cache_layer::TierStats::default()
    }

    fn get(&mut self, _key: &u64) -> Result<Option<u64>, cache_layer::CacheError> {
        Err(unavailable())
    }

    fn set(
        &mut self,
        _key: u64,
        _value: u64,
        _ttl: Option<Duration>,
    ) -> Result<(), cache_layer::CacheError> {
        Err(unavailable())
    }

    fn delete(&mut self, _key: &u64) -> Result<(), cache_layer::CacheError> {
        Err(unavailable())
    }

    fn key_exists(&self, _key: &u64) -> Result<bool, cache_layer::CacheError> {
        Err(unavailable())
    }

    fn size(&self) -> usize {
        0
    }

    fn capacity(&self) -> usize {
        0
    }

    fn clear(&mut self) -> Result<(), cache_layer::CacheError> {
        Err(unavailable())
    }

    fn stats(&self) -> cache_layer::TierStats {
        cache_layer::TierStats::default()
    }
}

#[test]
fn test_multi_tier_get_errs_only_when_every_tier_fails() {
    let mut all_down: MultiTierCache<u64, u64> = MultiTierCache::new();
    all_down.add_tier(Box::new(UnavailableTier));
    all_down.add_tier(Box::new(UnavailableTier));
    assert!(all_down.get(&1).is_err());

    let mut one_down: MultiTierCache<u64, u64> = MultiTierCache::new();
    one_down.add_tier(Box::new(UnavailableTier));
    one_down.add_tier(Box::new(MemoryCache::new(1024)));
    // the memory tier answered: a miss, not an error
    assert_eq!(one_down.get(&1).unwrap(), None);
}

#[test]
fn test_multi_tier_failing_tier_does_not_hide_a_value() {
    let mut l2: MemoryCache<u64, u64> = MemoryCache::new(1024);
    l2.set(7, 70, None).unwrap();
    let mut cache: MultiTierCache<u64, u64> = MultiTierCache::new();
    cache.add_tier(Box::new(UnavailableTier));
    cache.add_tier(Box::new(l2));
    assert_eq!(cache.get(&7).unwrap(), Some(70));
    assert!(cache.key_exists(&7).unwrap());
}

#[test]
fn test_multi_tier_writes_reach_tiers_after_a_failure() {
    let mut cache: MultiTierCache<u64, u64> = MultiTierCache::new();
    cache.add_tier(Box::new(UnavailableTier));
    cache.add_tier(Box::new(MemoryCache::new(1024)));
    let result = cache.set(3, 30);
    assert!(matches!(
        result,
        Err(cache_layer::CacheError::TierError(cache_layer::TierError::TierNotAvailable(_)))
    ));
    // the tier after the failing one was still written
    assert_eq!(cache.stats()[1].entries, 1);
    assert!(cache.key_exists(&3).unwrap());
    assert!(cache.delete(&3).is_err());
    assert_eq!(cache.stats()[1].entries, 0);
}

#[test]
fn test_multi_tier_last_failing_tier_error_is_returned() {
    let mut cache: MultiTierCache<u64, u64> = MultiTierCache::new();
    cache.add_tier(Box::new(UnavailableTier));
    cache.add_tier(Box::new(MemoryCache::new(8))); // too small for any entry
    let result = cache.set(1, 1);
    assert!(matches!(
        result,
        Err(cache_layer::CacheError::TierError(cache_layer::TierError::CapacityExceeded {
            size: 16,
            max: 8
        }))
    ));
}

#[test]
fn test_multi_tier_promotes_into_a_full_tier() {
    // L1 has room for one entry of 16 bytes and already holds one
    let mut l1: MemoryCache<u64, u64> = MemoryCache::new(16);
    l1.set(5, 50, None).unwrap();
    let mut l2: MemoryCache<u64, u64> = MemoryCache::new(1024);
    l2.set(7, 70, None).unwrap();

    let mut cache: MultiTierCache<u64, u64> = MultiTierCache::new();
    cache.add_tier(Box::new(l1));
    cache.add_tier(Box::new(l2));

    assert_eq!(cache.get(&7).unwrap(), Some(70));
    let stats = cache.stats();
    // promoted into L1, evicting its previous entry to make room
    assert_eq!(stats[0].entries, 1);
    assert_eq!(stats[0].evictions, 1);
    assert_eq!(cache.get(&7).unwrap(), Some(70));
    assert_eq!(cache.stats()[0].hits, 1);
}
