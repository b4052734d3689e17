use cache_layer::tier::TierStats;
use cache_layer::{default_ttl, DEFAULT_CAPACITY, DEFAULT_TTL_SECS, MAX_KEY_LENGTH};

#[test]
fn test_constants() {
    assert_eq!(default_ttl().as_secs(), 300);
    assert_eq!(DEFAULT_TTL_SECS, 300);
    assert_eq!(DEFAULT_CAPACITY, 1024 * 1024);
    assert_eq!(MAX_KEY_LENGTH, 256);
}

#[test]
fn test_tier_stats_total_requests() {
    let stats = TierStats {
        hits: 80,
        misses: 20,
        ..Default::default()
    };
    assert_eq!(stats.total_requests(), 100);
}

#[test]
fn test_tier_stats_default_is_zero() {
    let stats = TierStats::default();
    assert_eq!(stats.hits, 0);
    assert_eq!(stats.misses, 0);
    assert_eq!(stats.evictions, 0);
    assert_eq!(stats.size_bytes, 0);
    assert_eq!(stats.capacity_bytes, 0);
    assert_eq!(stats.entries, 0);
    assert_eq!(stats.total_requests(), 0);
}
