use cache_layer::eviction::{EvictionPolicy, LFU, LRU};

// LRU Tests
#[test]
fn test_lru_creation() {
    let lru: LRU<&str> = LRU::new(10);
    assert_eq!(lru.capacity(), 10);
    assert_eq!(lru.size(), 0);
}

#[test]
fn test_lru_insert() {
    let mut lru: LRU<&str> = LRU::new(3);
    lru.on_insert("a");
    lru.on_insert("b");
    lru.on_insert("c");
    assert_eq!(lru.size(), 3);
}

#[test]
fn test_lru_access() {
    let mut lru: LRU<&str> = LRU::new(3);
    lru.on_insert("a");
    lru.on_insert("b");
    lru.on_insert("c");
    lru.on_access(&"a"); // Access 'a'

    // Eviction order: b, c, a
    assert_eq!(lru.evict(), Some("b"));
    assert_eq!(lru.evict(), Some("c"));
    assert_eq!(lru.evict(), Some("a"));
}

#[test]
fn test_lru_evict() {
    let mut lru: LRU<&str> = LRU::new(3);
    lru.on_insert("a");
    lru.on_insert("b");
    assert_eq!(lru.evict(), Some("a")); // 'a' is least recent
    assert_eq!(lru.size(), 1);
}

#[test]
fn test_lru_reset() {
    let mut lru: LRU<&str> = LRU::new(3);
    lru.on_insert("a");
    lru.on_insert("b");
    lru.reset();
    assert_eq!(lru.size(), 0);
}

// LFU Tests
#[test]
fn test_lfu_creation() {
    let lfu: LFU<&str> = LFU::new(10);
    assert_eq!(lfu.capacity(), 10);
    assert_eq!(lfu.size(), 0);
}

#[test]
fn test_lfu_insert() {
    let mut lfu: LFU<&str> = LFU::new(3);
    lfu.on_insert("a");
    lfu.on_insert("b");
    assert_eq!(lfu.size(), 2);
    assert_eq!(lfu.get_count(&"a"), 1);
}

#[test]
fn test_lfu_access() {
    let mut lfu: LFU<&str> = LFU::new(3);
    lfu.on_insert("a");
    lfu.on_access(&"a");
    lfu.on_access(&"a");
    assert_eq!(lfu.get_count(&"a"), 3); // insert + 2 accesses
}

#[test]
fn test_lfu_evict() {
    let mut lfu: LFU<&str> = LFU::new(3);
    lfu.on_insert("a");
    lfu.on_insert("b");
    lfu.on_insert("c");

    lfu.on_access(&"a");
    lfu.on_access(&"a"); // a: 3 accesses
    lfu.on_access(&"b"); // b: 2 accesses
                        // c: 1 access (least frequent)

    assert_eq!(lfu.evict(), Some("c"));
}

#[test]
fn test_lfu_reset() {
    let mut lfu: LFU<&str> = LFU::new(3);
    lfu.on_insert("a");
    lfu.reset();
    assert_eq!(lfu.size(), 0);
}

#[test]
fn test_lfu_clone() {
    let mut lfu: LFU<&str> = LFU::new(3);
    lfu.on_insert("a");
    lfu.on_insert("b");

    let mut cloned = lfu.clone_box();
    assert!(cloned.evict().is_some() || cloned.evict().is_none());
}

#[test]
fn test_lru_empty_evict_is_none() {
    let mut lru: LRU<u64> = LRU::new(2);
    assert_eq!(lru.evict(), None);
    assert_eq!(lru.size(), 0);
}

#[test]
fn test_lru_reinsert_moves_key_to_back() {
    let mut lru: LRU<String> = LRU::new(4);
    lru.on_insert("x".to_string());
    lru.on_insert("y".to_string());
    lru.on_insert("x".to_string());
    assert_eq!(lru.size(), 2);
    assert_eq!(lru.evict(), Some("y".to_string()));
    assert_eq!(lru.evict(), Some("x".to_string()));
    assert_eq!(lru.evict(), None);
}

#[test]
fn test_lru_access_of_unknown_key_tracks_it() {
    let mut lru: LRU<u32> = LRU::new(4);
    lru.on_access(&7);
    assert_eq!(lru.size(), 1);
    assert_eq!(lru.evict(), Some(7));
}

#[test]
fn test_lru_clone_box_keeps_order() {
    let mut lru: LRU<&str> = LRU::new(3);
    lru.on_insert("a");
    lru.on_insert("b");
    let mut copy = lru.clone_box();
    assert_eq!(copy.capacity(), 3);
    assert_eq!(copy.evict(), Some("a"));
    assert_eq!(copy.evict(), Some("b"));
    assert_eq!(lru.size(), 2);
}

#[test]
fn test_lfu_empty_evict_is_none() {
    let mut lfu: LFU<u64> = LFU::new(2);
    assert_eq!(lfu.evict(), None);
}

#[test]
fn test_lfu_insert_resets_count() {
    let mut lfu: LFU<&str> = LFU::new(3);
    lfu.on_insert("a");
    lfu.on_access(&"a");
    lfu.on_access(&"a");
    assert_eq!(lfu.get_count(&"a"), 3);
    lfu.on_insert("a");
    assert_eq!(lfu.get_count(&"a"), 1);
    assert_eq!(lfu.size(), 1);
}

#[test]
fn test_lfu_access_of_unknown_key_counts_one() {
    let mut lfu: LFU<&str> = LFU::new(3);
    lfu.on_access(&"z");
    assert_eq!(lfu.get_count(&"z"), 1);
    assert_eq!(lfu.get_count(&"missing"), 0);
}

#[test]
fn test_lfu_evicts_in_frequency_order() {
    let mut lfu: LFU<u64> = LFU::new(3);
    lfu.on_insert(1);
    lfu.on_insert(2);
    lfu.on_insert(3);
    lfu.on_access(&1);
    lfu.on_access(&1);
    lfu.on_access(&3);
    assert_eq!(lfu.evict(), Some(2));
    assert_eq!(lfu.evict(), Some(3));
    assert_eq!(lfu.evict(), Some(1));
    assert_eq!(lfu.evict(), None);
    assert_eq!(lfu.get_count(&1), 0);
}

#[test]
fn test_lfu_clone_box_keeps_counts() {
    let mut lfu: LFU<&str> = LFU::new(3);
    lfu.on_insert("a");
    lfu.on_access(&"a");
    let copy = lfu.clone_box();
    assert_eq!(copy.get_count(&"a"), 2);
    assert_eq!(copy.capacity(), 3);
    assert_eq!(copy.size(), 1);
}

#[test]
fn test_lru_capacity_bounds_tracked_keys() {
    let mut lru: LRU<u64> = LRU::new(2);
    lru.on_insert(1);
    lru.on_insert(2);
    lru.on_insert(3); // full: 1, the least recently used, is dropped
    assert_eq!(lru.size(), 2);
    assert_eq!(lru.evict(), Some(2));
    assert_eq!(lru.evict(), Some(3));
    assert_eq!(lru.evict(), None);
}

#[test]
fn test_lru_capacity_one() {
    let mut lru: LRU<&str> = LRU::new(1);
    lru.on_insert("a");
    lru.on_insert("b");
    assert_eq!(lru.size(), 1);
    assert!(lru.size() <= lru.capacity());
    assert_eq!(lru.evict(), Some("b"));
}

#[test]
fn test_lfu_capacity_bounds_tracked_keys() {
    let mut lfu: LFU<u64> = LFU::new(2);
    lfu.on_insert(1);
    lfu.on_insert(2);
    lfu.on_access(&1); // 1 is counted twice, 2 once
    lfu.on_insert(3); // full: 2, the least frequently used, is dropped
    assert_eq!(lfu.size(), 2);
    assert!(lfu.size() <= lfu.capacity());
    assert_eq!(lfu.get_count(&1), 2);
    assert_eq!(lfu.get_count(&2), 0);
    assert_eq!(lfu.get_count(&3), 1);
    assert_eq!(lfu.evict(), Some(3));
    assert_eq!(lfu.evict(), Some(1));
    assert_eq!(lfu.evict(), None);
}
