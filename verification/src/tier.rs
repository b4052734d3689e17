//! Cache tiers: single layers (memory, Redis, disk) that can be composed into
//! a multi-tier cache hierarchy.

use std::time::Duration;
use vstd::prelude::*;

use crate::clock::ttl_nanos;
use crate::error::CacheError;
use crate::key::CacheKey;

verus! {

/// Statistics for a cache tier
#[derive(Debug, Clone, Copy)]
pub struct TierStats {
    /// Number of cache hits
    pub hits: u64,
    /// Number of cache misses
    pub misses: u64,
    /// Number of evictions
    pub evictions: u64,
    /// Current size in bytes
    pub size_bytes: usize,
    /// Maximum capacity in bytes
    pub capacity_bytes: usize,
    /// Number of entries
    pub entries: usize,
}

impl Default for TierStats {
    fn default() -> (stats: Self)
        ensures
            stats.hits == 0,
            stats.misses == 0,
            stats.evictions == 0,
            stats.size_bytes == 0,
            stats.capacity_bytes == 0,
            stats.entries == 0,
    {
        TierStats { hits: 0, misses: 0, evictions: 0, size_bytes: 0, capacity_bytes: 0, entries: 0 }
    }
}

impl TierStats {
    /// Get total number of requests: hits plus misses.
    pub fn total_requests(&self) -> (total: u64)
        requires
            self.hits + self.misses <= u64::MAX,
        ensures
            total == self.hits + self.misses,
    {
        self.hits + self.misses
    }
}

/// Individual cache tier
///
/// Represents a single layer in the cache hierarchy (e.g., memory, Redis, disk).
/// Its contract is stated over `lookup`, the value the tier holds for a key.
pub trait Tier<K: CacheKey, V: Clone>: Send + Sync {
    /// The tier's internal invariant.
    spec fn well_formed(&self) -> bool;

    /// The value this tier holds for `key`, if any.
    spec fn lookup(&self, key: K::V) -> Option<V>;

    /// A write of `key` is sure to succeed.
    spec fn accepts(&self, key: K::V) -> bool;

    /// Reads, existence checks, deletions and clears on this tier are sure to succeed.
    spec fn infallible(&self) -> bool;

    /// The tier holds `key` in a way that an existence check is sure to report
    /// (for example an entry without a deadline).
    spec fn surely_present(&self, key: K::V) -> bool;

    /// The time-to-live, in nanoseconds, that the value held for `key` was
    /// written with (None: no limit).
    spec fn written_ttl(&self, key: K::V) -> Option<u128>;

    /// Current size in bytes.
    spec fn spec_size(&self) -> usize;

    /// Maximum capacity in bytes.
    spec fn spec_capacity(&self) -> usize;

    /// Current hit/miss statistics.
    spec fn spec_stats(&self) -> TierStats;

    /// Retrieve from this tier only: a value returned is a clone of the value
    /// held, a key held surely present is served, and after a miss the tier
    /// holds nothing for the key; a read leaves the other keys' values
    /// unchanged, and after a miss a write of the key that was sure to succeed
    /// still is.
    fn get(&mut self, key: &K) -> (found: Result<Option<V>, CacheError>)
        requires
            old(self).well_formed(),
        ensures
            final(self).well_formed(),
            final(self).spec_capacity() == old(self).spec_capacity(),
            final(self).infallible() == old(self).infallible(),
            old(self).infallible() ==> found is Ok,
            !(found matches Ok(Some(_))) && old(self).accepts(key@) ==> final(self).accepts(key@),
            old(self).surely_present(key@) ==> found matches Ok(Some(_)),
            found matches Ok(Some(v)) ==> old(self).lookup(key@) matches Some(held) && cloned::<
                V,
            >(held, v),
            found matches Ok(None) ==> final(self).lookup(key@) is None,
            forall|k: K::V| k != key@ ==> #[trigger] final(self).lookup(k) == old(self).lookup(k),
    ;

    /// Store in this tier only; after success the tier holds `value` for `key`,
    /// written with time-to-live `ttl` (surely present when there is none),
    /// and after a failure it holds the previous value or nothing. Another key
    /// keeps its value unless the write made room by dropping it.
    fn set(&mut self, key: K, value: V, ttl: Option<Duration>) -> (done: Result<(), CacheError>)
        requires
            old(self).well_formed(),
        ensures
            final(self).well_formed(),
            final(self).spec_capacity() == old(self).spec_capacity(),
            final(self).infallible() == old(self).infallible(),
            old(self).accepts(key@) ==> done is Ok,
            done is Ok ==> final(self).lookup(key@) == Some(value),
            done is Ok ==> final(self).written_ttl(key@) == ttl_nanos(ttl),
            done is Ok && ttl is None ==> final(self).surely_present(key@),
            forall|k: K::V|
                k != key@ ==> #[trigger] final(self).lookup(k) == old(self).lookup(k)
                    || final(self).lookup(k) is None,
            done is Err ==> final(self).lookup(key@) is None || final(self).lookup(key@) == old(
                self,
            ).lookup(key@),
    ;

    /// Remove from this tier; after success the tier holds nothing for `key`,
    /// and the other keys keep their values.
    fn delete(&mut self, key: &K) -> (done: Result<(), CacheError>)
        requires
            old(self).well_formed(),
        ensures
            final(self).well_formed(),
            final(self).spec_capacity() == old(self).spec_capacity(),
            final(self).infallible() == old(self).infallible(),
            old(self).infallible() ==> done is Ok,
            done is Ok ==> final(self).lookup(key@) is None,
            forall|k: K::V| k != key@ ==> #[trigger] final(self).lookup(k) == old(self).lookup(k),
    ;

    /// Check if key exists in this tier: `true` only when the tier holds a value
    /// for it, and surely `true` when it holds the key in a way it is sure to report.
    fn key_exists(&self, key: &K) -> (present: Result<bool, CacheError>)
        requires
            self.well_formed(),
        ensures
            self.infallible() ==> present is Ok,
            self.surely_present(key@) ==> present == Ok::<bool, CacheError>(true),
            present matches Ok(true) ==> self.lookup(key@) is Some,
    ;

    /// Current size in bytes
    fn size(&self) -> (bytes: usize)
        ensures
            bytes == self.spec_size(),
    ;

    /// Maximum capacity in bytes
    fn capacity(&self) -> (bytes: usize)
        ensures
            bytes == self.spec_capacity(),
    ;

    /// Clear all entries from this tier; after success the tier holds nothing.
    fn clear(&mut self) -> (done: Result<(), CacheError>)
        requires
            old(self).well_formed(),
        ensures
            final(self).well_formed(),
            final(self).spec_capacity() == old(self).spec_capacity(),
            final(self).infallible() == old(self).infallible(),
            old(self).infallible() ==> done is Ok,
            done is Ok ==> forall|k: K::V| #[trigger] final(self).lookup(k) is None,
    ;

    /// Get hit/miss statistics
    fn stats(&self) -> (stats: TierStats)
        ensures
            stats == self.spec_stats(),
    ;
}

} // verus!
