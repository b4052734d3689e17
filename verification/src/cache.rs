//! Cache trait for high-level cache operations.

use std::time::Duration;
use vstd::prelude::*;

use crate::error::CacheError;
use crate::key::CacheKey;

verus! {

/// High-level cache interface
///
/// Provides simple get/set/delete operations that work across all tiers. Its
/// contract is stated over which layers hold which values.
pub trait Cache<K: CacheKey, V: Clone>: Send + Sync {
    /// The cache's internal invariant.
    spec fn well_formed(&self) -> bool;

    /// Some layer of the cache holds `value` for `key`.
    spec fn holds(&self, key: K::V, value: V) -> bool;

    /// Every layer of the cache holds a clone of `value` for `key`.
    spec fn stores(&self, key: K::V, value: V) -> bool;

    /// No layer of the cache holds anything for `key`.
    spec fn absent(&self, key: K::V) -> bool;

    /// Retrieve a value, searching all tiers; a value returned is a clone of a
    /// value some tier held. A miss answers `Ok(None)`, and an error comes
    /// back only when every tier failed.
    fn get(&mut self, key: &K) -> (found: Result<Option<V>, CacheError>)
        requires
            old(self).well_formed(),
        ensures
            final(self).well_formed(),
            found matches Ok(Some(v)) ==> exists|held: V|
                #[trigger] old(self).holds(key@, held) && cloned::<V>(held, v),
    ;

    /// Store a value in all tiers.
    fn set(&mut self, key: K, value: V) -> (done: Result<(), CacheError>)
        requires
            old(self).well_formed(),
        ensures
            final(self).well_formed(),
            done is Ok ==> final(self).stores(key@, value),
    ;

    /// Remove a value from all tiers.
    fn delete(&mut self, key: &K) -> (done: Result<(), CacheError>)
        requires
            old(self).well_formed(),
        ensures
            final(self).well_formed(),
            done is Ok ==> final(self).absent(key@),
    ;

    /// Check if a key exists in any tier.
    fn key_exists(&self, key: &K) -> (present: Result<bool, CacheError>)
        requires
            self.well_formed(),
        ensures
            present matches Ok(true) ==> !self.absent(key@),
    ;

    /// Set with time-to-live.
    fn set_with_ttl(&mut self, key: K, value: V, ttl: Duration) -> (done: Result<(), CacheError>)
        requires
            old(self).well_formed(),
        ensures
            final(self).well_formed(),
            done is Ok ==> final(self).stores(key@, value),
    ;
}

} // verus!
