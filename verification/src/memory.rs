//! In-memory cache tier implementation.
//!
//! Entries live in a key table; a pluggable eviction policy chooses which
//! entries leave when the byte capacity would be exceeded, and each entry may
//! carry a deadline after which it is expired.

use std::time::{Duration, Instant};
use vstd::prelude::*;

use crate::clock::{clock_now, duration_as_nanos, elapsed_since, nanos_of, ttl_nanos};
use crate::error::{CacheError, TierError};
use crate::eviction::{evicted_in_turn, key_view, EvictionPolicy, LRU};
use crate::key::CacheKey;
use crate::table::KeyTable;
use crate::tier::{Tier, TierStats};

verus! {

/// Cached value with metadata
pub struct CachedValue<V> {
    /// The cached value
    pub value: V,
    /// Time-to-live in nanoseconds it was written with (None = no limit)
    pub ttl: Option<u128>,
    /// Deadline in nanoseconds on the tier's clock (None = no expiration)
    pub expires_at: Option<u128>,
    /// Size in bytes
    pub size_bytes: usize,
    /// Last access time in nanoseconds on the tier's clock
    pub last_access: u128,
}

impl<V> CachedValue<V> {
    /// Whether the value has expired at time `now`: it has a deadline and `now` is past it.
    pub open spec fn expired_at(&self, now: u128) -> bool {
        match self.expires_at {
            Some(deadline) => now > deadline,
            None => false,
        }
    }

    /// Check if the value has expired at time `now`.
    pub fn is_expired(&self, now: u128) -> (expired: bool)
        ensures
            expired == self.expired_at(now),
    {
        match self.expires_at {
            Some(deadline) => now > deadline,
            None => false,
        }
    }
}

/// The deadline of a value written at `now` with time-to-live `ttl` (in
/// nanoseconds): `now + ttl`, or no deadline when there is no time-to-live or
/// the sum does not fit the clock's range.
pub open spec fn deadline(now: u128, ttl: Option<u128>) -> Option<u128> {
    match ttl {
        Some(t) => if now + t <= u128::MAX {
            Some((now + t) as u128)
        } else {
            None
        },
        None => None,
    }
}

/// The time a tier reads from its clock: the clock's `reading`, or the tier's
/// latest time `floor` when the reading is earlier (the clock is monotonic, so
/// this only guards against going back).
pub open spec fn clock_reading(reading: Duration, floor: u128) -> u128 {
    if duration_as_nanos(reading) < floor {
        floor
    } else {
        duration_as_nanos(reading)
    }
}

/// One more, held at the maximum.
pub open spec fn count_up(x: u64) -> u64 {
    if x < u64::MAX {
        (x + 1) as u64
    } else {
        x
    }
}

/// `x + n`, held at the maximum.
pub open spec fn count_up_by(x: u64, n: int) -> u64 {
    if x + n <= u64::MAX {
        (x + n) as u64
    } else {
        u64::MAX
    }
}

/// The bytes charged for one entry of a `MemoryCache<K, V, _>`.
pub open spec fn entry_size<K, V>() -> nat {
    vstd::layout::size_of::<K>() + vstd::layout::size_of::<V>()
}

/// `(n + 1) * e == n * e + e`.
proof fn lemma_mul_succ(n: int, e: int)
    ensures
        (n + 1) * e == n * e + e,
        n >= 0 && e >= 0 ==> n * e >= 0,
{
    assert((n + 1) * e == n * e + e) by (nonlinear_arith);
    assert(n >= 0 && e >= 0 ==> n * e >= 0) by (nonlinear_arith);
}

/// In-memory cache tier.
///
/// Holds at most `capacity` bytes of entries, charging each entry the size of
/// its key and value types; when a new entry would not fit, entries chosen by
/// the eviction policy `P` are removed first.
pub struct MemoryCache<K, V, P = LRU<K>> {
    /// The stored entries
    entries: KeyTable<K, CachedValue<V>>,
    /// Eviction policy
    eviction_policy: P,
    /// Maximum capacity in bytes
    capacity_bytes: usize,
    /// Current size in bytes
    size_bytes: usize,
    /// Statistics
    stats: TierStats,
    /// Origin of the tier's clock
    epoch: Instant,
    /// The latest time, in nanoseconds since `epoch`, at which the tier read
    /// or wrote through its clock
    latest_time: u128,
}

impl<K: CacheKey, V, P: EvictionPolicy<K>> MemoryCache<K, V, P> {
    /// The stored entries by key.
    pub closed spec fn contents(&self) -> Map<K::V, CachedValue<V>> {
        self.entries.map()
    }

    /// The eviction policy.
    pub closed spec fn policy(&self) -> P {
        self.eviction_policy
    }

    /// Bytes currently charged.
    pub closed spec fn spec_size_bytes(&self) -> usize {
        self.size_bytes
    }

    /// Maximum capacity in bytes.
    pub closed spec fn spec_capacity_bytes(&self) -> usize {
        self.capacity_bytes
    }

    /// Hit/miss statistics.
    pub closed spec fn spec_tier_stats(&self) -> TierStats {
        self.stats
    }

    /// The latest time, in nanoseconds on the tier's clock, at which the tier
    /// read or wrote through its clock (0 when it has not yet).
    pub closed spec fn clock_time(&self) -> u128 {
        self.latest_time
    }

    /// The value served for `key` at time `now`: the stored value, unless the
    /// entry is missing or expired.
    pub open spec fn fresh(&self, key: K::V, now: u128) -> Option<V> {
        if self.contents().contains_key(key) && !self.contents()[key].expired_at(now) {
            Some(self.contents()[key].value)
        } else {
            None
        }
    }

    /// The tier's invariant: the table and policy are well formed and the
    /// policy tracks finitely many keys; every entry is charged
    /// `entry_size`, and one written without a time-to-live has no deadline;
    /// the charged bytes are the sum over the stored entries and stay within
    /// the capacity; the statistics count the stored entries and bytes.
    pub closed spec fn mem_well_formed(&self) -> bool {
        &&& self.entries.well_formed()
        &&& self.eviction_policy.well_formed()
        &&& self.eviction_policy.candidates().finite()
        &&& self.capacity_bytes > 0
        &&& entry_size::<K, V>() <= usize::MAX
        &&& forall|k: K::V| #[trigger] self.contents().contains_key(k)
            ==> self.contents()[k].size_bytes == entry_size::<K, V>()
        &&& forall|k: K::V| #[trigger] self.contents().contains_key(k)
            && self.contents()[k].ttl is None ==> self.contents()[k].expires_at is None
        &&& self.size_bytes == self.entries.spec_len() * entry_size::<K, V>()
        &&& self.size_bytes <= self.capacity_bytes
        &&& self.stats.entries == self.entries.spec_len()
        &&& self.stats.size_bytes == self.size_bytes
        &&& self.stats.capacity_bytes == self.capacity_bytes
    }

    /// What a well-formed tier charges and counts: the charged bytes are the
    /// sizes of the stored entries added up and stay within the capacity, and
    /// the statistics report the stored entries and the charged bytes.
    pub proof fn lemma_accounting(&self)
        requires
            self.mem_well_formed(),
        ensures
            self.contents().dom().finite(),
            forall|k: K::V| #[trigger] self.contents().contains_key(k)
                ==> self.contents()[k].size_bytes == entry_size::<K, V>(),
            forall|k: K::V| #[trigger] self.contents().contains_key(k)
                && self.contents()[k].ttl is None ==> self.contents()[k].expires_at is None,
            self.spec_size_bytes() == self.contents().len() * entry_size::<K, V>(),
            self.spec_size_bytes() <= self.spec_capacity_bytes(),
            self.spec_capacity_bytes() > 0,
            self.spec_tier_stats().entries == self.contents().len(),
            self.spec_tier_stats().size_bytes == self.spec_size_bytes(),
            self.spec_tier_stats().capacity_bytes == self.spec_capacity_bytes(),
            self.policy().well_formed(),
    {
        self.entries.lemma_dom();
    }

    /// The bytes charged once the entry of `key`, if any, is released.
    pub open spec fn released_size(&self, key: K::V) -> int {
        if self.contents().contains_key(key) {
            self.spec_size_bytes() - entry_size::<K, V>()
        } else {
            self.spec_size_bytes() as int
        }
    }

    /// Whether the last of `victims` was a stored key that the eviction took
    /// away, going from this tier to `after`.
    pub open spec fn last_victim_released(&self, after: Self, victims: Seq<Option<K::V>>) -> bool {
        &&& victims.len() > 0
        &&& victims.last() matches Some(k) && self.contents().contains_key(k)
            && !after.contents().contains_key(k)
    }

    /// Whether a new entry for `key` fits without evicting anything else.
    pub open spec fn fits_without_eviction(&self, key: K::V) -> bool {
        self.released_size(key) + entry_size::<K, V>() <= self.spec_capacity_bytes()
    }

    /// Whether a new entry for `key` fits once everything else is evicted, and
    /// the policy tracks every other stored key, so that evicting can make
    /// that room.
    pub open spec fn fits_after_eviction(&self, key: K::V) -> bool {
        &&& entry_size::<K, V>() <= self.spec_capacity_bytes()
        &&& forall|k: K::V|
            k != key && #[trigger] self.contents().contains_key(k) ==> self.policy().candidates().contains(k)
    }

    /// What a read of `key` at time `now` does, taking this tier to `after`
    /// and answering `found`.
    ///
    /// A fresh entry is served (a clone of its value), counts as a hit, has its
    /// access time set to `now` and is reported to the policy as an access. A
    /// missing or expired entry answers `None` and counts as a miss; an expired
    /// entry is removed and its bytes released. Nothing else changes.
    pub open spec fn read_outcome(
        &self,
        after: Self,
        key: K::V,
        now: u128,
        found: Result<Option<V>, CacheError>,
    ) -> bool where V: Clone {
        &&& after.spec_capacity_bytes() == self.spec_capacity_bytes()
        &&& after.spec_tier_stats().evictions == self.spec_tier_stats().evictions
        &&& match self.fresh(key, now) {
            Some(held) => {
                &&& found matches Ok(Some(v)) && cloned::<V>(held, v)
                &&& after.contents() == self.contents().insert(
                    key,
                    CachedValue { last_access: now, ..self.contents()[key] },
                )
                &&& self.policy().accessed(key, after.policy())
                &&& after.spec_size_bytes() == self.spec_size_bytes()
                &&& after.spec_tier_stats().hits == count_up(self.spec_tier_stats().hits)
                &&& after.spec_tier_stats().misses == self.spec_tier_stats().misses
            },
            None => {
                &&& found == Ok::<Option<V>, CacheError>(None)
                &&& after.contents() == self.contents().remove(key)
                &&& after.policy() == self.policy()
                &&& after.spec_size_bytes() == self.released_size(key)
                &&& after.spec_tier_stats().hits == self.spec_tier_stats().hits
                &&& after.spec_tier_stats().misses == count_up(self.spec_tier_stats().misses)
            },
        }
    }

    /// What a write of `value` under `key` at time `now` with time-to-live
    /// `ttl` does, taking this tier to `after` and answering `done`.
    ///
    /// The previous entry of `key` is released; while the new entry does not
    /// fit, the policy chooses entries to evict (each counted in `evictions`).
    /// On success the new entry is stored and reported to the policy as an
    /// insertion, and eviction stopped as soon as the entry fitted (after an
    /// eviction the tier has no room for one more entry). The write succeeds
    /// whenever the entry fits without evicting, and whenever it fits in the
    /// capacity and the policy tracks every other stored key.
    /// On failure `key` has no entry, every key the policy tracked has been
    /// evicted, and the entry still does not fit.
    pub open spec fn write_outcome(
        &self,
        after: Self,
        key: K::V,
        value: V,
        ttl: Option<u128>,
        now: u128,
        done: Result<(), CacheError>,
    ) -> bool {
        &&& after.spec_capacity_bytes() == self.spec_capacity_bytes()
        &&& after.spec_tier_stats().hits == self.spec_tier_stats().hits
        &&& after.spec_tier_stats().misses == self.spec_tier_stats().misses
        &&& forall|k: K::V|
            k != key && #[trigger] after.contents().contains_key(k) ==> {
                &&& self.contents().contains_key(k)
                &&& after.contents()[k] == self.contents()[k]
            }
        &&& forall|k: K::V|
            k != key && self.contents().contains_key(k)
                && !#[trigger] after.contents().contains_key(k)
                ==> self.policy().candidates().contains(k)
        &&& after.policy().candidates().subset_of(self.policy().candidates().insert(key))
        &&& exists|policies: Seq<P>, victims: Seq<Option<K::V>>|
            {
                &&& #[trigger] evicted_in_turn::<K, P>(policies, victims)
                &&& policies[0] == self.policy()
                &&& forall|k: K::V|
                    k != key && #[trigger] self.contents().contains_key(k) ==> (
                    after.contents().contains_key(k) <==> !victims.contains(Some(k)))
                &&& match done {
                    Ok(()) => !victims.contains(None) && policies.last().inserted(key, after.policy()),
                    Err(_) => victims.contains(None) && policies.last() == after.policy(),
                }
            }
        &&& after.spec_tier_stats().evictions == count_up_by(
            self.spec_tier_stats().evictions,
            self.contents().remove(key).len() - after.contents().remove(key).len(),
        )
        &&& self.fits_after_eviction(key) ==> done is Ok
        &&& self.fits_without_eviction(key) ==> {
            &&& done is Ok
            &&& after.contents().remove(key) == self.contents().remove(key)
        }
        &&& match done {
            Ok(()) => {
                &&& after.contents().remove(key).len() < self.contents().remove(key).len()
                    ==> after.spec_size_bytes() + entry_size::<K, V>() > after.spec_capacity_bytes()
                &&& after.contents().contains_key(key)
                &&& after.contents()[key] == (CachedValue {
                    value,
                    ttl,
                    expires_at: deadline(now, ttl),
                    size_bytes: entry_size::<K, V>() as usize,
                    last_access: now,
                })
                &&& exists|mid: P|
                    #[trigger] mid.inserted(key, after.policy()) && mid.candidates().subset_of(
                        self.policy().candidates(),
                    )
            },
            Err(e) => {
                &&& !after.contents().contains_key(key)
                &&& forall|k: K::V| #[trigger] self.policy().candidates().contains(k)
                    ==> !after.contents().contains_key(k)
                &&& after.policy().candidates() == Set::<K::V>::empty()
                &&& after.spec_size_bytes() + entry_size::<K, V>() > after.spec_capacity_bytes()
                &&& e == CacheError::TierError(
                    TierError::CapacityExceeded {
                        size: if after.spec_size_bytes() + entry_size::<K, V>() <= usize::MAX {
                            (after.spec_size_bytes() + entry_size::<K, V>()) as usize
                        } else {
                            usize::MAX
                        },
                        max: after.spec_capacity_bytes(),
                    },
                )
            },
        }
    }

    /// Create with a custom eviction policy; `capacity_bytes` must be positive.
    pub fn with_policy(capacity_bytes: usize, policy: P) -> (cache: Self)
        requires
            capacity_bytes > 0,
            policy.well_formed(),
            policy.candidates().finite(),
        ensures
            cache.mem_well_formed(),
            cache.contents() == Map::<K::V, CachedValue<V>>::empty(),
            cache.policy() == policy,
            cache.clock_time() == 0,
            cache.spec_capacity_bytes() == capacity_bytes,
            cache.spec_size_bytes() == 0,
            cache.spec_tier_stats() == (TierStats {
                hits: 0,
                misses: 0,
                evictions: 0,
                size_bytes: 0,
                capacity_bytes,
                entries: 0,
            }),
    {
        vstd::layout::layout_for_type_is_valid::<K>();
        vstd::layout::layout_for_type_is_valid::<V>();
        let cache = MemoryCache {
            entries: KeyTable::new(),
            eviction_policy: policy,
            capacity_bytes,
            size_bytes: 0,
            stats: TierStats {
                hits: 0,
                misses: 0,
                evictions: 0,
                size_bytes: 0,
                capacity_bytes,
                entries: 0,
            },
            epoch: clock_now(),
            latest_time: 0,
        };
        proof {
            lemma_mul_succ(0, entry_size::<K, V>() as int);
        }
        cache
    }

    /// Estimate the size of an entry in bytes: the sizes of the key and value types.
    fn estimate_size(_key: &K, _value: &V) -> (bytes: usize)
        ensures
            bytes == entry_size::<K, V>(),
    {
        vstd::layout::layout_for_type_is_valid::<K>();
        vstd::layout::layout_for_type_is_valid::<V>();
        core::mem::size_of::<K>() + core::mem::size_of::<V>()
    }

    /// Nanoseconds since the tier was created, on the machine's monotonic clock.
    fn now(&self) -> (t: u128)
        ensures
            exists|elapsed: Duration| t == #[trigger] duration_as_nanos(elapsed),
    {
        nanos_of(elapsed_since(&self.epoch))
    }

    /// The tier's current time: the clock's reading, held at the latest time
    /// the tier used so that its time never goes back.
    fn current_time(&self) -> (t: u128)
        ensures
            t >= self.clock_time(),
            exists|reading: Duration| t == #[trigger] clock_reading(reading, self.clock_time()),
    {
        let reading = self.now();
        let ghost d = choose|elapsed: Duration| reading == #[trigger] duration_as_nanos(elapsed);
        let t = if reading < self.latest_time {
            self.latest_time
        } else {
            reading
        };
        assert(t == clock_reading(d, self.clock_time()));
        t
    }

    /// Remove the entry of `key`, if stored, releasing its bytes and its count.
    fn release(&mut self, key: &K) -> (removed: bool)
        requires
            old(self).mem_well_formed(),
        ensures
            final(self).mem_well_formed(),
            final(self).eviction_policy == old(self).eviction_policy,
            final(self).capacity_bytes == old(self).capacity_bytes,
            final(self).stats.hits == old(self).stats.hits,
            final(self).stats.misses == old(self).stats.misses,
            final(self).stats.evictions == old(self).stats.evictions,
            final(self).epoch == old(self).epoch,
            final(self).latest_time == old(self).latest_time,
            final(self).contents() == old(self).contents().remove(key@),
            final(self).size_bytes == old(self).released_size(key@),
            removed == old(self).contents().contains_key(key@),
            final(self).entries.spec_len() + (if removed { 1int } else { 0int })
                == old(self).entries.spec_len(),
    {
        match self.entries.position(key) {
            Some(i) => {
                let ghost n = self.entries.spec_len();
                proof {
                    self.entries.lemma_at(i as int);
                    lemma_mul_succ(n - 1, entry_size::<K, V>() as int);
                }
                let (_k, entry) = self.entries.remove_at(i);
                self.size_bytes = self.size_bytes - entry.size_bytes;
                self.stats.entries = self.stats.entries - 1;
                self.stats.size_bytes = self.size_bytes;
                true
            },
            None => {
                assert(self.contents() =~= old(self).contents().remove(key@));
                false
            },
        }
    }
}

impl<K: CacheKey, V, P: EvictionPolicy<K>> MemoryCache<K, V, P> {
    /// Evict entries chosen by the policy until there's space for the requested size.
    fn evict_for_space(&mut self, required_bytes: usize) -> (done: Result<(), TierError>)
        requires
            old(self).mem_well_formed(),
        ensures
            final(self).mem_well_formed(),
            final(self).capacity_bytes == old(self).capacity_bytes,
            final(self).epoch == old(self).epoch,
            final(self).latest_time == old(self).latest_time,
            final(self).stats.hits == old(self).stats.hits,
            final(self).stats.misses == old(self).stats.misses,
            final(self).stats.evictions == count_up_by(
                old(self).stats.evictions,
                old(self).entries.spec_len() - final(self).entries.spec_len(),
            ),
            forall|k: K::V| #[trigger] final(self).contents().contains_key(k)
                ==> old(self).contents().contains_key(k) && final(self).contents()[k]
                == old(self).contents()[k],
            forall|k: K::V|
                old(self).contents().contains_key(k) && !#[trigger] final(self).contents().contains_key(k)
                ==> old(self).eviction_policy.candidates().contains(k),
            final(self).eviction_policy.candidates().subset_of(old(self).eviction_policy.candidates()),
            final(self).entries.spec_len() < old(self).entries.spec_len() ==> final(self).size_bytes
                + entry_size::<K, V>() + required_bytes > final(self).capacity_bytes,
            exists|policies: Seq<P>, victims: Seq<Option<K::V>>|
                {
                    &&& #[trigger] evicted_in_turn::<K, P>(policies, victims)
                    &&& policies[0] == old(self).eviction_policy
                    &&& policies.last() == final(self).eviction_policy
                    &&& forall|k: K::V| #[trigger] old(self).contents().contains_key(k)
                        ==> (final(self).contents().contains_key(k) <==> !victims.contains(Some(k)))
                    &&& (done is Ok <==> !victims.contains(None))
                    &&& victims.len() > 0 ==> final(self).size_bytes + (if old(self).last_victim_released(
                        *final(self),
                        victims,
                    ) {
                        entry_size::<K, V>()
                    } else {
                        0
                    }) + required_bytes > final(self).capacity_bytes
                },
            old(self).size_bytes + required_bytes <= old(self).capacity_bytes ==> {
                &&& done is Ok
                &&& final(self).contents() == old(self).contents()
                &&& final(self).size_bytes == old(self).size_bytes
                &&& final(self).eviction_policy == old(self).eviction_policy
                &&& final(self).stats == old(self).stats
            },
            match done {
                Ok(()) => final(self).size_bytes + required_bytes <= final(self).capacity_bytes,
                Err(e) => {
                    &&& final(self).size_bytes + required_bytes > final(self).capacity_bytes
                    &&& final(self).eviction_policy.candidates() == Set::<K::V>::empty()
                    &&& forall|k: K::V| #[trigger] old(self).eviction_policy.candidates().contains(k)
                        ==> !final(self).contents().contains_key(k)
                    &&& e == TierError::CapacityExceeded {
                        size: if final(self).size_bytes + required_bytes <= usize::MAX {
                            (final(self).size_bytes + required_bytes) as usize
                        } else {
                            usize::MAX
                        },
                        max: final(self).capacity_bytes,
                    }
                },
            },
    {
        let ghost mut policies: Seq<P> = seq![self.eviction_policy];
        let ghost mut victims: Seq<Option<K::V>> = Seq::empty();
        loop
            invariant
                self.mem_well_formed(),
                evicted_in_turn::<K, P>(policies, victims),
                policies[0] == old(self).eviction_policy,
                policies.last() == self.eviction_policy,
                forall|k: K::V| #[trigger] old(self).contents().contains_key(k)
                    ==> (self.contents().contains_key(k) <==> !victims.contains(Some(k))),
                !victims.contains(None),
                victims.len() > 0 ==> self.size_bytes + (if old(self).last_victim_released(*self, victims) {
                    entry_size::<K, V>()
                } else {
                    0
                }) + required_bytes > self.capacity_bytes,
                self.capacity_bytes == old(self).capacity_bytes,
                self.epoch == old(self).epoch,
                self.latest_time == old(self).latest_time,
                self.stats.hits == old(self).stats.hits,
                self.stats.misses == old(self).stats.misses,
                self.entries.spec_len() <= old(self).entries.spec_len(),
                self.stats.evictions == count_up_by(
                    old(self).stats.evictions,
                    old(self).entries.spec_len() - self.entries.spec_len(),
                ),
                forall|k: K::V| #[trigger] self.contents().contains_key(k)
                    ==> old(self).contents().contains_key(k) && self.contents()[k]
                    == old(self).contents()[k],
                forall|k: K::V|
                    old(self).contents().contains_key(k) && !#[trigger] self.contents().contains_key(k)
                    ==> old(self).eviction_policy.candidates().contains(k),
                self.eviction_policy.candidates().subset_of(old(self).eviction_policy.candidates()),
                self.entries.spec_len() < old(self).entries.spec_len() ==> self.size_bytes
                    + entry_size::<K, V>() + required_bytes > self.capacity_bytes,
                forall|k: K::V| #[trigger] old(self).eviction_policy.candidates().contains(k)
                    ==> self.eviction_policy.candidates().contains(k) || !self.contents().contains_key(k),
                old(self).size_bytes + required_bytes <= old(self).capacity_bytes ==> {
                    &&& self.contents() == old(self).contents()
                    &&& self.size_bytes == old(self).size_bytes
                    &&& self.eviction_policy == old(self).eviction_policy
                    &&& self.stats == old(self).stats
                },
            decreases self.eviction_policy.candidates().len(),
        {
            if required_bytes <= self.capacity_bytes && self.size_bytes <= self.capacity_bytes
                - required_bytes {
                return Ok(());
            }
            let ghost before_contents = self.contents();
            let ghost before_candidates = self.eviction_policy.candidates();
            let ghost before_policies = policies;
            let ghost before_victims = victims;
            let key_to_evict = self.eviction_policy.evict();
            assert(self.contents() == before_contents);
            proof {
                policies = policies.push(self.eviction_policy);
                victims = victims.push(key_view(key_to_evict));
                assert forall|i: int| #![trigger victims[i]] 0 <= i < victims.len()
                    implies policies[i].evicted(victims[i], policies[i + 1]) by {
                    if i < before_victims.len() {
                        assert(before_victims[i] == victims[i]);
                        assert(before_policies[i] == policies[i]);
                        assert(before_policies[i + 1] == policies[i + 1]);
                    } else {
                        assert(policies[i] == before_policies.last());
                    }
                }
                assert forall|x: Option<K::V>| victims.contains(x) <==> before_victims.contains(x)
                    || x == key_view(key_to_evict) by {
                    if victims.contains(x) {
                        let j = choose|j: int| 0 <= j < victims.len() && victims[j] == x;
                        if j < before_victims.len() {
                            assert(before_victims[j] == x);
                        }
                    }
                    if before_victims.contains(x) {
                        let j = choose|j: int| 0 <= j < before_victims.len() && before_victims[j] == x;
                        assert(victims[j] == x);
                    }
                    if x == key_view(key_to_evict) {
                        assert(victims[victims.len() - 1] == x);
                    }
                }
            }
            match key_to_evict {
                Some(key) => {
                    if self.release(&key) {
                        self.stats.evictions = self.stats.evictions.saturating_add(1);
                    }
                    assert forall|k: K::V| #[trigger] old(self).eviction_policy.candidates().contains(k)
                        implies self.eviction_policy.candidates().contains(k) || !self.contents().contains_key(k) by {
                        if k == key@ {
                        } else if before_candidates.contains(k) {
                            assert(self.eviction_policy.candidates().contains(k));
                        }
                    }
                },
                None => {
                    let size = self.size_bytes.saturating_add(required_bytes);
                    proof {
                        assert(victims.contains(None));
                        assert forall|k: K::V| #[trigger] old(self).contents().contains_key(k)
                            implies (self.contents().contains_key(k) <==> !victims.contains(Some(k))) by {
                            assert(before_victims.contains(Some(k)) == victims.contains(Some(k)));
                        }
                        assert(evicted_in_turn::<K, P>(policies, victims));
                        assert(policies[0] == old(self).eviction_policy);
                        assert(policies.last() == self.eviction_policy);
                    }
                    return Err(TierError::CapacityExceeded { size, max: self.capacity_bytes });
                },
            }
        }
    }

    /// Retrieve the value of `key` at time `now`.
    ///
    /// An expired entry is removed, its bytes released, and counts as a miss;
    /// a fresh entry counts as a hit, is reported to the eviction policy and
    /// has its access time set to `now`.
    pub fn get_at(&mut self, key: &K, now: u128) -> (found: Result<Option<V>, CacheError>)
        where V: Clone
        requires
            old(self).mem_well_formed(),
        ensures
            final(self).mem_well_formed(),
            old(self).read_outcome(*final(self), key@, now, found),
            final(self).clock_time() == old(self).clock_time(),
    {
        // First check if the entry exists and if it has expired
        let is_expired = match self.entries.position(key) {
            Some(i) => self.entries.item_at(i).is_expired(now),
            None => false,
        };

        // If expired, remove it and return None
        if is_expired {
            self.release(key);
            self.stats.misses = self.stats.misses.saturating_add(1);
            return Ok(None);
        }

        match self.entries.position(key) {
            Some(i) => {
                let value = self.entries.item_at(i).value.clone();
                // Record access in eviction policy
                self.eviction_policy.on_access(key);
                // Update last access time
                let (k, entry) = self.entries.remove_at(i);
                let touched = CachedValue {
                    value: entry.value,
                    ttl: entry.ttl,
                    expires_at: entry.expires_at,
                    size_bytes: entry.size_bytes,
                    last_access: now,
                };
                self.entries.push_new(k, touched);
                self.stats.hits = self.stats.hits.saturating_add(1);
                proof {
                    assert(self.contents() =~= old(self).contents().insert(
                        key@,
                        CachedValue { last_access: now, ..old(self).contents()[key@] },
                    ));
                }
                Ok(Some(value))
            },
            None => {
                assert(self.contents() =~= old(self).contents().remove(key@));
                self.stats.misses = self.stats.misses.saturating_add(1);
                Ok(None)
            },
        }
    }

    /// Whether a fresh value is stored for `key` at time `now`.
    pub fn exists_at(&self, key: &K, now: u128) -> (present: bool)
        requires
            self.mem_well_formed(),
        ensures
            present == self.fresh(key@, now) is Some,
    {
        match self.entries.position(key) {
            Some(i) => !self.entries.item_at(i).is_expired(now),
            None => false,
        }
    }
}

impl<K: CacheKey, V, P: EvictionPolicy<K>> MemoryCache<K, V, P> {
    /// Store `value` under `key` at time `now`, with time-to-live `ttl` in nanoseconds.
    ///
    /// The previous entry of `key` is released first; then, while the new
    /// entry does not fit, the eviction policy chooses entries to remove. When
    /// the policy runs out of keys first, the store fails with
    /// `CapacityExceeded` and `key` is left without an entry.
    #[verifier::spinoff_prover]
    pub fn set_at(&mut self, key: K, value: V, ttl: Option<u128>, now: u128) -> (done: Result<
        (),
        CacheError,
    >)
        requires
            old(self).mem_well_formed(),
        ensures
            final(self).mem_well_formed(),
            old(self).write_outcome(*final(self), key@, value, ttl, now, done),
            final(self).clock_time() == old(self).clock_time(),
    {
        let ghost k = key@;
        let ghost v = value;
        proof {
            self.entries.lemma_dom();
        }
        let size_bytes = Self::estimate_size(&key, &value);

        // Release the existing entry of this key, if any
        self.release(&key);
        let ghost released = self.contents();
        let ghost released_len = self.entries.spec_len();
        let ghost released_policy = self.eviction_policy;
        proof {
            self.entries.lemma_dom();
            assert(released == old(self).contents().remove(k));
        }

        // Evict if necessary
        match self.evict_for_space(size_bytes) {
            Ok(()) => {},
            Err(e) => {
                proof {
                    self.entries.lemma_dom();
                    assert(!self.contents().contains_key(k)) by {
                        if self.contents().contains_key(k) {
                            assert(released.contains_key(k));
                        }
                    }
                    assert(self.contents().remove(k) =~= self.contents());
                    assert forall|j: K::V| #[trigger] old(self).eviction_policy.candidates().contains(j)
                        implies !self.contents().contains_key(j) by {
                        if j != k && released_policy.candidates().contains(j) {
                        } else if j != k && self.contents().contains_key(j) {
                            assert(released.contains_key(j));
                        }
                    }
                    assert(old(self).fits_without_eviction(k) ==> false);
                    if old(self).fits_after_eviction(k) {
                        assert(self.contents() =~= Map::<K::V, CachedValue<V>>::empty()) by {
                            assert forall|j: K::V| !#[trigger] self.contents().contains_key(j) by {
                                if self.contents().contains_key(j) {
                                    assert(released.contains_key(j));
                                    assert(j != k);
                                    assert(old(self).contents().contains_key(j));
                                    assert(old(self).eviction_policy.candidates().contains(j));
                                }
                            }
                        }
                        assert(self.entries.spec_len() == 0);
                        lemma_mul_succ(0, entry_size::<K, V>() as int);
                        assert(self.size_bytes == 0);
                        assert(false);
                    }
                    let (ps, vs) = choose|ps: Seq<P>, vs: Seq<Option<K::V>>|
                        {
                            &&& #[trigger] evicted_in_turn::<K, P>(ps, vs)
                            &&& ps[0] == released_policy
                            &&& ps.last() == self.eviction_policy
                            &&& forall|j: K::V| #[trigger] released.contains_key(j)
                                ==> (self.contents().contains_key(j) <==> !vs.contains(Some(j)))
                            &&& (false <==> !vs.contains(None))
                        };
                    assert forall|j: K::V|
                        j != k && #[trigger] old(self).contents().contains_key(j) implies (
                        self.contents().contains_key(j) <==> !vs.contains(Some(j))) by {
                        assert(released.contains_key(j));
                    }
                    assert(evicted_in_turn::<K, P>(ps, vs));
                }
                return Err(CacheError::TierError(e));
            },
        }
        let ghost evicted = self.contents();
        let ghost evicted_len = self.entries.spec_len();
        let ghost mid = self.eviction_policy;
        let ghost (ps, vs) = choose|ps: Seq<P>, vs: Seq<Option<K::V>>|
            {
                &&& #[trigger] evicted_in_turn::<K, P>(ps, vs)
                &&& ps[0] == released_policy
                &&& ps.last() == mid
                &&& forall|j: K::V| #[trigger] released.contains_key(j)
                    ==> (evicted.contains_key(j) <==> !vs.contains(Some(j)))
                &&& (true <==> !vs.contains(None))
            };
        proof {
            self.entries.lemma_dom();
            assert(!evicted.contains_key(k)) by {
                if evicted.contains_key(k) {
                    assert(released.contains_key(k));
                }
            }
        }

        let expires_at = match ttl {
            Some(t) => now.checked_add(t),
            None => None,
        };
        let cached = CachedValue { value, ttl, expires_at, size_bytes, last_access: now };
        let stored_key = key.key_clone();
        self.entries.push_new(stored_key, cached);

        // Update size and stats
        proof {
            lemma_mul_succ(evicted_len as int, entry_size::<K, V>() as int);
            self.entries.lemma_len_bound();
        }
        self.size_bytes = self.size_bytes + size_bytes;
        self.stats.entries = self.stats.entries + 1;
        self.stats.size_bytes = self.size_bytes;

        // Record in eviction policy
        self.eviction_policy.on_insert(key);
        proof {
            self.entries.lemma_dom();
            self.entries.lemma_len_bound();
            assert(self.contents() == evicted.insert(k, self.contents()[k]));
            assert(self.contents().remove(k) =~= evicted);
            assert forall|j: K::V|
                j != k && #[trigger] self.contents().contains_key(j) implies old(self).contents().contains_key(j)
                    && self.contents()[j] == old(self).contents()[j] by {
                assert(evicted.contains_key(j));
                assert(released.contains_key(j));
            }
            assert(mid.inserted(k, self.eviction_policy));
            assert forall|j: K::V|
                j != k && old(self).contents().contains_key(j)
                    && !#[trigger] self.contents().contains_key(j)
                    implies old(self).eviction_policy.candidates().contains(j) by {
                assert(released.contains_key(j));
                assert(!evicted.contains_key(j));
            }
            if old(self).fits_without_eviction(k) {
                assert(self.contents().remove(k) == old(self).contents().remove(k));
            }
            assert(self.eviction_policy.candidates().subset_of(old(self).eviction_policy.candidates().insert(k))) by {
                assert forall|j: K::V| #[trigger] self.eviction_policy.candidates().contains(j)
                    implies old(self).eviction_policy.candidates().insert(k).contains(j) by {
                    if j != k {
                        assert(mid.candidates().contains(j));
                    }
                }
            }
            if old(self).fits_without_eviction(k) {
                assert(evicted =~= released);
            }
            assert(self.spec_tier_stats().evictions == count_up_by(
                old(self).spec_tier_stats().evictions,
                old(self).contents().remove(k).len() - self.contents().remove(k).len(),
            ));
            assert(self.contents()[k] == (CachedValue {
                value: v,
                ttl,
                expires_at: deadline(now, ttl),
                size_bytes: entry_size::<K, V>() as usize,
                last_access: now,
            }));
            assert(exists|m: P| #[trigger] m.inserted(k, self.eviction_policy) && m.candidates().subset_of(
                old(self).eviction_policy.candidates()));
            assert forall|j: K::V|
                j != k && #[trigger] old(self).contents().contains_key(j) implies (
                self.contents().contains_key(j) <==> !vs.contains(Some(j))) by {
                assert(released.contains_key(j));
                assert(self.contents().contains_key(j) == evicted.contains_key(j));
            }
            assert(evicted_in_turn::<K, P>(ps, vs));
            assert(ps.last().inserted(k, self.eviction_policy));
            assert(!vs.contains(None));
            assert(exists|policies: Seq<P>, victims: Seq<Option<K::V>>|
                {
                    &&& #[trigger] evicted_in_turn::<K, P>(policies, victims)
                    &&& policies[0] == old(self).policy()
                    &&& forall|j: K::V|
                        j != k && #[trigger] old(self).contents().contains_key(j) ==> (
                        self.contents().contains_key(j) <==> !victims.contains(Some(j)))
                    &&& !victims.contains(None) && policies.last().inserted(k, self.policy())
                });
            assert(self.contents().remove(k).len() == evicted_len);
            assert(old(self).contents().remove(k).len() == released_len);
            assert(self.contents().remove(k).len() < old(self).contents().remove(k).len()
                ==> self.spec_size_bytes() + entry_size::<K, V>() > self.spec_capacity_bytes());
            assert(old(self).write_outcome(*self, k, v, ttl, now, Ok(())));
        }
        Ok(())
    }

    /// Remove `key` from this tier, releasing its bytes.
    pub fn remove_entry(&mut self, key: &K) -> (done: Result<(), CacheError>)
        requires
            old(self).mem_well_formed(),
        ensures
            final(self).mem_well_formed(),
            done is Ok,
            final(self).contents() == old(self).contents().remove(key@),
            final(self).policy() == old(self).policy(),
            final(self).clock_time() == old(self).clock_time(),
            final(self).spec_capacity_bytes() == old(self).spec_capacity_bytes(),
            final(self).spec_size_bytes() == old(self).released_size(key@),
            final(self).spec_tier_stats().hits == old(self).spec_tier_stats().hits,
            final(self).spec_tier_stats().misses == old(self).spec_tier_stats().misses,
            final(self).spec_tier_stats().evictions == old(self).spec_tier_stats().evictions,
    {
        self.release(key);
        Ok(())
    }

    /// Remove every entry and forget every key the policy tracks.
    pub fn clear_entries(&mut self) -> (done: Result<(), CacheError>)
        requires
            old(self).mem_well_formed(),
        ensures
            final(self).mem_well_formed(),
            done is Ok,
            final(self).contents() == Map::<K::V, CachedValue<V>>::empty(),
            final(self).policy().candidates() == Set::<K::V>::empty(),
            final(self).clock_time() == old(self).clock_time(),
            final(self).spec_capacity_bytes() == old(self).spec_capacity_bytes(),
            final(self).spec_size_bytes() == 0,
            final(self).spec_tier_stats() == (TierStats {
                entries: 0,
                size_bytes: 0,
                ..old(self).spec_tier_stats()
            }),
    {
        self.entries.clear();
        self.size_bytes = 0;
        self.stats.entries = 0;
        self.stats.size_bytes = 0;
        self.eviction_policy.reset();
        proof {
            lemma_mul_succ(0, entry_size::<K, V>() as int);
        }
        Ok(())
    }
}

impl<K: CacheKey, V, P: EvictionPolicy<K>> MemoryCache<K, V, P> {
    /// Read your write: once `value` is stored for `key` at time `written`
    /// (as `set_at` leaves it), the tier serves `value` for `key` at every time
    /// from `written` up to the deadline that the time-to-live sets.
    pub proof fn law_read_your_write(
        cache: Self,
        key: K::V,
        value: V,
        ttl: Option<u128>,
        written: u128,
        read: u128,
    )
        requires
            cache.contents().contains_key(key),
            cache.contents()[key] == (CachedValue {
                value,
                ttl,
                expires_at: deadline(written, ttl),
                size_bytes: entry_size::<K, V>() as usize,
                last_access: written,
            }),
            written <= read,
            ttl matches Some(t) ==> read <= written + t,
        ensures
            cache.fresh(key, read) == Some(value),
    {
    }

    /// A read through the tier's clock after a write, before the write's
    /// time-to-live has run out, serves the value written: the write stamps
    /// the entry with the tier's time, and a later read happens at that time
    /// or after it.
    pub proof fn law_get_after_set_serves_until_deadline(
        before: Self,
        written: Self,
        after: Self,
        key: K::V,
        value: V,
        ttl: Option<u128>,
        reading: Duration,
        found: Result<Option<V>, CacheError>,
    ) where V: Clone
        requires
            before.write_outcome(written, key, value, ttl, written.clock_time(), Ok(())),
            written.read_outcome(
                after,
                key,
                clock_reading(reading, written.clock_time()),
                found,
            ),
            ttl matches Some(t) ==> clock_reading(reading, written.clock_time())
                <= written.clock_time() + t,
        ensures
            clock_reading(reading, written.clock_time()) >= written.clock_time(),
            found matches Ok(Some(v)) && cloned::<V>(value, v),
            after.contents().contains_key(key),
    {
    }

    /// A read through the tier's clock after a write's time-to-live has run
    /// out is a miss: it answers `None`, removes the entry and counts a miss.
    pub proof fn law_get_after_deadline_misses(
        before: Self,
        written: Self,
        after: Self,
        key: K::V,
        value: V,
        ttl: u128,
        reading: Duration,
        found: Result<Option<V>, CacheError>,
    ) where V: Clone
        requires
            before.write_outcome(written, key, value, Some(ttl), written.clock_time(), Ok(())),
            written.read_outcome(
                after,
                key,
                clock_reading(reading, written.clock_time()),
                found,
            ),
            written.clock_time() + ttl < clock_reading(reading, written.clock_time()),
        ensures
            found == Ok::<Option<V>, CacheError>(None),
            !after.contents().contains_key(key),
            after.spec_tier_stats().misses == count_up(written.spec_tier_stats().misses),
    {
    }

    /// An existence check and a read at the same time agree: the key is
    /// reported present exactly when the read serves a value.
    pub proof fn law_exists_agrees_with_get(
        tier: Self,
        after: Self,
        key: K::V,
        now: u128,
        found: Result<Option<V>, CacheError>,
    ) where V: Clone
        requires
            tier.read_outcome(after, key, now, found),
        ensures
            (tier.fresh(key, now) is Some) == (found matches Ok(Some(_))),
    {
    }

    /// The tier's time never goes back: each read or write through its clock
    /// happens at the tier's latest time or later.
    pub proof fn law_tier_time_never_goes_back(latest: u128, reading: Duration)
        ensures
            clock_reading(reading, latest) >= latest,
            duration_as_nanos(reading) >= latest ==> clock_reading(reading, latest) == duration_as_nanos(
                reading,
            ),
    {
    }

    /// Expiry is final: an entry not served at some time is not served at any
    /// later time either, as long as nothing is written.
    pub proof fn law_expired_stays_expired(cache: Self, key: K::V, earlier: u128, later: u128)
        requires
            earlier <= later,
            cache.fresh(key, earlier) is None,
        ensures
            cache.fresh(key, later) is None,
    {
    }

    /// A deleted key is served at no time, and every other key is served as before.
    pub proof fn law_deleted_key_is_gone(before: Self, after: Self, key: K::V, now: u128)
        requires
            after.contents() == before.contents().remove(key),
        ensures
            after.fresh(key, now) is None,
            forall|other: K::V| other != key ==> #[trigger] after.fresh(other, now) == before.fresh(other, now),
    {
    }

    /// A cleared tier serves no key at any time.
    pub proof fn law_cleared_serves_nothing(after: Self, key: K::V, now: u128)
        requires
            after.contents() == Map::<K::V, CachedValue<V>>::empty(),
        ensures
            after.fresh(key, now) is None,
    {
    }

    /// A write to one key changes what another key serves only by evicting
    /// it, and only keys the eviction policy tracked are evicted.
    pub proof fn law_write_disturbs_only_evicted(
        before: Self,
        after: Self,
        key: K::V,
        value: V,
        ttl: Option<u128>,
        now: u128,
        done: Result<(), CacheError>,
        other: K::V,
        read: u128,
    )
        requires
            other != key,
            before.write_outcome(after, key, value, ttl, now, done),
        ensures
            after.fresh(other, read) is Some ==> after.fresh(other, read) == before.fresh(other, read),
            before.fresh(other, read) is Some && after.fresh(other, read) is None
                ==> before.policy().candidates().contains(other),
    {
    }

    /// One operation of the tier, taking it from this state to `after`: a
    /// read or a write as `get_at` and `set_at` do them, a deletion or a clear.
    pub open spec fn operation_step(&self, after: Self) -> bool where V: Clone {
        ||| exists|key: K::V, now: u128, found: Result<Option<V>, CacheError>|
            #[trigger] self.read_outcome(after, key, now, found)
        ||| exists|key: K::V, value: V, ttl: Option<u128>, now: u128, done: Result<(), CacheError>|
            #[trigger] self.write_outcome(after, key, value, ttl, now, done)
        ||| exists|key: K::V|
            after.contents() == #[trigger] self.contents().remove(key) && after.spec_capacity_bytes()
                == self.spec_capacity_bytes()
        ||| after.contents() == Map::<K::V, CachedValue<V>>::empty() && after.spec_capacity_bytes()
            == self.spec_capacity_bytes()
    }

    /// The capacity a tier was made with stays fixed over any sequence of
    /// operations.
    pub proof fn law_capacity_is_fixed(states: Seq<Self>) where V: Clone
        requires
            forall|i: int| 0 <= i < states.len() - 1 ==> #[trigger] states[i].operation_step(states[i + 1]),
        ensures
            forall|i: int| 0 <= i < states.len() ==> #[trigger] states[i].spec_capacity_bytes()
                == states[0].spec_capacity_bytes(),
        decreases states.len(),
    {
        if states.len() > 1 {
            let rest = states.drop_last();
            assert forall|i: int| 0 <= i < rest.len() - 1 implies #[trigger] rest[i].operation_step(rest[i + 1]) by {
                assert(rest[i] == states[i]);
                assert(rest[i + 1] == states[i + 1]);
                assert(states[i].operation_step(states[i + 1]));
            }
            Self::law_capacity_is_fixed(rest);
            let n = states.len() - 1;
            let m = n - 1;
            assert(states[m].operation_step(states[m + 1]));
            assert(rest[m] == states[m]);
            assert forall|i: int| 0 <= i < states.len() implies #[trigger] states[i].spec_capacity_bytes()
                == states[0].spec_capacity_bytes() by {
                if i < n {
                    assert(rest[i] == states[i]);
                }
            }
        }
    }

    /// The bytes charged are the stored entries' sizes added up and never
    /// exceed the capacity, after any operation.
    pub proof fn law_charged_bytes_match_entries(cache: Self)
        requires
            cache.mem_well_formed(),
        ensures
            cache.spec_size_bytes() == cache.contents().len() * entry_size::<K, V>(),
            cache.spec_size_bytes() <= cache.spec_capacity_bytes(),
            cache.spec_tier_stats().entries == cache.contents().len(),
    {
        cache.lemma_accounting();
    }
}

impl<K: CacheKey + Send + Sync + 'static, V> MemoryCache<K, V, LRU<K>> {
    /// Create a new memory cache holding up to `capacity_bytes` bytes, with an
    /// LRU policy that tracks up to 1024 keys; `capacity_bytes` must be positive.
    pub fn new(capacity_bytes: usize) -> (cache: Self)
        requires
            capacity_bytes > 0,
        ensures
            cache.mem_well_formed(),
            cache.contents() == Map::<K::V, CachedValue<V>>::empty(),
            cache.policy().spec_capacity() == 1024,
            cache.policy().order() == Seq::<K::V>::empty(),
            cache.clock_time() == 0,
            cache.spec_capacity_bytes() == capacity_bytes,
            cache.spec_size_bytes() == 0,
            cache.spec_tier_stats() == (TierStats {
                hits: 0,
                misses: 0,
                evictions: 0,
                size_bytes: 0,
                capacity_bytes,
                entries: 0,
            }),
    {
        // Track up to 1024 keys for eviction
        let policy = LRU::new(1024);
        proof {
            vstd::seq_lib::seq_to_set_is_finite(policy.order());
        }
        Self::with_policy(capacity_bytes, policy)
    }
}

impl<K: CacheKey + Send + Sync + 'static, V> MemoryCache<K, V, LRU<K>> {
    /// With the LRU policy a write evicts in access order: a key the write
    /// evicted was used less recently than every key the policy tracked that
    /// the tier still holds.
    pub proof fn law_lru_write_evicts_least_recent(
        before: Self,
        after: Self,
        key: K::V,
        value: V,
        ttl: Option<u128>,
        now: u128,
        gone: K::V,
        kept: K::V,
    )
        requires
            before.mem_well_formed(),
            before.write_outcome(after, key, value, ttl, now, Ok(())),
            gone != key,
            kept != key,
            before.contents().contains_key(gone),
            !after.contents().contains_key(gone),
            after.contents().contains_key(kept),
            before.policy().order().contains(kept),
        ensures
            before.policy().order().contains(gone),
            before.policy().order().index_of(gone) < before.policy().order().index_of(kept),
    {
        before.lemma_accounting();
        let (ps, vs) = choose|ps: Seq<LRU<K>>, vs: Seq<Option<K::V>>|
            {
                &&& #[trigger] evicted_in_turn::<K, LRU<K>>(ps, vs)
                &&& ps[0] == before.policy()
                &&& forall|k: K::V|
                    k != key && #[trigger] before.contents().contains_key(k) ==> (
                    after.contents().contains_key(k) <==> !vs.contains(Some(k)))
                &&& !vs.contains(None) && ps.last().inserted(key, after.policy())
            };
        LRU::<K>::law_evictions_follow_access_order(ps, vs);
        let order = before.policy().order();
        assert(before.contents().contains_key(kept));
        assert(vs.contains(Some(gone)));
        let a = choose|a: int| 0 <= a < vs.len() && vs[a] == Some(gone);
        assert(vs[a] == Some(order[a]));
        let b = order.index_of(kept);
        assert(order[b] == kept);
        if b < vs.len() {
            assert(vs[b] == Some(order[b]));
            assert(vs.contains(Some(kept)));
        }
        assert(order.index_of(gone) == a);
    }
}

impl<K: CacheKey + Send + Sync, V: Clone + Send + Sync, P: EvictionPolicy<K>> Tier<
    K,
    V,
> for MemoryCache<K, V, P> {
    open spec fn well_formed(&self) -> bool {
        self.mem_well_formed()
    }

    open spec fn lookup(&self, key: K::V) -> Option<V> {
        if self.contents().contains_key(key) {
            Some(self.contents()[key].value)
        } else {
            None
        }
    }

    open spec fn accepts(&self, key: K::V) -> bool {
        self.fits_without_eviction(key) || self.fits_after_eviction(key)
    }

    open spec fn infallible(&self) -> bool {
        true
    }

    open spec fn surely_present(&self, key: K::V) -> bool {
        self.contents().contains_key(key) && self.contents()[key].expires_at is None
    }

    open spec fn written_ttl(&self, key: K::V) -> Option<u128> {
        if self.contents().contains_key(key) {
            self.contents()[key].ttl
        } else {
            None
        }
    }

    open spec fn spec_size(&self) -> usize {
        self.spec_size_bytes()
    }

    open spec fn spec_capacity(&self) -> usize {
        self.spec_capacity_bytes()
    }

    open spec fn spec_stats(&self) -> TierStats {
        self.spec_tier_stats()
    }

    fn get(&mut self, key: &K) -> (found: Result<Option<V>, CacheError>)
        ensures
            exists|now: u128| #[trigger] old(self).read_outcome(*final(self), key@, now, found),
            exists|now: u128|
                {
                    &&& #[trigger] old(self).read_outcome(*final(self), key@, now, found)
                    &&& final(self).clock_time() == now
                    &&& exists|reading: Duration| now == #[trigger] clock_reading(reading, old(self).clock_time())
                },
    {
        let now = self.current_time();
        let found = self.get_at(key, now);
        self.latest_time = now;
        proof {
            old(self).lemma_accounting();
            self.lemma_accounting();
            assert(old(self).read_outcome(*self, key@, now, found));
        }
        found
    }

    fn set(&mut self, key: K, value: V, ttl: Option<Duration>) -> (done: Result<(), CacheError>)
        ensures
            exists|now: u128|
                #[trigger] old(self).write_outcome(*final(self), key@, value, ttl_nanos(ttl), now, done),
            exists|now: u128|
                {
                    &&& #[trigger] old(self).write_outcome(*final(self), key@, value, ttl_nanos(ttl), now, done)
                    &&& final(self).clock_time() == now
                    &&& exists|reading: Duration| now == #[trigger] clock_reading(reading, old(self).clock_time())
                },
    {
        let ttl_nanos = match ttl {
            Some(d) => Some(nanos_of(d)),
            None => None,
        };
        let now = self.current_time();
        let ghost k = key@;
        let ghost v = value;
        let done = self.set_at(key, value, ttl_nanos, now);
        self.latest_time = now;
        proof {
            assert(old(self).write_outcome(*self, k, v, ttl_nanos, now, done));
        }
        done
    }

    fn delete(&mut self, key: &K) -> (done: Result<(), CacheError>)
        ensures
            done is Ok,
            final(self).contents() == old(self).contents().remove(key@),
            final(self).policy() == old(self).policy(),
            final(self).clock_time() == old(self).clock_time(),
            final(self).spec_size_bytes() == old(self).released_size(key@),
            final(self).spec_tier_stats().hits == old(self).spec_tier_stats().hits,
            final(self).spec_tier_stats().misses == old(self).spec_tier_stats().misses,
            final(self).spec_tier_stats().evictions == old(self).spec_tier_stats().evictions,
    {
        self.remove_entry(key)
    }

    fn key_exists(&self, key: &K) -> (present: Result<bool, CacheError>)
        ensures
            present is Ok,
            present matches Ok(true) ==> self.contents().contains_key(key@),
            !self.contents().contains_key(key@) ==> present == Ok::<bool, CacheError>(false),
            exists|now: u128| present == Ok::<bool, CacheError>(#[trigger] self.fresh(key@, now) is Some),
            exists|now: u128|
                {
                    &&& present == Ok::<bool, CacheError>(#[trigger] self.fresh(key@, now) is Some)
                    &&& exists|reading: Duration| now == #[trigger] clock_reading(reading, self.clock_time())
                },
    {
        let now = self.current_time();
        let present = self.exists_at(key, now);
        assert(Ok::<bool, CacheError>(present) == Ok::<bool, CacheError>(self.fresh(key@, now) is Some));
        Ok(present)
    }

    fn size(&self) -> (bytes: usize) {
        self.size_bytes
    }

    fn capacity(&self) -> (bytes: usize) {
        self.capacity_bytes
    }

    fn clear(&mut self) -> (done: Result<(), CacheError>)
        ensures
            done is Ok,
            final(self).contents() == Map::<K::V, CachedValue<V>>::empty(),
            final(self).policy().candidates() == Set::<K::V>::empty(),
            final(self).clock_time() == old(self).clock_time(),
            final(self).spec_size_bytes() == 0,
            final(self).spec_tier_stats() == (TierStats {
                entries: 0,
                size_bytes: 0,
                ..old(self).spec_tier_stats()
            }),
    {
        self.clear_entries()
    }

    fn stats(&self) -> (stats: TierStats) {
        self.stats
    }
}

} // verus!
