# cache_layer

A multi-tier cache, verified with Verus.

Data is organised into tiers of decreasing speed and increasing capacity. A
read searches the tiers fastest first and promotes a value found in a slower
tier to the faster ones; a write and a deletion go to every tier. The memory
tier holds entries up to a byte capacity, lets a pluggable eviction policy
(LRU or LFU) choose which entries leave when a new one does not fit, and
expires entries whose time-to-live has passed.

## Layout

- `src/` — the verified library.
  - `key.rs` — `CacheKey`: keys compared and copied by their view
    (implemented for `String`, `&str` and the integer types).
  - `table.rs` — the key table that holds per-key state.
  - `eviction.rs` — `EvictionPolicy`, `LRU`, `LFU`.
  - `tier.rs` — `Tier`, the contract of one cache layer, and `TierStats`.
  - `memory.rs` — `MemoryCache`, the in-memory tier.
  - `cache.rs`, `multi_tier.rs` — `Cache` and `MultiTierCache`.
  - `error.rs` — `CacheError`, `TierError` and their descriptions.
  - `clock.rs` — the clock and duration conversions the tiers use.
- `tests/` — tests of the library.
- `app/` — unverified surroundings: error types implementing
  `std::error::Error`, the floating-point hit rate, and lock-protected
  handles for concurrent use.

## What is proved

Each operation states its effect on a model: the LRU access order, the LFU
access counts, the memory tier's entries by key with their deadlines, and
which tiers hold which values. Among the properties proved:

- the LRU policy tracks at most its capacity of keys, evicts the least
  recently used key (a run of evictions hands keys back in access order), and
  an accessed key becomes the most recently used;
- the LFU policy tracks at most its capacity of keys and never evicts a key
  used more often than another tracked key;
- the memory tier charges exactly the sizes of the entries it stores
  (expired entries give their bytes back when they are removed) and never
  more than its capacity; it serves a written value until its deadline,
  serves nothing for a deleted key or after a clear, and loses other keys on
  a write only by evicting the keys its policy hands back, one after another,
  and evicts only until the new entry fits (with LRU, a write evicts less
  recently used keys before more recent ones, among the keys the policy
  tracks); a write fails only once every key its policy tracked has been
  evicted, so it succeeds whenever the entry fits in the capacity and the
  policy tracks every other stored key (a policy tracks at most its own
  capacity of keys: the memory tier built by `new` tracks 1024);
- a multi-tier operation's answer is stated as a function of the tiers'
  own answers: a read returns the value of the first tier that found one,
  answers `Ok(None)` on a miss and an error only when every tier failed,
  tries to promote a value it found into every faster tier (without a time
  limit; a promotion that fails is ignored, and it is sure to succeed in a
  memory tier where the entry fits in the capacity and the policy tracks
  every other stored key, evicting to make room if needed), and leaves the
  tiers' other keys alone except those a promotion evicts; a write or deletion asks every tier,
  also after a failure, and succeeds exactly when every tier succeeded, else
  answers the last failing tier's error; an existence check answers `true`
  exactly when some tier, asked fastest first, answered `true`.

Time and durations come from the standard library's clock through a few
trusted functions in `clock.rs`; the functions `get_at`, `set_at` and
`exists_at` of the memory tier take the time as an argument and are verified
for every time.
