//! cache-layer: multi-tier caching with a memory tier, pluggable eviction
//! policies and time-to-live expiry.
//!
//! Data is organised into tiers of decreasing speed and increasing capacity:
//! a read searches the tiers fastest first and promotes what it finds to the
//! faster tiers; a write goes to every tier.

use std::time::Duration;
use vstd::prelude::*;

pub mod cache;
pub mod clock;
pub mod error;
pub mod eviction;
pub mod key;
pub mod memory;
pub mod multi_tier;
mod table;
pub mod tier;

pub use cache::Cache;
pub use error::{CacheError, TierError};
pub use eviction::{EvictionPolicy, LFU, LRU};
pub use key::CacheKey;
pub use memory::MemoryCache;
pub use multi_tier::MultiTierCache;
pub use tier::{Tier, TierStats};

use clock::{duration_as_nanos, seconds};

verus! {

/// Default TTL for cache entries, in seconds (5 minutes)
pub const DEFAULT_TTL_SECS: u64 = 300;

/// Default memory cache capacity in bytes (1MB)
pub const DEFAULT_CAPACITY: usize = 1024 * 1024;

/// Maximum cache key length
pub const MAX_KEY_LENGTH: usize = 256;

/// Default TTL for cache entries (5 minutes)
pub fn default_ttl() -> (ttl: Duration)
    ensures
        duration_as_nanos(ttl) == DEFAULT_TTL_SECS * 1_000_000_000,
{
    seconds(DEFAULT_TTL_SECS)
}

} // verus!
