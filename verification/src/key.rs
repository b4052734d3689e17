//! Keys that the cache and its eviction policies can compare and copy.

use vstd::prelude::*;

verus! {

/// A key that can be stored in a cache tier and tracked by an eviction policy.
///
/// Two keys are the same key exactly when their views are equal; `key_eq`
/// decides that, and `key_clone` makes a copy with the same view.
pub trait CacheKey: View + Sized {
    /// Whether `self` and `other` are the same key.
    fn key_eq(&self, other: &Self) -> (same: bool)
        ensures
            same == (self@ == other@),
    ;

    /// A copy of this key.
    fn key_clone(&self) -> (copy: Self)
        ensures
            copy@ == self@,
    ;
}

impl CacheKey for String {
    fn key_eq(&self, other: &Self) -> (same: bool) {
        *self == *other
    }

    fn key_clone(&self) -> (copy: Self) {
        self.clone()
    }
}

impl<'a> CacheKey for &'a str {
    fn key_eq(&self, other: &Self) -> (same: bool) {
        let mine: String = (*self).to_owned();
        let theirs: String = (*other).to_owned();
        mine == theirs
    }

    fn key_clone(&self) -> (copy: Self) {
        *self
    }
}

impl CacheKey for u8 {
    fn key_eq(&self, other: &Self) -> (same: bool) {
        *self == *other
    }

    fn key_clone(&self) -> (copy: Self) {
        *self
    }
}

impl CacheKey for u16 {
    fn key_eq(&self, other: &Self) -> (same: bool) {
        *self == *other
    }

    fn key_clone(&self) -> (copy: Self) {
        *self
    }
}

impl CacheKey for u32 {
    fn key_eq(&self, other: &Self) -> (same: bool) {
        *self == *other
    }

    fn key_clone(&self) -> (copy: Self) {
        *self
    }
}

impl CacheKey for u64 {
    fn key_eq(&self, other: &Self) -> (same: bool) {
        *self == *other
    }

    fn key_clone(&self) -> (copy: Self) {
        *self
    }
}

impl CacheKey for usize {
    fn key_eq(&self, other: &Self) -> (same: bool) {
        *self == *other
    }

    fn key_clone(&self) -> (copy: Self) {
        *self
    }
}

impl CacheKey for i32 {
    fn key_eq(&self, other: &Self) -> (same: bool) {
        *self == *other
    }

    fn key_clone(&self) -> (copy: Self) {
        *self
    }
}

impl CacheKey for i64 {
    fn key_eq(&self, other: &Self) -> (same: bool) {
        *self == *other
    }

    fn key_clone(&self) -> (copy: Self) {
        *self
    }
}

} // verus!
