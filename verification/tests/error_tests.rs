use cache_layer::error::{CacheError, TierError};
use std::io;

#[test]
fn test_error_display() {
    let err = CacheError::KeyNotFound("test".to_string());
    assert!(err.to_string().contains("Key not found"));

    let io_err = io::Error::new(io::ErrorKind::NotFound, "test");
    let err = CacheError::Io(io_err);
    assert!(err.to_string().contains("I/O error"));
}

#[test]
fn test_tier_error_display() {
    let err = TierError::CapacityExceeded {
        size: 2048,
        max: 1024,
    };
    assert!(err.to_string().contains("Capacity exceeded"));
}

#[test]
fn test_error_conversion() {
    let io_err = io::Error::new(io::ErrorKind::PermissionDenied, "test");
    let cache_err: CacheError = io_err.into();
    assert!(matches!(cache_err, CacheError::Io(_)));
}

#[test]
fn test_capacity_exceeded_full_text() {
    let err = TierError::CapacityExceeded { size: 2048, max: 1024 };
    assert_eq!(err.to_string(), "Capacity exceeded: 2048 bytes (max 1024 bytes)");
}

#[test]
fn test_key_too_long_full_text() {
    let err = CacheError::KeyTooLong { len: 300, max: 256 };
    assert_eq!(err.to_string(), "Key too long: 300 bytes (max 256 bytes)");
    let err = CacheError::KeyTooLong { len: 0, max: 10 };
    assert_eq!(err.to_string(), "Key too long: 0 bytes (max 10 bytes)");
}

#[test]
fn test_error_texts_of_every_variant() {
    assert_eq!(CacheError::KeyNotFound("k".to_string()).to_string(), "Key not found: k");
    assert_eq!(
        CacheError::SerializationError("bad".to_string()).to_string(),
        "Serialization failed: bad"
    );
    assert_eq!(
        CacheError::DeserializationError("bad".to_string()).to_string(),
        "Deserialization failed: bad"
    );
    assert_eq!(CacheError::Network("down".to_string()).to_string(), "Network error: down");
    assert_eq!(CacheError::Other("odd".to_string()).to_string(), "Cache error: odd");
    assert_eq!(TierError::InvalidTTL("neg".to_string()).to_string(), "Invalid TTL: neg");
    assert_eq!(TierError::EvictionFailed("x".to_string()).to_string(), "Eviction failed: x");
    assert_eq!(
        TierError::TierNotAvailable("redis".to_string()).to_string(),
        "Tier not available: redis"
    );
    assert_eq!(TierError::Network("down".to_string()).to_string(), "Network error: down");
    let io_err = io::Error::new(io::ErrorKind::NotFound, "gone");
    assert_eq!(TierError::Io(io_err).to_string(), "I/O error: gone");
}

#[test]
fn test_tier_error_inside_cache_error() {
    let err: CacheError = TierError::CapacityExceeded { size: 5, max: 4 }.into();
    assert!(matches!(err, CacheError::TierError(TierError::CapacityExceeded { size: 5, max: 4 })));
    assert_eq!(err.to_string(), "Tier error: Capacity exceeded: 5 bytes (max 4 bytes)");
}

#[test]
fn test_io_error_into_tier_error() {
    let io_err = io::Error::new(io::ErrorKind::Other, "disk");
    let err: TierError = io_err.into();
    assert!(matches!(err, TierError::Io(_)));
}
