//! Error types for cache-layer operations, and the text that describes them.

use vstd::prelude::*;
use vstd::string::StringExecFns;

verus! {

/// `std::io::Error`, carried through the error types as an opaque value.
#[verifier::external_type_specification]
#[verifier::external_body]
pub struct ExIoError(std::io::Error);

/// The character of the decimal digit `d` (for `d < 10`).
pub open spec fn digit_char(d: nat) -> char {
    if d == 0 {
        '0'
    } else if d == 1 {
        '1'
    } else if d == 2 {
        '2'
    } else if d == 3 {
        '3'
    } else if d == 4 {
        '4'
    } else if d == 5 {
        '5'
    } else if d == 6 {
        '6'
    } else if d == 7 {
        '7'
    } else if d == 8 {
        '8'
    } else {
        '9'
    }
}

/// The decimal representation of `n`, most significant digit first, without leading zeros.
pub open spec fn decimal(n: nat) -> Seq<char>
    decreases n,
{
    if n < 10 {
        seq![digit_char(n)]
    } else {
        decimal(n / 10).push(digit_char(n % 10))
    }
}

/// The one-character string of the decimal digit `d`.
fn digit_str(d: usize) -> (s: &'static str)
    requires
        d < 10,
    ensures
        s@ == seq![digit_char(d as nat)],
{
    proof {
        reveal_strlit("0");
        reveal_strlit("1");
        reveal_strlit("2");
        reveal_strlit("3");
        reveal_strlit("4");
        reveal_strlit("5");
        reveal_strlit("6");
        reveal_strlit("7");
        reveal_strlit("8");
        reveal_strlit("9");
    }
    if d == 0 {
        "0"
    } else if d == 1 {
        "1"
    } else if d == 2 {
        "2"
    } else if d == 3 {
        "3"
    } else if d == 4 {
        "4"
    } else if d == 5 {
        "5"
    } else if d == 6 {
        "6"
    } else if d == 7 {
        "7"
    } else if d == 8 {
        "8"
    } else {
        "9"
    }
}

/// Append the decimal representation of `n` to `text`.
fn append_decimal(text: &mut String, n: usize)
    ensures
        final(text)@ == old(text)@ + decimal(n as nat),
    decreases n,
{
    if n >= 10 {
        append_decimal(text, n / 10);
    }
    text.append(digit_str(n % 10));
    proof {
        assert(final(text)@ =~= old(text)@ + decimal(n as nat));
    }
}

/// Errors that can occur in cache operations
#[derive(Debug)]
pub enum CacheError {
    /// Key not found in cache
    KeyNotFound(String),
    /// Key exceeds maximum length
    KeyTooLong {
        /// Actual length of the key
        len: usize,
        /// Maximum allowed length
        max: usize,
    },
    /// Serialization error
    SerializationError(String),
    /// Deserialization error
    DeserializationError(String),
    /// Tier operation error
    TierError(TierError),
    /// I/O error
    Io(std::io::Error),
    /// Network error
    Network(String),
    /// Generic error
    Other(String),
}

/// Errors that can occur in tier operations
#[derive(Debug)]
pub enum TierError {
    /// Capacity exceeded
    CapacityExceeded {
        /// Current size in bytes
        size: usize,
        /// Maximum capacity in bytes
        max: usize,
    },
    /// Invalid TTL
    InvalidTTL(String),
    /// Eviction failed
    EvictionFailed(String),
    /// Tier not available
    TierNotAvailable(String),
    /// I/O error
    Io(std::io::Error),
    /// Network error
    Network(String),
}

impl TierError {
    /// Whether `text` describes this error: the fixed wording of its variant
    /// with its fields filled in (for an I/O error, the wording is followed by
    /// the I/O error's own text).
    pub open spec fn describes(&self, text: Seq<char>) -> bool {
        match self {
            TierError::CapacityExceeded { size, max } => text == "Capacity exceeded: "@ + decimal(
                *size as nat,
            ) + " bytes (max "@ + decimal(*max as nat) + " bytes)"@,
            TierError::InvalidTTL(m) => text == "Invalid TTL: "@ + m@,
            TierError::EvictionFailed(m) => text == "Eviction failed: "@ + m@,
            TierError::TierNotAvailable(m) => text == "Tier not available: "@ + m@,
            TierError::Io(_) => "I/O error: "@.is_prefix_of(text),
            TierError::Network(m) => text == "Network error: "@ + m@,
        }
    }

    /// Human-readable description of this error.
    pub fn to_string(&self) -> (text: String)
        ensures
            self.describes(text@),
    {
        match self {
            TierError::CapacityExceeded { size, max } => {
                let mut text = String::from_str("Capacity exceeded: ");
                append_decimal(&mut text, *size);
                text.append(" bytes (max ");
                append_decimal(&mut text, *max);
                text.append(" bytes)");
                text
            },
            TierError::InvalidTTL(m) => String::from_str("Invalid TTL: ").concat(m.as_str()),
            TierError::EvictionFailed(m) => String::from_str("Eviction failed: ").concat(m.as_str()),
            TierError::TierNotAvailable(m) => String::from_str("Tier not available: ").concat(
                m.as_str(),
            ),
            TierError::Io(e) => {
                let inner = e.to_string();
                let text = String::from_str("I/O error: ").concat(inner.as_str());
                assert("I/O error: "@.is_prefix_of(text@)) by {
                    assert(text@.subrange(0, "I/O error: "@.len() as int) =~= "I/O error: "@);
                }
                text
            },
            TierError::Network(m) => String::from_str("Network error: ").concat(m.as_str()),
        }
    }
}

impl CacheError {
    /// Whether `text` describes this error: the fixed wording of its variant
    /// with its fields filled in (for an I/O error, the wording is followed by
    /// the I/O error's own text).
    pub open spec fn describes(&self, text: Seq<char>) -> bool {
        match self {
            CacheError::KeyNotFound(k) => text == "Key not found: "@ + k@,
            CacheError::KeyTooLong { len, max } => text == "Key too long: "@ + decimal(*len as nat)
                + " bytes (max "@ + decimal(*max as nat) + " bytes)"@,
            CacheError::SerializationError(m) => text == "Serialization failed: "@ + m@,
            CacheError::DeserializationError(m) => text == "Deserialization failed: "@ + m@,
            CacheError::TierError(t) => exists|inner: Seq<char>|
                t.describes(inner) && text == "Tier error: "@ + inner,
            CacheError::Io(_) => "I/O error: "@.is_prefix_of(text),
            CacheError::Network(m) => text == "Network error: "@ + m@,
            CacheError::Other(m) => text == "Cache error: "@ + m@,
        }
    }

    /// Human-readable description of this error.
    pub fn to_string(&self) -> (text: String)
        ensures
            self.describes(text@),
    {
        match self {
            CacheError::KeyNotFound(k) => String::from_str("Key not found: ").concat(k.as_str()),
            CacheError::KeyTooLong { len, max } => {
                let mut text = String::from_str("Key too long: ");
                append_decimal(&mut text, *len);
                text.append(" bytes (max ");
                append_decimal(&mut text, *max);
                text.append(" bytes)");
                text
            },
            CacheError::SerializationError(m) => String::from_str("Serialization failed: ").concat(
                m.as_str(),
            ),
            CacheError::DeserializationError(m) => String::from_str(
                "Deserialization failed: ",
            ).concat(m.as_str()),
            CacheError::TierError(t) => {
                let inner = t.to_string();
                String::from_str("Tier error: ").concat(inner.as_str())
            },
            CacheError::Io(e) => {
                let inner = e.to_string();
                let text = String::from_str("I/O error: ").concat(inner.as_str());
                assert("I/O error: "@.is_prefix_of(text@)) by {
                    assert(text@.subrange(0, "I/O error: "@.len() as int) =~= "I/O error: "@);
                }
                text
            },
            CacheError::Network(m) => String::from_str("Network error: ").concat(m.as_str()),
            CacheError::Other(m) => String::from_str("Cache error: ").concat(m.as_str()),
        }
    }
}

impl From<TierError> for CacheError {
    fn from(err: TierError) -> (converted: Self) {
        CacheError::TierError(err)
    }
}

impl vstd::std_specs::convert::FromSpecImpl<TierError> for CacheError {
    open spec fn obeys_from_spec() -> bool {
        true
    }

    open spec fn from_spec(v: TierError) -> Self {
        CacheError::TierError(v)
    }
}

impl From<std::io::Error> for CacheError {
    fn from(err: std::io::Error) -> (converted: Self) {
        CacheError::Io(err)
    }
}

impl vstd::std_specs::convert::FromSpecImpl<std::io::Error> for CacheError {
    open spec fn obeys_from_spec() -> bool {
        true
    }

    open spec fn from_spec(v: std::io::Error) -> Self {
        CacheError::Io(v)
    }
}

impl From<std::io::Error> for TierError {
    fn from(err: std::io::Error) -> (converted: Self) {
        TierError::Io(err)
    }
}

impl vstd::std_specs::convert::FromSpecImpl<std::io::Error> for TierError {
    open spec fn obeys_from_spec() -> bool {
        true
    }

    open spec fn from_spec(v: std::io::Error) -> Self {
        TierError::Io(v)
    }
}

} // verus!
