//! The error type shared by all store operations.

use vstd::prelude::*;

verus! {

/// Everything that can go wrong in the store.
#[derive(Debug, Clone, Copy, PartialEq, Eq, Structural)]
pub enum KvsError {
    /// A failure of the underlying storage (reported by the caller that
    /// owns the log file; the in-memory store never produces it).
    Io,
    /// Malformed bytes met while decoding a record.
    Serialization,
    /// `remove` was asked for a key that is not present.
    KeyNotFound,
    /// An index entry did not point at a live `Set` record.
    Internal,
}

impl KvsError {
    /// A short human-readable description of the error.
    pub fn describe(&self) -> (r: &'static str)
        ensures
            r@ == match self {
                KvsError::Io => "i/o error"@,
                KvsError::Serialization => "serialization error"@,
                KvsError::KeyNotFound => "Key not found"@,
                KvsError::Internal => "index and log diverged"@,
            },
    {
        match self {
            KvsError::Io => "i/o error",
            KvsError::Serialization => "serialization error",
            KvsError::KeyNotFound => "Key not found",
            KvsError::Internal => "index and log diverged",
        }
    }
}

} // verus!
