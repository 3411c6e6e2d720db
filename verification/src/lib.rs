//! A log-structured, embedded key-value store: an append-only log of
//! encoded commands, an in-memory index from key to log offset, and a
//! compaction pass that rewrites only the live records.
//!
//! The store itself is a pure state machine over the log contents; the
//! caller owns the log file and applies the returned updates to disk.

pub mod codec;
pub mod error;
pub mod index;
pub mod laws;
pub mod replay;
pub mod store;

pub use codec::Command;
pub use error::KvsError;
pub use store::{KvStore, LogUpdate};
