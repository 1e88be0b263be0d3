//! An append-only, log-structured key-value store.
//!
//! Records are appended to a byte log, each prefixed with a checksum and
//! length header; an in-memory index maps keys to the byte offset of their
//! most recent record. The log bytes are the single source of truth: the
//! index is rebuilt by replaying the log, or restored from an index
//! snapshot stored in the log itself as a regular record.

pub mod checksum;
pub mod codec;
pub mod file;
pub mod index;
pub mod snapshot;
pub mod store;
pub mod wire;
