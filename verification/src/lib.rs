//! Storage core of a minimal durable key-value engine.
//!
//! The crate is organised bottom-up:
//! - [`endian`]: big-endian encodings of the fixed-width record fields;
//! - [`wal`]: the write-ahead-log record format — encoding, checksummed
//!   decoding, and whole-image recovery;
//! - [`memtable`]: the in-memory map of live keys;
//! - [`engine`]: the engine state machine that ties the log history to the
//!   map and carries the durability argument.
//!
//! File and network I/O live outside this crate: callers read the log file
//! into bytes and hand them to [`wal::recover_records`], and write the
//! bytes produced by [`wal::encode_record`] before applying a mutation to
//! the [`engine::Engine`].

pub mod endian;
pub mod engine;
pub mod memtable;
pub mod wal;

pub use engine::{Engine, EngineError};
pub use wal::{WalError, WalRecord};
