//! A log-structured key/value store with a verified storage engine.
//!
//! The engine keeps every segment of its write-ahead log as a sequence of
//! bytes, together with an index from each live key to the record that holds
//! its value.  Every change to a segment is also written to a journal of disk
//! operations, so that a caller can mirror the store onto files.

pub mod client;
pub mod codec;
pub mod command;
pub mod compaction;
pub mod engine;
pub mod error;
pub mod file_store;
pub mod json;
pub mod kvs;
pub mod laws;
pub mod log;
pub mod names;
pub mod record;
pub mod replay;
pub mod server;
pub mod text;
pub mod wal;

pub use crate::command::Command;
pub use crate::engine::{EngineType, KvsEngine};
pub use crate::error::KvsError;
pub use crate::file_store::{DiskOp, FileStore};
pub use crate::kvs::KvStore;
pub use crate::server::KvsServer;
