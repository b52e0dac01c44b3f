//! A log-structured key-value store.
//!
//! Every mutation is appended as a record to the active segment of a
//! directory of numbered segments; an index maps each live key to the byte
//! range of its latest `SET` record; compaction rewrites the live records
//! into a fresh segment and retires the older ones.
//!
//! The store holds its segments as bytes and touches no file. A caller that
//! wants them in a directory hands the files to `KvStore::open`, and after
//! an operation carries out what `KvStore::file_op` says each file needs. What is proved of the store is proved of those
//! bytes: every index entry points at the record of its key, and replaying
//! the segments rebuilds what the store holds.

pub mod error;
pub mod json;
pub mod command;
pub mod log;
pub mod names;
pub mod segment;
pub mod index;
pub mod engine;
pub mod thread_pool;
pub mod server;

pub use crate::command::Command;
pub use crate::engine::kv::KvStore;
pub use crate::engine::KvsEngine;
pub use crate::error::KVStoreError;
pub use crate::server::{EngineType, KvServer, Request, Response};
pub use crate::thread_pool::ThreadPool;
