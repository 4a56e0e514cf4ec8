//! A log-structured key/value store, without its I/O.
//!
//! The library holds what the store decides and computes: the format of the
//! records and of the messages, the in-memory index, the writer's
//! bookkeeping, the replay of segments, the plan and the steps of a
//! compaction, the naming of segment files, the pool of read handles, the
//! server's answers, and the counts of the worker pool. Files, sockets and
//! threads belong to the program around it, which does what the library
//! hands out.
//!
//! - [`engine`]: the store, its parts and its laws, and the engine on `sled`.
//! - [`json`]: string literals, written and read by `serde_json`.
//! - [`protocol`], [`kv_server`], [`kv_client`]: the messages and what server
//!   and client make of them.
//! - [`thread_pool`]: the interface of a worker pool and the counts of the
//!   pool with a shared queue.
//! - [`kvs_error`]: the errors.

pub mod engine;
pub mod json;
pub mod json_lemmas;
pub mod kv_client;
pub mod kv_server;
pub mod kvs_error;
pub mod protocol;
pub mod protocol_lemmas;
pub mod thread_pool;

pub use engine::{KvStore, KvsEngine, SledStore};
pub use kvs_error::KvsError;
