//! The storage engines: the log-structured store and its parts, and the
//! engine on top of `sled`.

use crate::kvs_error::KvsError;
use vstd::prelude::*;

pub mod command;
pub mod command_lemmas;
pub mod compaction_laws;
pub mod index;
pub mod kvs;
pub mod kvs_laws;
pub mod load_laws;
pub mod open_laws;
pub mod reader;
pub mod run_laws;
pub mod safe_point_laws;
pub mod segment;
pub mod sleds;

pub use kvs::KvStore;
pub use sleds::SledStore;

verus! {

/// A storage engine: what a server needs of the store behind it. A handle
/// can be cloned, and the clones speak to the same store.
pub trait KvsEngine: Clone + Send + 'static {
    /// Sets the value of a key; a value that the key had is overwritten.
    fn set(&self, key: String, value: String) -> Result<(), KvsError>;

    /// The value of a key; `None` where the key has none.
    fn get(&self, key: String) -> Result<Option<String>, KvsError>;

    /// Removes a key; `KeyNotFound` where the key has no value.
    fn remove(&self, key: String) -> Result<(), KvsError>;
}

} // verus!
