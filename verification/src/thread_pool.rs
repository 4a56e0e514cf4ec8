//! The interface of a worker pool, and the bookkeeping of the pool with a
//! shared queue.

use crate::kvs_error::KvsError;
use vstd::prelude::*;

pub mod shared;

pub use shared::SharedQueueThreadPool;

verus! {

/// A pool of worker threads that runs the jobs handed to it.
pub trait ThreadPool {
    /// A pool of `threads` workers, which are started at once. An error
    /// where a thread cannot be started.
    fn new(threads: u32) -> Result<Self, KvsError> where Self: Sized;

    /// Hands a job to the pool. A job that panics takes no worker from the
    /// pool: the pool goes on with as many threads as before.
    fn spawn<F>(&self, job: F) where F: FnOnce() + Send + 'static;
}

} // verus!
