//! The bookkeeping of the pool with a shared queue: how many workers it is
//! meant to have, how many are running, and when a worker that ended is to
//! be replaced. Starting the threads and the queue itself are left to the
//! program around the library.

use crate::kvs_error::KvsError;
use vstd::prelude::*;

verus! {

/// The workers of a pool with a shared queue, counted.
pub struct SharedQueueThreadPool {
    /// The number of workers that the pool is meant to have.
    threads: u32,
    /// The number of workers that are running.
    running: u32,
}

/// The counts of a pool as a mathematical value.
pub struct PoolView {
    pub threads: nat,
    pub running: nat,
}

impl View for SharedQueueThreadPool {
    type V = PoolView;

    closed spec fn view(&self) -> PoolView {
        PoolView { threads: self.threads as nat, running: self.running as nat }
    }
}

/// The counts after a worker was started: one more is running, unless the
/// pool is at strength already.
pub open spec fn started(v: PoolView) -> PoolView {
    if v.running < v.threads {
        PoolView { running: v.running + 1, ..v }
    } else {
        v
    }
}

/// The counts after a worker ended: one less is running.
pub open spec fn exited(v: PoolView) -> PoolView {
    if v.running > 0 {
        PoolView { running: (v.running - 1) as nat, ..v }
    } else {
        v
    }
}

impl SharedQueueThreadPool {
    /// Whether no more workers run than the pool is meant to have. This
    /// holds of every pool.
    #[verifier::type_invariant]
    spec fn in_bounds(self) -> bool {
        self.running <= self.threads
    }

    /// The counts of a pool that is meant to have `threads` workers, none of
    /// which is running yet: the caller starts `missing()` of them.
    pub fn new(threads: u32) -> (r: Result<SharedQueueThreadPool, KvsError>)
        ensures
            r is Ok,
            r->Ok_0@ == (PoolView { threads: threads as nat, running: 0 }),
    {
        Ok(SharedQueueThreadPool { threads, running: 0 })
    }

    /// The number of workers that the pool is meant to have.
    pub fn threads(&self) -> (r: u32)
        ensures
            r == self@.threads,
    {
        self.threads
    }

    /// The number of workers that are running.
    pub fn running(&self) -> (r: u32)
        ensures
            r == self@.running,
            self@.running <= self@.threads,
    {
        proof {
            use_type_invariant(self);
        }
        self.running
    }

    /// The number of workers to start for the pool to be at strength.
    pub fn missing(&self) -> (r: u32)
        ensures
            r == self@.threads - self@.running,
    {
        proof {
            use_type_invariant(self);
        }
        self.threads - self.running
    }

    /// Records that a worker was started. The result is `false`, with the
    /// counts unchanged, where the pool is at strength already: the worker
    /// is one too many and must not run.
    pub fn worker_started(&mut self) -> (r: bool)
        ensures
            r == (old(self)@.running < old(self)@.threads),
            final(self)@ == started(old(self)@),
    {
        if self.running < self.threads {
            self.running = self.running + 1;
            true
        } else {
            false
        }
    }

    /// Records that a worker ended, and decides whether it is to be
    /// replaced: a worker that ended in a panic is, one that ended because
    /// the queue was closed is not.
    pub fn worker_exited(&mut self, panicking: bool) -> (r: bool)
        ensures
            r == panicking,
            final(self)@ == exited(old(self)@),
    {
        proof {
            use_type_invariant(&*self);
        }
        if self.running > 0 {
            self.running = self.running - 1;
        }
        panicking
    }
}

/// A pool at strength stays at strength when a job panics: the worker that
/// ended is due to be replaced, and once its replacement was started as many
/// workers run as before.
pub proof fn lemma_panic_keeps_strength(v: PoolView)
    requires
        v.running == v.threads,
    ensures
        started(exited(v)) == v,
{
}

/// However workers start and end, no more of them run than the pool is
/// meant to have.
pub proof fn lemma_counts_in_bounds(v: PoolView)
    requires
        v.running <= v.threads,
    ensures
        started(v).running <= v.threads,
        exited(v).running <= v.threads,
        started(v).threads == v.threads,
        exited(v).threads == v.threads,
{
}

} // verus!
