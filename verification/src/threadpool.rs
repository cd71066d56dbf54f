//! The worker-pool interface: any pool that runs each submitted job
//! exactly once satisfies it.  The implementations spawn threads and live
//! in the shell around the library.

use crate::error::TsaError;
use vstd::prelude::*;

verus! {

/// A pool of workers: each submitted job eventually runs exactly once,
/// unless the pool is dropped before the job dequeues.
pub trait ThreadPoolTrait: Sized {
    /// Creates a pool with the given number of workers.
    fn new(threads: u32) -> Result<Self, TsaError>;

    /// Submits one job.
    fn spawn<F: FnOnce() + Send + 'static>(&self, job: F);
}

/// The pool kinds.
#[derive(Debug, Clone, Copy, PartialEq, Eq, Structural)]
pub enum PoolType {
    /// A fresh thread per job.
    Naive,
    /// Fixed workers pulling from a shared queue.
    Queue,
    /// A work-stealing pool.
    Rayon,
}

impl PoolType {
    /// The kind's name.
    pub fn as_str(&self) -> (r: &'static str)
        ensures
            self is Naive ==> r@ == "naive"@,
            self is Queue ==> r@ == "queue"@,
            self is Rayon ==> r@ == "rayon"@,
    {
        match self {
            PoolType::Naive => "naive",
            PoolType::Queue => "queue",
            PoolType::Rayon => "rayon",
        }
    }
}

} // verus!
