//! The interface of the pools of threads that run the server's jobs.
use vstd::prelude::*;

use crate::error::Result;

verus! {

/// A pool of threads that runs jobs.
pub trait ThreadPool {
    /// A pool of `threads` threads.
    fn new(threads: u32) -> Result<Self> where Self: Sized;

    /// Runs `job` on a thread of the pool.
    fn spawn<F>(&self, job: F) where F: FnOnce() + Send + 'static;
}

} // verus!
