//! The worker pool that a front end hands its jobs to.

use vstd::prelude::*;
use crate::error::KVStoreError;

verus! {

/// A pool of worker threads.
pub trait ThreadPool {
    /// Creates a pool of `thread` workers.
    fn new(thread: u32) -> Result<Self, KVStoreError> where Self: Sized;

    /// Hands a job to the pool. The job must be ready to run.
    fn spawn<F>(&self, job: F) where F: FnOnce() + Send + 'static
        requires
            job.requires(()),
    ;
}

/// What a pool with a shared queue sends to its workers. `J` is the type
/// of a job.
pub enum Message<J> {
    /// A job to run.
    NewJob(J),
    /// The worker is to stop.
    Terminate,
}

/// What a worker does with what it received from the queue: the job to
/// run, or `None` where it is to stop. A worker stops when it is told to,
/// and when the queue is closed.
pub fn next_job<J>(received: Option<Message<J>>) -> (job: Option<J>)
    ensures
        job == match received {
            Some(Message::NewJob(job)) => Some(job),
            _ => None,
        },
{
    match received {
        Some(Message::NewJob(job)) => Some(job),
        Some(Message::Terminate) => None,
        None => None,
    }
}

} // verus!
