//! The supervision rule of the worker pool: a worker that stops abnormally
//! is replaced, so the pool keeps its size.

use vstd::prelude::*;

verus! {

/// What the pool does after a worker stops.
#[derive(Debug, Clone, Copy, PartialEq, Eq, Structural)]
pub enum PoolAction {
    /// Start a new worker on the same queue.
    Replace,
    /// Let the pool shrink: the queue is closed.
    Shrink,
}

/// The count of the pool's workers against the size it was made with.
pub struct Supervisor {
    size: u32,
    live: u32,
}

impl Supervisor {
    /// The size that the pool was made with.
    pub closed spec fn size(&self) -> u32 {
        self.size
    }

    /// The workers running now.
    pub closed spec fn live(&self) -> u32 {
        self.live
    }

    /// A pool of `size` workers, all of them started.
    pub fn new(size: u32) -> (r: Supervisor)
        ensures
            r.size() == size,
            r.live() == size,
    {
        Supervisor { size, live: size }
    }

    /// The size that the pool was made with.
    pub fn pool_size(&self) -> (r: u32)
        ensures
            r == self.size(),
    {
        self.size
    }

    /// The workers running now.
    pub fn live_workers(&self) -> (r: u32)
        ensures
            r == self.live(),
    {
        self.live
    }

    /// A worker has stopped; `abnormal` where it stopped by a fault in a task
    /// rather than because the queue was closed. A worker stopped abnormally
    /// is replaced; the task that faulted is not run again.
    pub fn worker_stopped(&mut self, abnormal: bool) -> (r: PoolAction)
        requires
            old(self).live() > 0,
        ensures
            final(self).size() == old(self).size(),
            r == (if abnormal {
                PoolAction::Replace
            } else {
                PoolAction::Shrink
            }),
            final(self).live() == old(self).live() - 1,
    {
        self.live = self.live - 1;
        if abnormal {
            PoolAction::Replace
        } else {
            PoolAction::Shrink
        }
    }

    /// A replacement worker has started.
    pub fn worker_started(&mut self)
        requires
            old(self).live() < old(self).size(),
        ensures
            final(self).size() == old(self).size(),
            final(self).live() == old(self).live() + 1,
    {
        self.live = self.live + 1;
    }
}

} // verus!
