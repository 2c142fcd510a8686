use vstd::prelude::*;

use core::sync::atomic::{AtomicUsize, Ordering};
use crossbeam::queue::ArrayQueue;

verus! {

/// Outcome of an attempt to donate a search branch.
#[derive(PartialEq, Eq, Structural, Debug)]
pub enum DonationResult {
    Donated,
    NotDonated,
}

/// An alternative rebalancing scheme: every worker owns a bounded queue of
/// payloads, and an idle worker walks the other workers' queues and steals
/// one.  The queues are shared between threads, so no call promises more
/// than that it returns without blocking.
#[verifier::reject_recursive_types(T)]
pub struct StealerPool<T: Clone> {
    num_workers: usize,
    workers_registered: AtomicUsize,
    work_queues: Vec<ArrayQueue<T>>,
}

impl<T: Clone> StealerPool<T> {
    /// How many workers the pool was sized for.
    pub closed spec fn capacity(&self) -> usize {
        self.num_workers
    }

    /// One work queue exists per worker identifier.
    pub closed spec fn wf(&self) -> bool {
        self.work_queues@.len() == self.num_workers
    }

    /// Build a pool of `num_workers` work queues.
    pub fn new(num_workers: usize) -> (pool: Self)
        ensures
            pool.wf(),
            pool.capacity() == num_workers,
    {
        let mut work_queues: Vec<ArrayQueue<T>> = Vec::new();
        let mut k: usize = 0;
        while k < num_workers
            invariant
                k <= num_workers,
                work_queues@.len() == k,
            decreases num_workers - k,
        {
            work_queues.push(ArrayQueue::<T>::new(1024));
            k += 1;
        }
        StealerPool { num_workers, workers_registered: AtomicUsize::new(0), work_queues }
    }

    /// Hand out the next registration number; meaningful when every worker
    /// registers exactly once.
    pub fn register(&self) -> usize {
        self.workers_registered.fetch_add(1, Ordering::Relaxed)
    }

    /// Try every other worker's queue once and take the first payload found;
    /// never blocks.
    pub fn steal_work(&self, id: usize) -> (work: Option<T>)
        requires
            self.wf(),
    {
        let mut k: usize = 0;
        while k < self.num_workers
            invariant
                self.wf(),
                k <= self.num_workers,
            decreases self.num_workers - k,
        {
            if k != id {
                match self.work_queues[k].pop() {
                    Option::Some(work) => {
                        return Some(work);
                    },
                    Option::None => {},
                }
            }
            k += 1;
        }
        None
    }

    /// Whether every worker has registered; under concurrent use the count
    /// may already be stale.
    pub fn is_ready(&self) -> bool {
        let registered = self.workers_registered.load(Ordering::Relaxed);
        self.num_workers == registered
    }
}

} // verus!
