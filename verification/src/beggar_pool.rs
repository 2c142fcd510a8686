use vstd::prelude::*;

use core::sync::atomic::{AtomicUsize, Ordering};
use crossbeam::channel::{Receiver, Sender};
use crossbeam::queue::ArrayQueue;

verus! {

// ---------------------------------------------------------------------------
// Trusted view of the crossbeam pieces the pool is built from.  The channels
// and the ready queue are shared between threads, so nothing useful can be
// promised about the value any single call returns: the contracts below say
// only what holds of every outcome.
// ---------------------------------------------------------------------------

/// A sending handle of a crossbeam channel.
#[verifier::external_type_specification]
#[verifier::external_body]
#[verifier::reject_recursive_types(T)]
pub struct ExSender<T>(Sender<T>);

/// A receiving handle of a crossbeam channel.
#[verifier::external_type_specification]
#[verifier::external_body]
#[verifier::reject_recursive_types(T)]
pub struct ExReceiver<T>(Receiver<T>);

/// A bounded lock-free queue of crossbeam.
#[verifier::external_type_specification]
#[verifier::external_body]
#[verifier::reject_recursive_types(T)]
pub struct ExArrayQueue<T>(ArrayQueue<T>);

/// Relies on crossbeam_channel::bounded: builds one channel of the given
/// capacity and returns its two handles.  It panics on a capacity so large
/// that the lap-and-mark stamp arithmetic would overflow.
pub assume_specification<T>[ crossbeam::channel::bounded::<T> ](cap: usize) -> (Sender<T>, Receiver<
    T,
>)
    requires
        cap <= usize::MAX / 4,
;

/// Relies on crossbeam_queue::ArrayQueue::new, which panics on a zero
/// capacity and on one so large that the stamp arithmetic would overflow.
pub assume_specification<T>[ ArrayQueue::<T>::new ](cap: usize) -> ArrayQueue<T>
    requires
        1 <= cap <= usize::MAX / 2,
;

/// Relies on crossbeam_queue::ArrayQueue::push: never blocks; gives the
/// value back as the error when the queue was full.
pub assume_specification<T>[ ArrayQueue::<T>::push ](q: &ArrayQueue<T>, value: T) -> Result<(), T>;

/// Relies on crossbeam_queue::ArrayQueue::pop: never blocks; takes one
/// element out, or nothing when the queue was empty.
pub assume_specification<T>[ ArrayQueue::<T>::pop ](q: &ArrayQueue<T>) -> Option<T>;

/// Relies on crossbeam_queue::ArrayQueue::is_empty; the answer may be stale
/// by the time it is read.
pub assume_specification<T>[ ArrayQueue::<T>::is_empty ](q: &ArrayQueue<T>) -> bool;

/// Relies on crossbeam_queue::ArrayQueue::len; the count may be stale by the
/// time it is read.
pub assume_specification<T>[ ArrayQueue::<T>::len ](q: &ArrayQueue<T>) -> usize;

/// Relies on crossbeam_channel::Receiver::recv: blocks until a message or
/// until every sender is gone, and returns the message if one came.
#[verifier::external_body]
fn recv_payload<T>(r: &Receiver<T>) -> Option<T> {
    r.recv().ok()
}

/// Relies on crossbeam_channel::Sender::try_send and T::clone: hands a clone
/// of `work` into the channel without blocking; reports whether the channel
/// took it.
#[verifier::external_body]
fn send_clone<T: Clone>(s: &Sender<T>, work: &T) -> bool {
    s.try_send(work.clone()).is_ok()
}

// ---------------------------------------------------------------------------
// The work-donation pool.
// ---------------------------------------------------------------------------

/// Outcome of an attempt to donate a search branch.
#[derive(PartialEq, Eq, Structural, Debug)]
pub enum DonationResult {
    Donated,
    NotDonated,
}

/// A fixed-size rendezvous: idle workers announce themselves in a bounded
/// ready queue, and a donor pops one announcement and hands a cloned payload
/// over that worker's private channel.  A donor never blocks; a beggar
/// blocks only on its own channel.
#[verifier::reject_recursive_types(T)]
pub struct BeggarPool<T: Clone> {
    num_workers: usize,
    workers_registered: AtomicUsize,
    beggar_senders: Vec<Sender<T>>,
    beggar_receivers: Vec<Receiver<T>>,
    beggar_queue: ArrayQueue<usize>,
}

impl<T: Clone> BeggarPool<T> {
    /// How many workers the pool was sized for.
    pub closed spec fn capacity(&self) -> usize {
        self.num_workers
    }

    /// One rendezvous channel exists per worker identifier.
    pub closed spec fn wf(&self) -> bool {
        &&& self.beggar_senders@.len() == self.num_workers
        &&& self.beggar_receivers@.len() == self.num_workers
    }

    /// Build a pool for `num_workers` workers: one single-slot channel per
    /// worker and a ready queue sized to hold every worker at once.
    pub fn new(num_workers: usize) -> (pool: Self)
        requires
            1 <= num_workers <= usize::MAX / 2,
        ensures
            pool.wf(),
            pool.capacity() == num_workers,
    {
        let mut beggar_senders: Vec<Sender<T>> = Vec::new();
        let mut beggar_receivers: Vec<Receiver<T>> = Vec::new();
        let beggar_queue = ArrayQueue::<usize>::new(num_workers);
        let mut k: usize = 0;
        while k < num_workers
            invariant
                k <= num_workers,
                beggar_senders@.len() == k,
                beggar_receivers@.len() == k,
            decreases num_workers - k,
        {
            let (sender, receiver) = crossbeam::channel::bounded::<T>(1);
            beggar_senders.push(sender);
            beggar_receivers.push(receiver);
            k += 1;
        }
        BeggarPool {
            num_workers,
            workers_registered: AtomicUsize::new(0),
            beggar_senders,
            beggar_receivers,
            beggar_queue,
        }
    }

    /// Hand out the next registration number.  The count is shared between
    /// threads, so the number only means something when every worker
    /// registers exactly once.
    pub fn register(&self) -> usize {
        self.workers_registered.fetch_add(1, Ordering::Relaxed)
    }

    /// How many workers the pool was sized for.
    pub fn num_workers(&self) -> (n: usize)
        ensures
            n == self.capacity(),
    {
        self.num_workers
    }

    /// Announce idleness under `id`, then block until a donor sends a
    /// payload on `id`'s channel.  Nothing comes back when the ready queue
    /// was full or the channel closed; both mean no work is to be had.
    pub fn beg_work(&self, id: usize) -> (work: Option<T>)
        requires
            self.wf(),
            id < self.capacity(),
    {
        match self.beggar_queue.push(id) {
            Ok(_) => recv_payload(&self.beggar_receivers[id]),
            _ => None,
        }
    }

    /// Offer a clone of `work` to some currently begging worker.  Never
    /// blocks: when no worker is ready, or the popped announcement cannot be
    /// served, the caller keeps the branch and `NotDonated` says so.
    pub fn donate_work(&self, work: &T) -> (r: DonationResult)
        requires
            self.wf(),
    {
        match self.beggar_queue.pop() {
            Option::Some(id) => {
                if id < self.beggar_senders.len() {
                    if send_clone(&self.beggar_senders[id], work) {
                        DonationResult::Donated
                    } else {
                        DonationResult::NotDonated
                    }
                } else {
                    DonationResult::NotDonated
                }
            },
            Option::None => DonationResult::NotDonated,
        }
    }

    /// Whether at least one worker was begging a moment ago; under
    /// concurrent use the answer may already be stale.
    pub fn is_ready(&self) -> bool {
        !self.beggar_queue.is_empty()
    }

    /// How many workers were begging a moment ago.  A worker stands in the
    /// ready queue exactly while it blocks on its channel, and only a donor
    /// removes it, so a count equal to the worker total means nobody is
    /// searching and nobody is mid-donation: the search has gone quiet.
    pub fn ready_count(&self) -> usize {
        self.beggar_queue.len()
    }
}

} // verus!
