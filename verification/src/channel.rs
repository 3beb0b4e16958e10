//! The bounded channel between the split builder and the split finalizer.
//!
//! The channel is the pipeline's backpressure: it holds the sealed splits
//! that are not yet committed, and its well-formedness bounds their number
//! by the fixed capacity chosen at construction, so the builder can never
//! outrun the finalizer by more than that capacity.

use vstd::prelude::*;

use crate::split::Split;

verus! {

/// A first-in first-out queue of sealed splits with a fixed capacity.
pub struct SplitChannel {
    /// The splits in flight, oldest first.
    pub queue: Vec<Split>,
    /// The fixed bound on `queue`.
    pub capacity: usize,
}

impl SplitChannel {
    /// The splits currently held, oldest first.
    pub open spec fn view(self) -> Seq<Split> {
        self.queue@
    }

    /// The fixed capacity chosen at construction.
    pub open spec fn cap(self) -> nat {
        self.capacity as nat
    }

    /// The channel never holds more splits than its capacity.
    pub open spec fn wf(self) -> bool {
        &&& self.queue@.len() <= self.capacity
        &&& self.capacity >= 1
    }

    /// Creates an empty channel of the given capacity.
    pub fn new(capacity: usize) -> (r: SplitChannel)
        requires
            capacity >= 1,
        ensures
            r.wf(),
            r.cap() == capacity,
            r@ =~= Seq::<Split>::empty(),
    {
        SplitChannel { queue: Vec::new(), capacity }
    }

    /// Number of splits currently held.
    pub fn len(&self) -> (r: usize)
        ensures
            r == self@.len(),
    {
        self.queue.len()
    }

    /// Whether the channel is full; a sender must wait before sending.
    pub fn is_full(&self) -> (r: bool)
        ensures
            r == (self@.len() == self.cap()),
    {
        self.queue.len() == self.capacity
    }

    /// Whether the channel is empty; a receiver must wait before receiving.
    pub fn is_empty(&self) -> (r: bool)
        ensures
            r == (self@.len() == 0),
    {
        self.queue.len() == 0
    }

    /// Enqueues one sealed split; only callable while there is room, which
    /// is what throttles the builder to the finalizer's pace.
    pub fn send(&mut self, split: Split)
        requires
            old(self).wf(),
            old(self)@.len() < old(self).cap(),
        ensures
            final(self).wf(),
            final(self).cap() == old(self).cap(),
            final(self)@ =~= old(self)@.push(split),
    {
        self.queue.push(split);
    }

    /// Dequeues the oldest split; the finalizer therefore sees splits in
    /// exactly the order they were sent.
    pub fn recv(&mut self) -> (r: Split)
        requires
            old(self).wf(),
            old(self)@.len() > 0,
        ensures
            final(self).wf(),
            final(self).cap() == old(self).cap(),
            r == old(self)@[0],
            final(self)@ =~= old(self)@.drop_first(),
    {
        self.queue.remove(0)
    }
}

} // verus!
