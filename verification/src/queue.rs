//! Bounded FIFO work queue.
//!
//! `push` never blocks: at capacity it fails and leaves the queue
//! unchanged. `pop` removes the oldest element, or returns `None` when
//! the queue is observably empty. A single logical consumer drains it.
use vstd::prelude::*;

verus! {

/// A bounded first-in/first-out queue with a capacity fixed at
/// construction. Its view is the sequence of pending elements, oldest
/// first; the sequence never grows past the capacity.
pub struct Queue<T> {
    items: Vec<T>,
    capacity: usize,
}

impl<T> View for Queue<T> {
    type V = Seq<T>;

    closed spec fn view(&self) -> Seq<T> {
        self.items@
    }
}

impl<T> Queue<T> {
    /// The capacity the queue was constructed with.
    pub closed spec fn spec_capacity(&self) -> usize {
        self.capacity
    }

    /// The queue never holds more elements than its capacity.
    pub open spec fn wf(&self) -> bool {
        self@.len() <= self.spec_capacity()
    }

    /// An empty queue with the given capacity.
    pub fn new(capacity: usize) -> (q: Self)
        ensures
            q.wf(),
            q@ =~= Seq::<T>::empty(),
            q.spec_capacity() == capacity,
    {
        Queue { items: Vec::new(), capacity }
    }

    /// Inserts at the tail, unless the queue is full; a failed push has
    /// no effect.
    pub fn push(&mut self, value: T) -> (ok: bool)
        requires
            old(self).wf(),
        ensures
            final(self).wf(),
            final(self).spec_capacity() == old(self).spec_capacity(),
            ok == (old(self)@.len() < old(self).spec_capacity()),
            ok ==> final(self)@ =~= old(self)@.push(value),
            !ok ==> final(self)@ =~= old(self)@,
    {
        if self.items.len() >= self.capacity {
            return false;
        }
        self.items.push(value);
        true
    }

    /// Removes and returns the oldest element, or `None` on an empty
    /// queue.
    pub fn pop(&mut self) -> (r: Option<T>)
        requires
            old(self).wf(),
        ensures
            final(self).wf(),
            final(self).spec_capacity() == old(self).spec_capacity(),
            old(self)@.len() == 0 ==> r is None && final(self)@ =~= old(self)@,
            old(self)@.len() > 0 ==> r == Some(old(self)@[0]) && final(self)@ =~= old(self)@.drop_first(),
    {
        if self.items.len() == 0 {
            return None;
        }
        let value = self.items.remove(0);
        Some(value)
    }

    /// True when nothing is pending.
    pub fn is_empty(&self) -> (r: bool)
        ensures
            r == (self@.len() == 0),
    {
        self.items.len() == 0
    }

    /// The number of pending elements; always at most the capacity.
    pub fn len(&self) -> (n: usize)
        requires
            self.wf(),
        ensures
            n == self@.len(),
            n <= self.spec_capacity(),
    {
        self.items.len()
    }
}

} // verus!
