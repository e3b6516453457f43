//! A queue of intersection variables by the length of the word found for
//! them, kept in a `priority_queue::PriorityQueue` with `Reverse` lengths, so
//! that the shortest comes out first.
use priority_queue::PriorityQueue;
use std::cmp::Reverse;
use vstd::prelude::*;

verus! {

/// A queue of entries `(p, v, q, number)`, each with a length.
#[verifier::external_body]
pub struct LengthQueue {
    inner: PriorityQueue<(usize, usize, usize, usize), Reverse<usize>>,
}

/// The entries of a `LengthQueue` and their lengths.
pub uninterp spec fn length_queue_contents(q: LengthQueue) -> Map<(usize, usize, usize, usize), usize>;

impl View for LengthQueue {
    type V = Map<(usize, usize, usize, usize), usize>;

    open spec fn view(&self) -> Map<(usize, usize, usize, usize), usize> {
        length_queue_contents(*self)
    }
}

/// The queue with no entries.
pub open spec fn no_queued() -> Map<(usize, usize, usize, usize), usize> {
    Map::empty()
}

impl LengthQueue {
    /// `PriorityQueue::with_capacity`: the empty queue.
    #[verifier::external_body]
    pub fn with_capacity(capacity: usize) -> (q: Self)
        ensures
            length_queue_contents(q) == no_queued(),
    {
        LengthQueue { inner: PriorityQueue::with_capacity(capacity) }
    }

    /// `PriorityQueue::push` with `Reverse(length)`: sets the length of `item`.
    #[verifier::external_body]
    pub fn push(&mut self, item: (usize, usize, usize, usize), length: usize)
        ensures
            final(self)@ == old(self)@.insert(item, length),
    {
        self.inner.push(item, Reverse(length));
    }

    /// `PriorityQueue::push_increase` with `Reverse(length)`: adds `item`, or
    /// lowers its length to `length` where that is shorter; otherwise leaves
    /// the queue as it is.
    #[verifier::external_body]
    pub fn push_increase(&mut self, item: (usize, usize, usize, usize), length: usize)
        ensures
            final(self)@ == if !old(self)@.contains_key(item) || length < old(self)@[item] {
                old(self)@.insert(item, length)
            } else {
                old(self)@
            },
    {
        self.inner.push_increase(item, Reverse(length));
    }

    /// `PriorityQueue::pop`: removes an entry of the least length and returns
    /// it with its length, or `None` where the queue is empty.
    #[verifier::external_body]
    pub fn pop(&mut self) -> (r: Option<((usize, usize, usize, usize), usize)>)
        ensures
            match r {
                None => old(self)@.dom() == Set::<(usize, usize, usize, usize)>::empty() && final(self)@ == old(self)@,
                Some((item, length)) => {
                    &&& old(self)@.contains_key(item)
                    &&& old(self)@[item] == length
                    &&& final(self)@ == old(self)@.remove(item)
                    &&& forall|other: (usize, usize, usize, usize)| #[trigger] old(self)@.contains_key(other) ==> length <= old(self)@[other]
                },
            },
    {
        match self.inner.pop() {
            Some((item, Reverse(length))) => Some((item, length)),
            None => None,
        }
    }

    /// `PriorityQueue::len`: the number of entries.
    #[verifier::external_body]
    pub fn len(&self) -> (n: usize)
        ensures
            n == self@.dom().len(),
    {
        self.inner.len()
    }
}

} // verus!
