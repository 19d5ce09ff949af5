//! A FIFO queue over a circular buffer whose capacity is fixed at
//! construction: no resize logic at all.
//!
//! Enqueue writes unconditionally at the write cursor, so exceeding the fixed
//! capacity is a violated precondition rather than a handled condition — the
//! `requires` clause on [`NonResizableArrayQueue::enqueue`] makes the caller's
//! contract a checked one. In exchange every operation is O(1) in the worst
//! case and the memory footprint never moves, which fits workloads whose
//! maximum occupancy is known ahead of time.

use vstd::prelude::*;

use crate::ring_buffer::RingBuffer;

verus! {

/// A FIFO queue of `i32` values with a caller-fixed, never-resized capacity.
pub struct NonResizableArrayQueue {
    ring: RingBuffer,
}

impl NonResizableArrayQueue {
    /// The fixed capacity: the greatest number of values the queue can hold.
    pub closed spec fn capacity(self) -> int {
        self.ring.capacity()
    }

    /// The queue is a well-formed ring.
    pub closed spec fn wf(self) -> bool {
        self.ring.wf()
    }

    /// The values the queue holds, oldest first.
    pub closed spec fn view(self) -> Seq<i32> {
        self.ring.contents()
    }

    /// Creates an empty queue holding at most `capacity` values.
    pub fn new(capacity: usize) -> (q: NonResizableArrayQueue)
        ensures
            q.wf(),
            q.view() == Seq::<i32>::empty(),
            q.capacity() == capacity,
    {
        NonResizableArrayQueue { ring: RingBuffer::new(capacity) }
    }

    /// True when the queue holds no value.
    pub fn is_empty(&self) -> (r: bool)
        ensures
            r == (self.view().len() == 0),
    {
        self.ring.is_empty()
    }

    /// Appends `item` behind every value already in the queue. The caller
    /// keeps occupancy below the fixed capacity; enqueueing beyond it is a
    /// contract violation, not a handled condition.
    pub fn enqueue(&mut self, item: i32)
        requires
            old(self).wf(),
            old(self).view().len() < old(self).capacity(),
        ensures
            final(self).wf(),
            final(self).capacity() == old(self).capacity(),
            final(self).view() == old(self).view().push(item),
    {
        self.ring.push_back(item);
    }

    /// Removes and returns the oldest value, or `None` when the queue is
    /// empty.
    pub fn deque(&mut self) -> (r: Option<i32>)
        requires
            old(self).wf(),
        ensures
            final(self).wf(),
            final(self).capacity() == old(self).capacity(),
            old(self).view().len() == 0 ==> r is None && final(self).view() == old(self).view(),
            old(self).view().len() > 0 ==> r == Some(old(self).view()[0]) && final(self).view()
                == old(self).view().drop_first(),
    {
        if self.ring.is_empty() {
            None
        } else {
            Some(self.ring.pop_front())
        }
    }
}

} // verus!
