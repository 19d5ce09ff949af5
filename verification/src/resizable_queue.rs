//! A FIFO queue over a circular buffer that grows and shrinks by
//! power-of-two reallocation, amortizing the cost of resizing.
//!
//! The backing capacity is always a power of two and never falls below
//! [`MIN_CAPACITY`]. Enqueue doubles the capacity first when the buffer is
//! full; dequeue halves it once occupancy has fallen to exactly one quarter
//! of the capacity and the occupancy still exceeds the floor. The asymmetry
//! — grow at full, shrink only at one quarter, never below the floor — is
//! deliberate hysteresis: alternating enqueues and dequeues near a capacity
//! boundary never thrash between growing and shrinking.

use vstd::prelude::*;

use crate::ring_buffer::RingBuffer;

verus! {

/// The smallest backing capacity the queue ever uses.
pub const MIN_CAPACITY: usize = 16;

/// A strictly positive power of two.
pub open spec fn is_power_of_two(n: int) -> bool
    decreases n,
{
    if n <= 0 {
        false
    } else if n == 1 {
        true
    } else {
        n % 2 == 0 && is_power_of_two(n / 2)
    }
}

/// A FIFO queue of `i32` values over a circular buffer that doubles its
/// capacity on overflow and halves it once occupancy falls to a quarter.
pub struct ResizableArrayQueue {
    ring: RingBuffer,
}

impl ResizableArrayQueue {
    /// The current backing capacity.
    pub closed spec fn capacity(self) -> int {
        self.ring.capacity()
    }

    /// The queue is a well-formed ring whose capacity is a power of two no
    /// smaller than the floor.
    pub closed spec fn wf(self) -> bool {
        &&& self.ring.wf()
        &&& is_power_of_two(self.ring.capacity())
        &&& self.ring.capacity() >= MIN_CAPACITY
    }

    /// The values the queue holds, oldest first.
    pub closed spec fn view(self) -> Seq<i32> {
        self.ring.contents()
    }

    /// Creates an empty queue whose initial capacity is the smallest power
    /// of two that is at least `capacity` and at least the floor. A request
    /// of zero or one is a degenerate configuration and simply starts at the
    /// floor; the bound on the request only keeps that power of two
    /// representable.
    pub fn new(capacity: usize) -> (q: ResizableArrayQueue)
        requires
            capacity <= usize::MAX / 2 + 1,
        ensures
            q.wf(),
            q.view() == Seq::<i32>::empty(),
            q.capacity() >= capacity,
            q.capacity() == MIN_CAPACITY || q.capacity() < 2 * capacity,
    {
        let mut cap: usize = MIN_CAPACITY;
        proof {
            reveal_with_fuel(is_power_of_two, 6);
            assert(is_power_of_two(MIN_CAPACITY as int));
        }
        while cap < capacity
            invariant
                capacity <= usize::MAX / 2 + 1,
                is_power_of_two(cap as int),
                MIN_CAPACITY <= cap,
                cap == MIN_CAPACITY || (cap as int) < 2 * capacity,
            decreases (if (cap as int) < capacity { capacity - cap } else { 0int }),
        {
            cap = cap * 2;
        }
        ResizableArrayQueue { ring: RingBuffer::new(cap) }
    }

    /// True when the queue holds no value.
    pub fn is_empty(&self) -> (r: bool)
        ensures
            r == (self.view().len() == 0),
    {
        self.ring.is_empty()
    }

    /// Appends `item` behind every value already in the queue, doubling the
    /// backing capacity first when the buffer is full. The bound on the
    /// occupancy only keeps the doubled capacity representable.
    pub fn enqueue(&mut self, item: i32)
        requires
            old(self).wf(),
            old(self).view().len() < usize::MAX / 2,
        ensures
            final(self).wf(),
            final(self).view() == old(self).view().push(item),
            final(self).capacity() == (if old(self).view().len() == old(self).capacity() {
                2 * old(self).capacity()
            } else {
                old(self).capacity()
            }),
    {
        proof {
            self.ring.lemma_size_bound();
        }
        let size = self.ring.size_exec();
        let capacity = self.ring.capacity_exec();
        if size == capacity {
            self.ring.resize(capacity * 2);
        }
        self.ring.push_back(item);
    }

    /// Removes and returns the oldest value, or `None` when the queue is
    /// empty. After removing, the backing capacity is halved once occupancy
    /// has fallen to exactly a quarter of it, provided occupancy is still
    /// above the floor.
    pub fn deque(&mut self) -> (r: Option<i32>)
        requires
            old(self).wf(),
        ensures
            final(self).wf(),
            old(self).view().len() == 0 ==> r is None && final(self).view() == old(self).view(),
            old(self).view().len() > 0 ==> r == Some(old(self).view()[0]) && final(self).view()
                == old(self).view().drop_first(),
            final(self).capacity() == (if old(self).view().len() > 0 && old(self).view().len() - 1
                > MIN_CAPACITY && old(self).view().len() - 1 == old(self).capacity() / 4 {
                old(self).capacity() / 2
            } else {
                old(self).capacity()
            }),
    {
        if self.ring.is_empty() {
            None
        } else {
            let value = self.ring.pop_front();
            let size = self.ring.size_exec();
            let capacity = self.ring.capacity_exec();
            if size > MIN_CAPACITY && size == capacity / 4 {
                proof {
                    lemma_power_of_two_halves(capacity as int);
                }
                self.ring.resize(capacity / 2);
            }
            Some(value)
        }
    }
}

/// Half of a power of two of at least 4 is again a power of two, and such a
/// number is divisible by 4: keeps the capacity a power of two across a
/// shrink, whose trigger compares occupancy against an exact quarter.
proof fn lemma_power_of_two_halves(n: int)
    requires
        is_power_of_two(n),
        n >= 4,
    ensures
        is_power_of_two(n / 2),
        n % 4 == 0,
{
    assert(is_power_of_two(n / 2));
    assert(n % 2 == 0 && (n / 2) % 2 == 0);
    assert(n % 4 == 0) by (nonlinear_arith)
        requires
            n % 2 == 0 && (n / 2) % 2 == 0 && n >= 4,
    ;
}

} // verus!
