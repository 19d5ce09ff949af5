//! The circular-buffer core shared by both ring-queue variants: a
//! fixed-capacity buffer addressed modulo its capacity through `head`, `tail`
//! and `size` cursors.
//!
//! `head` is the index of the oldest value, `tail` the index of the next
//! write, and `size` the count of live values; the live values are exactly
//! the `size` slots starting at `head` and walking forward circularly. The
//! buffer itself never resizes; [`RingBuffer::resize`] builds a fresh buffer
//! of a new capacity and copies the live values into linear order, which is
//! how the growable queue layered on top reallocates.

use vstd::prelude::*;

use crate::raw_buffer::RawBuffer;

verus! {

/// Where the value `offset` places past `head` lives in a buffer of the
/// given capacity: the index wraps around rather than run past the end.
/// Meaningful for `0 <= head < capacity` and `0 <= offset <= capacity`.
pub open spec fn wrapped_index(head: int, offset: int, capacity: int) -> int {
    if head + offset < capacity {
        head + offset
    } else {
        head + offset - capacity
    }
}

/// A fixed-capacity block of storage addressed modulo its capacity, allowing
/// wraparound reuse of slots.
pub struct RingBuffer {
    data: RawBuffer,
    head: usize,
    tail: usize,
    size: usize,
}

impl RingBuffer {
    /// The capacity of the backing buffer.
    pub closed spec fn capacity(self) -> int {
        self.data.capacity()
    }

    /// Cursor discipline: the cursors stay inside the buffer, `tail` sits
    /// `size` places past `head` (circularly), and every live slot was
    /// written.
    pub closed spec fn wf(self) -> bool {
        &&& self.capacity() <= usize::MAX
        &&& self.size <= self.capacity()
        &&& if self.capacity() == 0 {
            self.head == 0 && self.tail == 0 && self.size == 0
        } else {
            (self.head as int) < self.capacity() && self.tail == wrapped_index(
                self.head as int,
                self.size as int,
                self.capacity(),
            )
        }
        &&& forall|k: int|
            0 <= k < self.size ==> self.data.written().contains(
                #[trigger] wrapped_index(self.head as int, k, self.capacity()),
            )
    }

    /// The live values, oldest first.
    pub closed spec fn contents(self) -> Seq<i32> {
        Seq::new(
            self.size as nat,
            |k: int| self.data.cell(wrapped_index(self.head as int, k, self.capacity())),
        )
    }

    /// The occupancy bound that callers may rely on: a well-formed ring
    /// never holds more values than its capacity.
    pub proof fn lemma_size_bound(self)
        requires
            self.wf(),
        ensures
            self.contents().len() <= self.capacity(),
    {
    }

    /// Allocates an empty ring of the given capacity.
    pub fn new(capacity: usize) -> (ring: RingBuffer)
        ensures
            ring.wf(),
            ring.capacity() == capacity,
            ring.contents() == Seq::<i32>::empty(),
    {
        let ring = RingBuffer { data: RawBuffer::with_capacity(capacity), head: 0, tail: 0, size: 0 };
        proof {
            assert(ring.contents() =~= Seq::<i32>::empty());
        }
        ring
    }

    /// The capacity, as an executable value.
    pub fn capacity_exec(&self) -> (n: usize)
        ensures
            n == self.capacity(),
    {
        self.data.len()
    }

    /// How many values are live, as an executable value.
    pub fn size_exec(&self) -> (n: usize)
        ensures
            n == self.contents().len(),
    {
        self.size
    }

    /// True when no value is live.
    pub fn is_empty(&self) -> (r: bool)
        ensures
            r == (self.contents().len() == 0),
    {
        self.size == 0
    }

    /// Writes `item` at `tail` and advances the write cursor, appending the
    /// value behind every live value. The caller keeps occupancy below
    /// capacity; this core never resizes on its own.
    pub fn push_back(&mut self, item: i32)
        requires
            old(self).wf(),
            old(self).contents().len() < old(self).capacity(),
        ensures
            final(self).wf(),
            final(self).capacity() == old(self).capacity(),
            final(self).contents() == old(self).contents().push(item),
    {
        self.data.write(self.tail, item);
        self.size = self.size + 1;
        self.tail = self.tail + 1;
        if self.tail == self.data.len() {
            self.tail = 0;
        }
        proof {
            assert(final(self).contents() =~= old(self).contents().push(item));
        }
    }

    /// Reads the value at `head` and advances the read cursor, removing the
    /// oldest live value and returning it.
    pub fn pop_front(&mut self) -> (value: i32)
        requires
            old(self).wf(),
            old(self).contents().len() > 0,
        ensures
            final(self).wf(),
            final(self).capacity() == old(self).capacity(),
            value == old(self).contents()[0],
            final(self).contents() == old(self).contents().drop_first(),
    {
        proof {
            assert(self.data.written().contains(
                wrapped_index(self.head as int, 0, self.capacity()),
            ));
        }
        let value = self.data.read(self.head);
        self.size = self.size - 1;
        self.head = self.head + 1;
        if self.head == self.data.len() {
            self.head = 0;
        }
        proof {
            assert forall|k: int| 0 <= k < self.size implies self.data.written().contains(
                #[trigger] wrapped_index(self.head as int, k, self.capacity()),
            ) by {
                assert(wrapped_index(self.head as int, k, self.capacity()) == wrapped_index(
                    old(self).head as int,
                    k + 1,
                    old(self).capacity(),
                ));
            }
            assert(final(self).contents() =~= old(self).contents().drop_first());
        }
        value
    }

    /// Replaces the backing buffer with a fresh one of `new_capacity`,
    /// copying the live values, oldest first, into linear order from slot 0.
    /// The cursors reset: `head` to 0 and `tail` to the value count.
    pub fn resize(&mut self, new_capacity: usize)
        requires
            old(self).wf(),
            old(self).contents().len() < new_capacity,
        ensures
            final(self).wf(),
            final(self).capacity() == new_capacity,
            final(self).contents() == old(self).contents(),
    {
        let mut data = RawBuffer::with_capacity(new_capacity);
        let ghost entry = *self;
        let size = self.size;
        let capacity = self.data.len();
        let mut i: usize = 0;
        while i < size
            invariant
                i <= size,
                *self == entry,
                self.wf(),
                size == self.contents().len(),
                capacity == self.capacity(),
                size < new_capacity,
                data.capacity() == new_capacity,
                forall|j: int| 0 <= j < i ==> data.written().contains(j),
                forall|j: int| 0 <= j < i ==> data.cell(j) == self.contents()[j],
            decreases size - i,
        {
            let offset = capacity - self.head;
            let index = if i < offset {
                self.head + i
            } else {
                i - offset
            };
            proof {
                assert(index == wrapped_index(self.head as int, i as int, self.capacity()));
            }
            let value = self.data.read(index);
            data.write(i, value);
            i = i + 1;
        }
        self.data = data;
        self.head = 0;
        self.tail = size;
        proof {
            assert(final(self).contents() =~= old(self).contents());
        }
    }
}

} // verus!
