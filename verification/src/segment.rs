//! One link of a segmented queue: a fixed-capacity buffer consumed linearly,
//! with two monotonically increasing cursors.
//!
//! `first` and `last` denote the last position consumed and the last position
//! produced, not the next free slot: both start at 0 and are incremented
//! *before* each read or write, so slot 0 of every segment is never populated
//! and a segment of capacity `C` holds at most `C - 1` values. This one-wasted-
//! slot cursor scheme is kept deliberately; it is why segment capacities below
//! 2 cannot make progress. A segment never wraps: once its read cursor reaches
//! the end it is exhausted for good and is meant to be discarded.

use vstd::prelude::*;

use crate::raw_buffer::RawBuffer;

verus! {

/// A fixed-capacity, linearly-consumed block of storage used as one link in a
/// growable chain of segments.
pub struct Segment {
    items: RawBuffer,
    first: usize,
    last: usize,
}

impl Segment {
    /// The capacity of the backing buffer (one more than the number of values
    /// the segment can ever hold).
    pub closed spec fn capacity(self) -> int {
        self.items.capacity()
    }

    /// How many values have been read out of the segment so far.
    pub closed spec fn consumed(self) -> int {
        self.first as int
    }

    /// How many values have been written into the segment so far.
    pub closed spec fn produced(self) -> int {
        self.last as int
    }

    /// Cursor discipline: consumption never overtakes production, production
    /// never leaves the buffer, and every produced slot was written.
    pub closed spec fn wf(self) -> bool {
        &&& self.capacity() >= 2
        &&& self.capacity() <= usize::MAX
        &&& self.first <= self.last
        &&& (self.last as int) < self.capacity()
        &&& forall|i: int| 1 <= i <= self.last ==> self.items.written().contains(i)
    }

    /// The values written but not yet read, oldest first. They sit at slots
    /// `first + 1 ..= last` of the backing buffer.
    pub closed spec fn contents(self) -> Seq<i32> {
        Seq::new(
            (self.last - self.first) as nat,
            |k: int| self.items.cell(self.first + 1 + k),
        )
    }

    /// The segment can accept no more writes.
    pub open spec fn is_full_spec(self) -> bool {
        self.produced() == self.capacity() - 1
    }

    /// The segment has no more unread values and can accept no more reads;
    /// it is eligible for release once unlinked.
    pub open spec fn is_exhausted_spec(self) -> bool {
        self.consumed() == self.capacity() - 1
    }

    /// The cursor arithmetic that callers may rely on: cursors stay inside
    /// the buffer, and the number of values held is the gap between them.
    /// In particular an exhausted segment is empty, and a segment that is not
    /// full holds fewer than `capacity() - 1` values.
    pub proof fn lemma_cursor_bounds(self)
        requires
            self.wf(),
        ensures
            0 <= self.consumed() <= self.produced() < self.capacity(),
            self.contents().len() == self.produced() - self.consumed(),
    {
    }

    /// Allocates an empty segment of the given capacity.
    pub fn new(capacity: usize) -> (seg: Segment)
        requires
            capacity >= 2,
        ensures
            seg.wf(),
            seg.capacity() == capacity,
            seg.consumed() == 0,
            seg.produced() == 0,
            seg.contents() == Seq::<i32>::empty(),
    {
        let seg = Segment { items: RawBuffer::with_capacity(capacity), first: 0, last: 0 };
        proof {
            assert(seg.contents() =~= Seq::<i32>::empty());
        }
        seg
    }

    /// True when every written value has been read back out.
    pub fn is_empty(&self) -> (r: bool)
        requires
            self.wf(),
        ensures
            r == (self.contents().len() == 0),
    {
        self.first == self.last
    }

    /// True when the read cursor has reached the end of the buffer.
    pub fn is_exhausted(&self) -> (r: bool)
        requires
            self.wf(),
        ensures
            r == self.is_exhausted_spec(),
    {
        self.first == self.items.len() - 1
    }

    /// True when the write cursor has reached the end of the buffer.
    pub fn is_full(&self) -> (r: bool)
        requires
            self.wf(),
        ensures
            r == self.is_full_spec(),
    {
        self.last == self.items.len() - 1
    }

    /// Advances the read cursor and returns the value at the new position:
    /// the oldest value not yet read.
    pub fn read_first(&mut self) -> (value: i32)
        requires
            old(self).wf(),
            old(self).contents().len() > 0,
        ensures
            final(self).wf(),
            value == old(self).contents()[0],
            final(self).contents() == old(self).contents().drop_first(),
            final(self).capacity() == old(self).capacity(),
            final(self).consumed() == old(self).consumed() + 1,
            final(self).produced() == old(self).produced(),
    {
        self.first = self.first + 1;
        let value = self.items.read(self.first);
        proof {
            assert(self.contents() =~= old(self).contents().drop_first());
        }
        value
    }

    /// Advances the write cursor and stores `item` at the new position,
    /// appending it behind every value already held.
    pub fn write_last(&mut self, item: i32)
        requires
            old(self).wf(),
            !old(self).is_full_spec(),
        ensures
            final(self).wf(),
            final(self).contents() == old(self).contents().push(item),
            final(self).capacity() == old(self).capacity(),
            final(self).consumed() == old(self).consumed(),
            final(self).produced() == old(self).produced() + 1,
    {
        self.last = self.last + 1;
        self.items.write(self.last, item);
        proof {
            assert(self.contents() =~= old(self).contents().push(item));
        }
    }
}

} // verus!
