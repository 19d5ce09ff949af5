//! The storage primitive that every queue variant allocates from: a
//! fixed-capacity block of cells with manual element-level read and write.
//!
//! The block hands out no information about a cell that was never written:
//! its contract exposes the value of a cell only once `written` contains its
//! index, so a verified caller can never depend on the contents of an
//! untouched slot. Callers (the segment and ring-buffer layers) carry the
//! obligation to write a slot before reading it as part of their own
//! invariants.

use vstd::prelude::*;

verus! {

/// A fixed-capacity block of cells, read and written one element at a time.
///
/// The capacity is fixed at allocation; there is no implicit initialization,
/// and no value of a never-written cell is ever promised.
pub struct RawBuffer {
    cells: Vec<i32>,
    written: Ghost<Set<int>>,
}

impl RawBuffer {
    /// The number of cells in the block, fixed at allocation.
    pub closed spec fn capacity(self) -> int {
        self.cells@.len() as int
    }

    /// The value held by cell `i`; meaningful only where `written` holds `i`.
    pub closed spec fn cell(self, i: int) -> i32 {
        self.cells@[i]
    }

    /// The indices of the cells that have been written since allocation.
    pub closed spec fn written(self) -> Set<int> {
        self.written@
    }

    /// Allocates a block of `capacity` cells, none of them written yet.
    pub fn with_capacity(capacity: usize) -> (buf: RawBuffer)
        ensures
            buf.capacity() == capacity,
            buf.written() == Set::<int>::empty(),
    {
        let mut cells: Vec<i32> = Vec::new();
        // The backing store is zero-filled, but the contract keeps the cells'
        // values unspecified until they are written.
        while cells.len() < capacity
            invariant
                cells@.len() <= capacity,
            decreases capacity - cells.len(),
        {
            cells.push(0);
        }
        RawBuffer { cells, written: Ghost(Set::empty()) }
    }

    /// Reads cell `index`, which must have been written before.
    pub fn read(&self, index: usize) -> (value: i32)
        requires
            index < self.capacity(),
            self.written().contains(index as int),
        ensures
            value == self.cell(index as int),
    {
        self.cells[index]
    }

    /// Writes `value` into cell `index`, leaving every other cell unchanged.
    pub fn write(&mut self, index: usize, value: i32)
        requires
            index < old(self).capacity(),
        ensures
            final(self).capacity() == old(self).capacity(),
            final(self).written() == old(self).written().insert(index as int),
            final(self).cell(index as int) == value,
            forall|j: int|
                0 <= j < old(self).capacity() && j != index ==> final(self).cell(j) == old(
                    self,
                ).cell(j),
    {
        self.cells.set(index, value);
        proof {
            self.written@ = self.written@.insert(index as int);
        }
    }

    /// The capacity, as an executable value.
    pub fn len(&self) -> (n: usize)
        ensures
            n == self.capacity(),
    {
        self.cells.len()
    }
}

} // verus!
