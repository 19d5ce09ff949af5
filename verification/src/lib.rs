//! A family of single-threaded FIFO queue engines built over a fixed-capacity
//! buffer primitive, each exploring a different capacity-management and
//! ownership strategy:
//!
//! * [`RcRefCellLinkLinkedArrayQueue`] — a chain of fixed-capacity segments,
//!   grown one segment at a time, whose segment handles share ownership.
//! * [`SharedLinkLinkedArrayQueue`] — the same segment chain, but with every
//!   segment held in an arena slot and released explicitly, so that the
//!   invariant "every allocated segment is freed exactly once" is checked.
//! * [`ResizableArrayQueue`] — a circular buffer that doubles its capacity on
//!   overflow and halves it once occupancy falls to a quarter.
//! * [`NonResizableArrayQueue`] — a circular buffer with a capacity fixed at
//!   construction; enqueuing beyond it is a checked precondition.
//!
//! Every queue exposes the same capability contract: `enqueue` appends a
//! value and always succeeds (subject to the fixed-capacity precondition of
//! the last variant), and `deque` removes and returns the oldest value still
//! held, or `None` when the queue is empty — a normal outcome, not an error.
//! Each queue's view is the sequence of values it holds, oldest first; the
//! contracts pin `enqueue` to pushing onto the back of that sequence and
//! `deque` to popping from its front, and the laws in [`lemma_fifo_ordering`]
//! and its companions state what iterating those contracts yields.
//!
//! Everything is single-threaded and synchronous: every operation runs to
//! completion on the caller's thread, and no queue instance ever shares
//! state with another.

mod raw_buffer;
mod segment;
mod linked_queue;
mod arena_queue;
mod ring_buffer;
mod resizable_queue;
mod non_resizable_queue;
mod fifo_laws;

pub use raw_buffer::RawBuffer;
pub use segment::Segment;
pub use linked_queue::RcRefCellLinkLinkedArrayQueue;
pub use arena_queue::SharedLinkLinkedArrayQueue;
pub use ring_buffer::RingBuffer;
pub use resizable_queue::ResizableArrayQueue;
pub use resizable_queue::MIN_CAPACITY;
pub use non_resizable_queue::NonResizableArrayQueue;
pub use fifo_laws::{enqueued_all, drained_outputs, lemma_enqueued_all_appends, lemma_fifo_ordering, lemma_empty_queue_dequeue, QueueOp, run_view, run_outputs, enqueued_of, lemma_interleaving_stability};
