//! A FIFO queue built as a chain of fixed-capacity segments joined by owning
//! links.
//!
//! Enqueue appends to the tail segment, allocating a fresh segment when the
//! tail is full; dequeue consumes from the head segment, advancing to the
//! next segment once the head is exhausted. The name records the ownership
//! strategy this variant explores: segment handles that share ownership, in
//! the style of a reference-counted, runtime-borrow-checked cell, so that
//! the transient window in which the queue's head and tail are the same
//! segment needs no special treatment and a segment is released of its own
//! accord when its last handle is dropped. The chain here realizes that
//! strategy with owning links: the queue keeps the head handle, reaches the
//! tail through the links, and an exhausted head segment is released by
//! dropping the last handle to it when the head advances past it. Its
//! sibling, the arena-backed queue, explores the manual alternative: it
//! releases every segment explicitly and proves it does so exactly once.

use vstd::prelude::*;

use crate::segment::Segment;

verus! {

/// One link of the chain: a segment and the owning handle to its successor.
struct ChainNode {
    seg: Segment,
    next: Option<Box<ChainNode>>,
}

/// A segmented FIFO queue of `i32` values; the variant whose segment handles
/// share ownership. Created empty; `enqueue` always succeeds and `deque`
/// returns `None` on an empty queue.
pub struct RcRefCellLinkLinkedArrayQueue {
    segment_capacity: usize,
    head: Option<Box<ChainNode>>,
}

/// The values held by the chain starting at `node`, oldest first.
spec fn chain_contents(node: Option<Box<ChainNode>>) -> Seq<i32>
    decreases node,
{
    match node {
        Option::None => Seq::<i32>::empty(),
        Option::Some(n) => n.seg.contents() + chain_contents(n.next),
    }
}

/// Well-formedness of the chain starting at `node`. Every segment has the
/// queue's capacity; every segment but the tail is full (a new segment is
/// only allocated once its predecessor can take no more writes); and every
/// segment but the head has consumed nothing and holds at least one value
/// (a freshly linked segment receives a write immediately).
spec fn chain_wf(node: Option<Box<ChainNode>>, cap: int, at_head: bool) -> bool
    decreases node,
{
    match node {
        Option::None => true,
        Option::Some(n) => {
            &&& n.seg.wf()
            &&& n.seg.capacity() == cap
            &&& (n.next is Some ==> n.seg.is_full_spec())
            &&& (!at_head ==> n.seg.consumed() == 0 && n.seg.contents().len() >= 1)
            &&& chain_wf(n.next, cap, false)
        },
    }
}

/// A chain that is well-formed as a continuation of a longer chain is also
/// well-formed on its own, and its first segment has consumed nothing and
/// holds at least one value.
proof fn lemma_chain_wf_head_facts(node: Option<Box<ChainNode>>, cap: int)
    requires
        chain_wf(node, cap, false),
    ensures
        chain_wf(node, cap, true),
        node matches Some(n) ==> n.seg.consumed() == 0 && n.seg.contents().len() >= 1,
{
}

/// A chain whose first node satisfies the head's extra constraints is
/// well-formed as a continuation of a longer chain.
proof fn lemma_chain_wf_strengthen(node: Option<Box<ChainNode>>, cap: int)
    requires
        chain_wf(node, cap, true),
        node matches Some(n) ==> n.seg.consumed() == 0 && n.seg.contents().len() >= 1,
    ensures
        chain_wf(node, cap, false),
{
}

/// Appends `item` behind every value already in the chain, extending the
/// chain with a fresh segment when the tail segment is full. Consumes the
/// chain and returns it rebuilt, which mirrors how each link owns its
/// successor.
fn push_onto_chain(node: Box<ChainNode>, item: i32, segment_capacity: usize) -> (r: Box<
    ChainNode,
>)
    requires
        segment_capacity >= 2,
        chain_wf(Some(node), segment_capacity as int, true),
    ensures
        chain_wf(Some(r), segment_capacity as int, true),
        chain_contents(Some(r)) == chain_contents(Some(node)).push(item),
        r.seg.consumed() == node.seg.consumed(),
        r.seg.contents().len() >= node.seg.contents().len(),
    decreases node,
{
    let n = *node;
    let ChainNode { mut seg, next } = n;
    match next {
        Option::Some(next_node) => {
            proof {
                lemma_chain_wf_head_facts(Some(next_node), segment_capacity as int);
            }
            let ghost next_entry: Box<ChainNode> = next_node;
            let new_next = push_onto_chain(next_node, item, segment_capacity);
            let r = Box::new(ChainNode { seg, next: Some(new_next) });
            proof {
                lemma_chain_wf_strengthen(Some(new_next), segment_capacity as int);
                assert(chain_wf(Some(r), segment_capacity as int, true));
                assert(chain_contents(Some(r)) == seg.contents() + chain_contents(
                    Some(new_next),
                ));
                assert(chain_contents(Some(node)) == seg.contents() + chain_contents(
                    Some(next_entry),
                ));
                assert(chain_contents(Some(r)) =~= chain_contents(Some(node)).push(item));
            }
            r
        },
        Option::None => {
            if seg.is_full() {
                let mut fresh = Segment::new(segment_capacity);
                fresh.write_last(item);
                let tail = Box::new(ChainNode { seg: fresh, next: None });
                let r = Box::new(ChainNode { seg, next: Some(tail) });
                proof {
                    assert(chain_wf(None::<Box<ChainNode>>, segment_capacity as int, false));
                    assert(chain_wf(Some(tail), segment_capacity as int, false));
                    assert(chain_wf(Some(r), segment_capacity as int, true));
                    assert(chain_contents(None::<Box<ChainNode>>) == Seq::<i32>::empty());
                    assert(chain_contents(Some(tail)) == fresh.contents() + Seq::<i32>::empty());
                    assert(chain_contents(Some(r)) == seg.contents() + chain_contents(Some(tail)));
                    assert(chain_contents(Some(r)) =~= chain_contents(Some(node)).push(item));
                }
                r
            } else {
                seg.write_last(item);
                let r = Box::new(ChainNode { seg, next: None });
                proof {
                    assert(chain_wf(None::<Box<ChainNode>>, segment_capacity as int, false));
                    assert(chain_wf(Some(r), segment_capacity as int, true));
                    assert(chain_contents(None::<Box<ChainNode>>) == Seq::<i32>::empty());
                    assert(chain_contents(Some(r)) == seg.contents() + Seq::<i32>::empty());
                    assert(chain_contents(Some(r)) =~= chain_contents(Some(node)).push(item));
                }
                r
            }
        },
    }
}

impl RcRefCellLinkLinkedArrayQueue {
    /// The capacity of every segment of this queue. A segment stores at most
    /// `segment_capacity() - 1` values, so construction raises requests below
    /// 2 to 2, the smallest capacity that lets the queue make progress.
    pub closed spec fn segment_capacity(self) -> int {
        self.segment_capacity as int
    }

    /// The queue is a well-formed chain of segments, or no chain at all when
    /// it has never been used.
    pub closed spec fn wf(self) -> bool {
        &&& self.segment_capacity >= 2
        &&& chain_wf(self.head, self.segment_capacity as int, true)
    }

    /// The values the queue holds, oldest first.
    pub closed spec fn view(self) -> Seq<i32> {
        chain_contents(self.head)
    }

    /// Creates an empty queue whose segments each hold the given capacity
    /// (raised to 2 where the request is below 2).
    pub fn new(segment_capacity: usize) -> (q: RcRefCellLinkLinkedArrayQueue)
        ensures
            q.wf(),
            q.view() == Seq::<i32>::empty(),
            q.segment_capacity() == if segment_capacity >= 2 {
                segment_capacity as int
            } else {
                2int
            },
    {
        let cap = if segment_capacity >= 2 {
            segment_capacity
        } else {
            2
        };
        RcRefCellLinkLinkedArrayQueue { segment_capacity: cap, head: None }
    }

    /// Appends `item` behind every value already in the queue. Allocates the
    /// first segment on first use and a further segment whenever the tail
    /// segment is full.
    pub fn enqueue(&mut self, item: i32)
        requires
            old(self).wf(),
        ensures
            final(self).wf(),
            final(self).view() == old(self).view().push(item),
            final(self).segment_capacity() == old(self).segment_capacity(),
    {
        let cap = self.segment_capacity;
        match self.head.take() {
            Option::None => {
                let mut seg = Segment::new(cap);
                seg.write_last(item);
                self.head = Some(Box::new(ChainNode { seg, next: None }));
                proof {
                    assert(chain_wf(None::<Box<ChainNode>>, cap as int, false));
                    assert(chain_wf(self.head, cap as int, true));
                    assert(self.view() =~= old(self).view().push(item));
                }
            },
            Option::Some(node) => {
                let new_head = push_onto_chain(node, item, cap);
                self.head = Some(new_head);
            },
        }
    }

    /// Removes and returns the oldest value, or `None` when the queue is
    /// empty. When the head segment is exhausted, the queue advances to the
    /// next segment, dropping the last handle to the old head, and reads the
    /// first value of the new head.
    pub fn deque(&mut self) -> (r: Option<i32>)
        requires
            old(self).wf(),
        ensures
            final(self).wf(),
            final(self).segment_capacity() == old(self).segment_capacity(),
            old(self).view().len() == 0 ==> r is None && final(self).view() == old(self).view(),
            old(self).view().len() > 0 ==> r == Some(old(self).view()[0]) && final(self).view()
                == old(self).view().drop_first(),
    {
        match self.head.take() {
            Option::None => None,
            Option::Some(mut node) => {
                let ghost orig = *node;
                proof {
                    orig.seg.lemma_cursor_bounds();
                    assert(old(self).view() == orig.seg.contents() + chain_contents(orig.next));
                }
                if node.seg.is_empty() && node.next.is_none() {
                    proof {
                        assert(chain_contents(orig.next) == Seq::<i32>::empty());
                        assert(old(self).view() =~= orig.seg.contents());
                    }
                    self.head = Some(node);
                    None
                } else if node.seg.is_exhausted() {
                    // An exhausted segment is empty, so the first branch would
                    // have caught a single-segment chain: a successor exists,
                    // holds at least one value, and becomes the new head. The
                    // old head's last handle is dropped here, releasing it.
                    let mut next = node.next.take().unwrap();
                    let ghost next_orig = *next;
                    proof {
                        lemma_chain_wf_head_facts(Some(next), old(self).segment_capacity());
                        assert(chain_contents(Some(next)) == next_orig.seg.contents()
                            + chain_contents(next_orig.next));
                    }
                    let value = next.seg.read_first();
                    self.head = Some(next);
                    proof {
                        assert(old(self).view() =~= next_orig.seg.contents() + chain_contents(
                            next_orig.next,
                        ));
                        assert(self.view() == next_orig.seg.contents().drop_first()
                            + chain_contents(next_orig.next));
                        assert(self.view() =~= old(self).view().drop_first());
                    }
                    Some(value)
                } else {
                    let value = node.seg.read_first();
                    self.head = Some(node);
                    proof {
                        assert(self.view() == orig.seg.contents().drop_first() + chain_contents(
                            orig.next,
                        ));
                        assert(self.view() =~= old(self).view().drop_first());
                    }
                    Some(value)
                }
            },
        }
    }
}

} // verus!
