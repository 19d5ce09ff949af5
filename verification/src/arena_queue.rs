//! A FIFO queue built as a chain of fixed-capacity segments with manual,
//! exclusive ownership of every segment.
//!
//! The control flow is the same as the shared-ownership chain: enqueue
//! appends to the tail segment, allocating a new one when it is full;
//! dequeue consumes from the head segment and advances along the chain link
//! once the head is exhausted. The ownership differs: every segment lives in
//! a slot of an arena held by the queue, the chain link is a slot index, and
//! releasing a segment is an explicit act — the slot is emptied exactly when
//! the exhausted head is unlinked, and [`SharedLinkLinkedArrayQueue::release`]
//! empties whatever the chain still reaches. The arena makes the manual
//! regime checkable: the well-formedness invariant says a slot holds a
//! segment if and only if the chain still reaches it, so a segment can
//! neither leak nor be released twice.

use vstd::prelude::*;

use crate::segment::Segment;

verus! {

/// One arena slot's occupant: a segment and the index of its successor.
struct ArenaNode {
    seg: Segment,
    next: Option<usize>,
}

/// A segmented FIFO queue of `i32` values; the variant whose segments are
/// owned manually and released explicitly. Created empty; `enqueue` always
/// succeeds and `deque` returns `None` on an empty queue.
pub struct SharedLinkLinkedArrayQueue {
    segment_capacity: usize,
    slots: Vec<Option<ArenaNode>>,
    head: Option<usize>,
    tail: Option<usize>,
}

/// The values held by the slot's occupant, if any.
spec fn slot_contents(slot: Option<ArenaNode>) -> Seq<i32> {
    match slot {
        Option::None => Seq::<i32>::empty(),
        Option::Some(node) => node.seg.contents(),
    }
}

/// The values held by the occupants of slots `i` and onward, oldest first.
spec fn contents_from(slots: Seq<Option<ArenaNode>>, i: int) -> Seq<i32>
    decreases slots.len() - i,
{
    if i < 0 || i >= slots.len() {
        Seq::<i32>::empty()
    } else {
        slot_contents(slots[i]) + contents_from(slots, i + 1)
    }
}

/// What must hold of the live slot `i` of a chain that starts at slot `h`
/// and ends at slot `len - 1`: the slot is occupied, its segment has the
/// queue's capacity, its link names the next slot (or nothing at the tail),
/// every segment but the tail is full, and every segment but the head has
/// consumed nothing and holds at least one value.
spec fn node_wf(slot: Option<ArenaNode>, i: int, h: int, len: int, cap: int) -> bool {
    match slot {
        Option::None => false,
        Option::Some(node) => {
            &&& node.seg.wf()
            &&& node.seg.capacity() == cap
            &&& node.next == (if i < len - 1 {
                Option::Some((i + 1) as usize)
            } else {
                Option::<usize>::None
            })
            &&& (i < len - 1 ==> node.seg.is_full_spec())
            &&& (i > h ==> node.seg.consumed() == 0 && node.seg.contents().len() >= 1)
        },
    }
}

/// Definitional unfolding of `contents_from`, for one live slot.
proof fn lemma_contents_from_unfold(slots: Seq<Option<ArenaNode>>, i: int)
    requires
        0 <= i < slots.len(),
    ensures
        contents_from(slots, i) == slot_contents(slots[i]) + contents_from(slots, i + 1),
{
}

/// Two arenas whose slots hold the same values from `i` onward hold the same
/// values from `i` onward. In particular, emptying or relinking a slot below
/// `i` does not disturb the queue's tail end.
proof fn lemma_contents_from_congruent(s1: Seq<Option<ArenaNode>>, s2: Seq<Option<ArenaNode>>, i: int)
    requires
        s1.len() == s2.len(),
        forall|j: int| i <= j < s1.len() ==> slot_contents(#[trigger] s2[j]) == slot_contents(s1[j]),
    ensures
        contents_from(s2, i) == contents_from(s1, i),
    decreases s1.len() - i,
{
    if 0 <= i && i < s1.len() {
        lemma_contents_from_congruent(s1, s2, i + 1);
    }
}

/// Appending a slot at the end of the arena appends its values at the end of
/// the queue.
proof fn lemma_contents_from_push(slots: Seq<Option<ArenaNode>>, x: Option<ArenaNode>, i: int)
    requires
        0 <= i <= slots.len(),
    ensures
        contents_from(slots.push(x), i) == contents_from(slots, i) + slot_contents(x),
    decreases slots.len() - i,
{
    if i == slots.len() {
        lemma_contents_from_unfold(slots.push(x), i);
        assert(contents_from(slots.push(x), i + 1) == Seq::<i32>::empty());
        assert(contents_from(slots, i) == Seq::<i32>::empty());
        assert(contents_from(slots.push(x), i) =~= contents_from(slots, i) + slot_contents(x));
    } else {
        lemma_contents_from_push(slots, x, i + 1);
        lemma_contents_from_unfold(slots.push(x), i);
        lemma_contents_from_unfold(slots, i);
        assert(slots.push(x)[i] == slots[i]);
        assert(contents_from(slots.push(x), i) =~= contents_from(slots, i) + slot_contents(x));
    }
}

/// Pushing one value into the last slot's segment pushes it behind every
/// value the chain holds.
proof fn lemma_contents_from_last_push(
    s1: Seq<Option<ArenaNode>>,
    s2: Seq<Option<ArenaNode>>,
    i: int,
    v: i32,
)
    requires
        s1.len() == s2.len(),
        s1.len() >= 1,
        0 <= i <= s1.len() - 1,
        forall|j: int| i <= j < s1.len() - 1 ==> slot_contents(#[trigger] s2[j]) == slot_contents(s1[j]),
        slot_contents(s2[s1.len() - 1]) == slot_contents(s1[s1.len() - 1]).push(v),
    ensures
        contents_from(s2, i) == contents_from(s1, i).push(v),
    decreases s1.len() - i,
{
    if i == s1.len() - 1 {
        lemma_contents_from_unfold(s1, i);
        lemma_contents_from_unfold(s2, i);
        assert(contents_from(s1, i + 1) == Seq::<i32>::empty());
        assert(contents_from(s2, i + 1) == Seq::<i32>::empty());
        assert(contents_from(s2, i) =~= contents_from(s1, i).push(v));
    } else {
        lemma_contents_from_last_push(s1, s2, i + 1, v);
        lemma_contents_from_unfold(s1, i);
        lemma_contents_from_unfold(s2, i);
        assert(contents_from(s2, i) =~= contents_from(s1, i).push(v));
    }
}

/// Dropping the first value of the slot `i` segment drops the first value of
/// the chain from `i` onward.
proof fn lemma_contents_from_front_drop(
    s1: Seq<Option<ArenaNode>>,
    s2: Seq<Option<ArenaNode>>,
    i: int,
)
    requires
        s1.len() == s2.len(),
        0 <= i < s1.len(),
        forall|j: int| i < j < s1.len() ==> slot_contents(#[trigger] s2[j]) == slot_contents(s1[j]),
        slot_contents(s1[i]).len() > 0,
        slot_contents(s2[i]) == slot_contents(s1[i]).drop_first(),
    ensures
        contents_from(s2, i) == contents_from(s1, i).drop_first(),
{
    lemma_contents_from_congruent(s1, s2, i + 1);
    lemma_contents_from_unfold(s1, i);
    lemma_contents_from_unfold(s2, i);
    assert(contents_from(s2, i) =~= contents_from(s1, i).drop_first());
}

impl SharedLinkLinkedArrayQueue {
    /// The capacity of every segment of this queue. A segment stores at most
    /// `segment_capacity() - 1` values, so construction raises requests below
    /// 2 to 2, the smallest capacity that lets the queue make progress.
    pub closed spec fn segment_capacity(self) -> int {
        self.segment_capacity as int
    }

    /// Every arena slot is empty: whatever the queue ever allocated has been
    /// released, and nothing was released twice (a release always finds its
    /// slot occupied).
    pub closed spec fn all_released(self) -> bool {
        forall|i: int| 0 <= i < self.slots@.len() ==> self.slots@[i] is None
    }

    /// The occupied slots are exactly those the chain reaches: the
    /// contiguous run from the head slot to the arena's last slot. Slots
    /// before the head were each released exactly once, when the head moved
    /// past them.
    pub closed spec fn wf(self) -> bool {
        &&& self.segment_capacity >= 2
        &&& match self.head {
            Option::None => self.tail is None && self.all_released(),
            Option::Some(h) => {
                &&& self.slots@.len() >= 1
                &&& (h as int) < self.slots@.len()
                &&& self.tail == Option::Some((self.slots@.len() - 1) as usize)
                &&& (forall|i: int| 0 <= i < h ==> self.slots@[i] is None)
                &&& (forall|i: int|
                    h <= i < self.slots@.len() ==> node_wf(
                        #[trigger] self.slots@[i],
                        i,
                        h as int,
                        self.slots@.len() as int,
                        self.segment_capacity as int,
                    ))
            },
        }
    }

    /// The values the queue holds, oldest first.
    pub closed spec fn view(self) -> Seq<i32> {
        match self.head {
            Option::None => Seq::<i32>::empty(),
            Option::Some(h) => contents_from(self.slots@, h as int),
        }
    }

    /// Creates an empty queue whose segments each hold the given capacity
    /// (raised to 2 where the request is below 2). No segment is allocated
    /// yet.
    pub fn new(segment_capacity: usize) -> (q: SharedLinkLinkedArrayQueue)
        ensures
            q.wf(),
            q.view() == Seq::<i32>::empty(),
            q.all_released(),
            q.segment_capacity() == if segment_capacity >= 2 {
                segment_capacity as int
            } else {
                2int
            },
    {
        let cap = if segment_capacity >= 2 {
            segment_capacity
        } else {
            2
        };
        SharedLinkLinkedArrayQueue { segment_capacity: cap, slots: Vec::new(), head: None, tail: None }
    }

    /// Appends `item` behind every value already in the queue. Allocates the
    /// first segment on first use and a further segment whenever the tail
    /// segment is full, linking it behind the old tail.
    pub fn enqueue(&mut self, item: i32)
        requires
            old(self).wf(),
        ensures
            final(self).wf(),
            final(self).view() == old(self).view().push(item),
            final(self).segment_capacity() == old(self).segment_capacity(),
    {
        let cap = self.segment_capacity;
        let ghost s1 = self.slots@;
        match self.tail {
            Option::None => {
                // First use, or everything released: every slot is empty, and
                // the fresh segment becomes both head and tail.
                let mut seg = Segment::new(cap);
                seg.write_last(item);
                let idx = self.slots.len();
                self.slots.push(Some(ArenaNode { seg, next: None }));
                self.head = Some(idx);
                self.tail = Some(idx);
                proof {
                    lemma_contents_from_unfold(self.slots@, idx as int);
                    assert(self.view() =~= old(self).view().push(item));
                }
            },
            Option::Some(t) => {
                proof {
                    assert(self.slots.len() == self.slots@.len());
                    assert(self.head is Some);
                    let h = self.head.unwrap() as int;
                    assert(node_wf(
                        self.slots@[t as int],
                        t as int,
                        h,
                        self.slots@.len() as int,
                        self.segment_capacity as int,
                    ));
                }
                let is_full = {
                    let slot = &self.slots[t];
                    match slot {
                        Option::Some(node) => node.seg.is_full(),
                        Option::None => unreached(),
                    }
                };
                if is_full {
                    // Relink the old tail to the slot the fresh segment will
                    // occupy, then allocate the fresh segment there.
                    let new_idx = self.slots.len();
                    let mut taken: Option<ArenaNode> = None;
                    self.slots.set_and_swap(t, &mut taken);
                    let mut node = taken.unwrap();
                    node.next = Some(new_idx);
                    self.slots.set(t, Some(node));
                    let ghost s2 = self.slots@;
                    let mut seg = Segment::new(cap);
                    seg.write_last(item);
                    self.slots.push(Some(ArenaNode { seg, next: None }));
                    self.tail = Some(new_idx);
                    proof {
                        let h = old(self).head.unwrap() as int;
                        lemma_contents_from_congruent(s1, s2, h);
                        lemma_contents_from_push(s2, self.slots@[new_idx as int], h);
                        assert(self.view() =~= old(self).view().push(item));
                        let len3 = self.slots@.len() as int;
                        assert forall|i: int| h <= i < len3 implies node_wf(
                            #[trigger] self.slots@[i],
                            i,
                            h,
                            len3,
                            cap as int,
                        ) by {
                            if i < len3 - 2 {
                                assert(self.slots@[i] == s1[i]);
                                assert(node_wf(s1[i], i, h, s1.len() as int, cap as int));
                            } else if i == len3 - 2 {
                                assert(node_wf(s1[i], i, h, s1.len() as int, cap as int));
                            }
                        }
                    }
                } else {
                    let mut taken: Option<ArenaNode> = None;
                    self.slots.set_and_swap(t, &mut taken);
                    let mut node = taken.unwrap();
                    node.seg.write_last(item);
                    self.slots.set(t, Some(node));
                    proof {
                        let h = old(self).head.unwrap() as int;
                        lemma_contents_from_last_push(s1, self.slots@, h, item);
                        assert(self.view() =~= old(self).view().push(item));
                        let len = self.slots@.len() as int;
                        assert forall|i: int| h <= i < len implies node_wf(
                            #[trigger] self.slots@[i],
                            i,
                            h,
                            len,
                            cap as int,
                        ) by {
                            assert(node_wf(s1[i], i, h, len, cap as int));
                        }
                    }
                }
            },
        }
    }

    /// Removes and returns the oldest value, or `None` when the queue is
    /// empty. When the head segment is exhausted, the queue follows its link,
    /// releases the old head's slot — the one explicit free — and reads the
    /// first value of the new head.
    pub fn deque(&mut self) -> (r: Option<i32>)
        requires
            old(self).wf(),
        ensures
            final(self).wf(),
            final(self).segment_capacity() == old(self).segment_capacity(),
            old(self).view().len() == 0 ==> r is None && final(self).view() == old(self).view(),
            old(self).view().len() > 0 ==> r == Some(old(self).view()[0]) && final(self).view()
                == old(self).view().drop_first(),
    {
        let ghost s1 = self.slots@;
        match self.head {
            Option::None => None,
            Option::Some(h) => {
                let (head_empty, head_exhausted, link) = {
                    let slot = &self.slots[h];
                    match slot {
                        Option::Some(node) => (
                            node.seg.is_empty(),
                            node.seg.is_exhausted(),
                            node.next,
                        ),
                        Option::None => unreached(),
                    }
                };
                let ghost head_seg = s1[h as int]->Some_0.seg;
                proof {
                    assert(self.slots.len() == self.slots@.len());
                    head_seg.lemma_cursor_bounds();
                    lemma_contents_from_unfold(s1, h as int);
                }
                let single = match self.tail {
                    Option::Some(t) => t == h,
                    Option::None => unreached(),
                };
                if head_empty && single {
                    proof {
                        assert(h as int == s1.len() - 1);
                        assert(contents_from(s1, h as int + 1) == Seq::<i32>::empty());
                        assert(old(self).view() =~= Seq::<i32>::empty());
                    }
                    None
                } else if head_exhausted {
                    // The head segment is spent. Its slot is released here —
                    // the only place a slot below the head index is emptied —
                    // and the link names the new head, which the invariant
                    // says holds at least one value.
                    let next_index = match link {
                        Option::Some(i) => i,
                        Option::None => unreached(),
                    };
                    self.slots.set(h, None);
                    self.head = Some(next_index);
                    let ghost s2 = self.slots@;
                    proof {
                        lemma_contents_from_congruent(s1, s2, next_index as int);
                        lemma_contents_from_unfold(s1, next_index as int);
                    }
                    let value = {
                        let mut taken: Option<ArenaNode> = None;
                        self.slots.set_and_swap(next_index, &mut taken);
                        let mut node = taken.unwrap();
                        let value = node.seg.read_first();
                        self.slots.set(next_index, Some(node));
                        value
                    };
                    proof {
                        lemma_contents_from_front_drop(s2, self.slots@, next_index as int);
                        assert(self.view() =~= old(self).view().drop_first());
                        assert(value == old(self).view()[0]);
                        let len = self.slots@.len() as int;
                        let hh = next_index as int;
                        assert forall|i: int| hh <= i < len implies node_wf(
                            #[trigger] self.slots@[i],
                            i,
                            hh,
                            len,
                            old(self).segment_capacity as int,
                        ) by {
                            assert(node_wf(s1[i], i, h as int, len, old(
                                self,
                            ).segment_capacity as int));
                        }
                    }
                    Some(value)
                } else {
                    // The head segment still holds a value: were it empty but
                    // not alone, it would be full (every non-tail segment is)
                    // and hence exhausted.
                    let value = {
                        let mut taken: Option<ArenaNode> = None;
                        self.slots.set_and_swap(h, &mut taken);
                        let mut node = taken.unwrap();
                        let value = node.seg.read_first();
                        self.slots.set(h, Some(node));
                        value
                    };
                    proof {
                        lemma_contents_from_front_drop(s1, self.slots@, h as int);
                        assert(self.view() =~= old(self).view().drop_first());
                        assert(value == old(self).view()[0]);
                        let len = self.slots@.len() as int;
                        assert forall|i: int| h as int <= i < len implies node_wf(
                            #[trigger] self.slots@[i],
                            i,
                            h as int,
                            len,
                            old(self).segment_capacity as int,
                        ) by {
                            assert(node_wf(s1[i], i, h as int, len, old(
                                self,
                            ).segment_capacity as int));
                        }
                    }
                    Some(value)
                }
            },
        }
    }

    /// Releases every segment the chain still reaches, leaving the queue
    /// empty and every arena slot free. Draining first and then emptying the
    /// head slot releases each reachable segment exactly once, whatever
    /// state the queue is in — empty, partially drained or fully populated.
    pub fn release(&mut self)
        requires
            old(self).wf(),
        ensures
            final(self).wf(),
            final(self).view().len() == 0,
            final(self).all_released(),
            final(self).segment_capacity() == old(self).segment_capacity(),
    {
        let mut more = true;
        while more
            invariant
                self.wf(),
                self.segment_capacity() == old(self).segment_capacity(),
                !more ==> self.view().len() == 0,
            decreases self.view().len() + (if more { 1int } else { 0int }),
        {
            let r = self.deque();
            more = r.is_some();
        }
        match self.head {
            Option::None => {},
            Option::Some(h) => {
                // The drained chain is a single empty segment: any later
                // slot would hold at least one value.
                proof {
                    let len = self.slots@.len() as int;
                    if (h as int) < len - 1 {
                        lemma_contents_from_unfold(self.slots@, h as int);
                        lemma_contents_from_unfold(self.slots@, h as int + 1);
                        assert(false);
                    }
                }
                self.slots.set(h, None);
                self.head = None;
                self.tail = None;
            },
        }
    }
}

} // verus!
