use array_queues::NonResizableArrayQueue;
use array_queues::RcRefCellLinkLinkedArrayQueue;
use array_queues::ResizableArrayQueue;
use array_queues::SharedLinkLinkedArrayQueue;

#[test]
fn interleaved_batches_keep_order_linked() {
    let mut queue = RcRefCellLinkLinkedArrayQueue::new(16);
    for i in 0..40 {
        queue.enqueue(i);
    }
    for i in 0..20 {
        assert_eq!(queue.deque(), Some(i));
    }
    for i in 40..80 {
        queue.enqueue(i);
    }
    for i in 20..40 {
        assert_eq!(queue.deque(), Some(i));
    }
    for i in 80..120 {
        queue.enqueue(i);
    }
    for i in 40..120 {
        assert_eq!(queue.deque(), Some(i));
    }
    assert_eq!(queue.deque(), None);
}

#[test]
fn interleaved_batches_keep_order_arena() {
    let mut queue = SharedLinkLinkedArrayQueue::new(16);
    for i in 0..40 {
        queue.enqueue(i);
    }
    for i in 0..20 {
        assert_eq!(queue.deque(), Some(i));
    }
    for i in 40..80 {
        queue.enqueue(i);
    }
    for i in 20..40 {
        assert_eq!(queue.deque(), Some(i));
    }
    for i in 80..120 {
        queue.enqueue(i);
    }
    for i in 40..120 {
        assert_eq!(queue.deque(), Some(i));
    }
    assert_eq!(queue.deque(), None);
}

#[test]
fn drained_queue_reports_empty_repeatably() {
    let mut queue = ResizableArrayQueue::new(16);
    for i in 0..5 {
        queue.enqueue(i);
    }
    for i in 0..5 {
        assert_eq!(queue.deque(), Some(i));
    }
    assert_eq!(queue.deque(), None);
    assert_eq!(queue.deque(), None);
    assert_eq!(queue.deque(), None);
}

#[test]
fn degenerate_segment_capacities_still_fifo() {
    // A segment stores capacity - 1 values, so requests of 0 and 1 are
    // raised to 2: one value per segment, every enqueue allocates.
    for cap in [0, 1, 2] {
        let mut queue = RcRefCellLinkLinkedArrayQueue::new(cap);
        for i in 0..10 {
            queue.enqueue(i);
        }
        for i in 0..10 {
            assert_eq!(queue.deque(), Some(i));
        }
        assert_eq!(queue.deque(), None);

        let mut queue = SharedLinkLinkedArrayQueue::new(cap);
        for i in 0..10 {
            queue.enqueue(i);
        }
        for i in 0..10 {
            assert_eq!(queue.deque(), Some(i));
        }
        assert_eq!(queue.deque(), None);
    }
}

#[test]
fn degenerate_initial_capacities_still_fifo_resizable() {
    // Requests below the floor simply start at the floor.
    for cap in [0, 1, 5] {
        let mut queue = ResizableArrayQueue::new(cap);
        for i in 0..50 {
            queue.enqueue(i);
        }
        for i in 0..50 {
            assert_eq!(queue.deque(), Some(i));
        }
        assert_eq!(queue.deque(), None);
    }
}

#[test]
fn zero_capacity_fixed_queue_stays_empty() {
    let mut queue = NonResizableArrayQueue::new(0);
    assert_eq!(queue.deque(), None);
    assert!(queue.is_empty());
}

#[test]
fn fixed_queue_fills_to_capacity_and_wraps() {
    let mut queue = NonResizableArrayQueue::new(16);
    // Shift the cursors so that a full fill wraps past the end.
    for i in 0..10 {
        queue.enqueue(i);
    }
    for i in 0..10 {
        assert_eq!(queue.deque(), Some(i));
    }
    // Fill to the exact capacity.
    for i in 100..116 {
        queue.enqueue(i);
    }
    for i in 100..116 {
        assert_eq!(queue.deque(), Some(i));
    }
    assert_eq!(queue.deque(), None);
}

#[test]
fn independent_instances_do_not_interfere() {
    let mut a = RcRefCellLinkLinkedArrayQueue::new(4);
    let mut b = RcRefCellLinkLinkedArrayQueue::new(4);
    let mut c = SharedLinkLinkedArrayQueue::new(4);
    let mut d = SharedLinkLinkedArrayQueue::new(4);
    let mut e = ResizableArrayQueue::new(16);
    let mut f = NonResizableArrayQueue::new(16);
    for i in 0..12 {
        a.enqueue(i);
        b.enqueue(100 + i);
        c.enqueue(200 + i);
        d.enqueue(300 + i);
        e.enqueue(400 + i);
        f.enqueue(500 + i);
    }
    assert_eq!(b.deque(), Some(100));
    assert_eq!(d.deque(), Some(300));
    for i in 0..12 {
        assert_eq!(a.deque(), Some(i));
        assert_eq!(c.deque(), Some(200 + i));
        assert_eq!(e.deque(), Some(400 + i));
        assert_eq!(f.deque(), Some(500 + i));
    }
    assert_eq!(a.deque(), None);
    assert_eq!(c.deque(), None);
    for i in 1..12 {
        assert_eq!(b.deque(), Some(100 + i));
        assert_eq!(d.deque(), Some(300 + i));
    }
    assert_eq!(b.deque(), None);
    assert_eq!(d.deque(), None);
}

#[test]
fn release_on_empty_queue() {
    let mut queue = SharedLinkLinkedArrayQueue::new(16);
    queue.release();
    assert_eq!(queue.deque(), None);
}

#[test]
fn release_on_partially_drained_queue() {
    let mut queue = SharedLinkLinkedArrayQueue::new(4);
    for i in 0..20 {
        queue.enqueue(i);
    }
    for i in 0..7 {
        assert_eq!(queue.deque(), Some(i));
    }
    queue.release();
    assert_eq!(queue.deque(), None);
    // The queue stays usable after a release.
    queue.enqueue(42);
    assert_eq!(queue.deque(), Some(42));
    assert_eq!(queue.deque(), None);
}

#[test]
fn release_on_fully_populated_queue() {
    let mut queue = SharedLinkLinkedArrayQueue::new(4);
    for i in 0..20 {
        queue.enqueue(i);
    }
    queue.release();
    assert_eq!(queue.deque(), None);
    queue.release();
    assert_eq!(queue.deque(), None);
}

#[test]
fn growable_queue_shrinks_and_keeps_order() {
    let mut queue = ResizableArrayQueue::new(16);
    // Grow to capacity 256, then drain far enough to cross several shrink
    // thresholds on the way down.
    for i in 0..200 {
        queue.enqueue(i);
    }
    for i in 0..200 {
        assert_eq!(queue.deque(), Some(i));
    }
    assert_eq!(queue.deque(), None);
}
