use array_queues::SharedLinkLinkedArrayQueue;

#[test]
fn mod_deque_from_empty_queue() {
    let mut queue = SharedLinkLinkedArrayQueue::new(16);

    assert_eq!(queue.deque(), None);
}

#[test]
fn mod_enqueue_deque_item() {
    let mut queue = SharedLinkLinkedArrayQueue::new(16);

    queue.enqueue(10);

    assert_eq!(queue.deque(), Some(10));
    assert_eq!(queue.deque(), None);
}

#[test]
fn mod_enqueue_deque_item_many_times() {
    let mut queue = SharedLinkLinkedArrayQueue::new(16);
    queue.enqueue(10);

    assert_eq!(queue.deque(), Some(10));

    queue.enqueue(20);

    assert_eq!(queue.deque(), Some(20));

    queue.enqueue(30);

    assert_eq!(queue.deque(), Some(30));
    assert_eq!(queue.deque(), None);
}

#[test]
fn mod_enqueue_many_items_deque_all() {
    let mut queue = SharedLinkLinkedArrayQueue::new(16);
    queue.enqueue(10);
    queue.enqueue(20);
    queue.enqueue(30);

    assert_eq!(queue.deque(), Some(10));
    assert_eq!(queue.deque(), Some(20));
    assert_eq!(queue.deque(), Some(30));
    assert_eq!(queue.deque(), None);
}

#[test]
fn mod_enqueue_deque_items_more_than_segment_capacity() {
    let mut queue = SharedLinkLinkedArrayQueue::new(16);
    for i in 0..20 {
        queue.enqueue(i);
    }

    for i in 0..20 {
        assert_eq!(queue.deque(), Some(i));
    }
    assert_eq!(queue.deque(), None);
}

#[test]
fn mod_enqueue_more_than_one_segment_then_deque() {
    let mut queue = SharedLinkLinkedArrayQueue::new(16);

    for i in 0..40 {
        queue.enqueue(i);
    }

    for i in 0..40 {
        assert_eq!(queue.deque(), Some(i));
    }
    assert_eq!(queue.deque(), None);
}

#[test]
fn mod_enqueue_deque_more_than_segment_capacity() {
    let mut queue = SharedLinkLinkedArrayQueue::new(16);

    for i in 0..40 {
        queue.enqueue(i);
        assert_eq!(queue.deque(), Some(i));
        assert_eq!(queue.deque(), None);
    }
}
