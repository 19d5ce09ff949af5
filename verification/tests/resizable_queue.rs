use array_queues::ResizableArrayQueue;

#[test]
fn resizable_deque_from_empty_queue() {
    let mut queue = ResizableArrayQueue::new(16);

    assert_eq!(queue.deque(), None);
}

#[test]
fn mod_enqueue_one_item() {
    let mut queue = ResizableArrayQueue::new(16);

    queue.enqueue(10);

    assert_eq!(queue.deque(), Some(10));
    assert_eq!(queue.deque(), None);
}

#[test]
fn mod_enqueue_three_items_one_by_one() {
    let mut queue = ResizableArrayQueue::new(16);

    queue.enqueue(10);

    assert_eq!(queue.deque(), Some(10));
    assert_eq!(queue.deque(), None);

    queue.enqueue(20);

    assert_eq!(queue.deque(), Some(20));
    assert_eq!(queue.deque(), None);

    queue.enqueue(30);

    assert_eq!(queue.deque(), Some(30));
    assert_eq!(queue.deque(), None);
}

#[test]
fn mod_enqueue_many_items_deque_many_items() {
    let mut queue = ResizableArrayQueue::new(16);

    queue.enqueue(10);
    queue.enqueue(20);
    queue.enqueue(30);

    assert_eq!(queue.deque(), Some(10));
    assert_eq!(queue.deque(), Some(20));
    assert_eq!(queue.deque(), Some(30));
    assert_eq!(queue.deque(), None);
}

#[test]
fn enqueue_more_than_capacity() {
    let mut queue = ResizableArrayQueue::new(16);

    for i in 0..20 {
        queue.enqueue(i);
    }

    for i in 0..20 {
        assert_eq!(queue.deque(), Some(i));
    }
    assert_eq!(queue.deque(), None);
}

#[test]
fn enqueue_to_double_resize_deque_to_shrink() {
    let mut queue = ResizableArrayQueue::new(16);

    for i in 0..100 {
        queue.enqueue(i);
    }

    for i in 0..100 {
        assert_eq!(queue.deque(), Some(i));
    }
    assert_eq!(queue.deque(), None);
}

#[test]
fn enqueue_deque_many_time_more_than_capacity() {
    let mut queue = ResizableArrayQueue::new(16);
    for i in 0..40 {
        queue.enqueue(i);
    }

    for i in 0..20 {
        assert_eq!(queue.deque(), Some(i));
    }

    for i in 40..80 {
        queue.enqueue(i);
    }

    for i in 20..40 {
        assert_eq!(queue.deque(), Some(i));
    }

    for i in 80..120 {
        queue.enqueue(i);
    }

    for i in 40..60 {
        assert_eq!(queue.deque(), Some(i));
    }
}
