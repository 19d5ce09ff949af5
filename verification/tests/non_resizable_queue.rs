use array_queues::NonResizableArrayQueue;

#[test]
fn non_resizable_deque_from_empty_queue() {
    let mut queue = NonResizableArrayQueue::new(16);

    assert_eq!(queue.deque(), None);
}

#[test]
fn enqueue_one_item() {
    let mut queue = NonResizableArrayQueue::new(16);

    queue.enqueue(10);

    assert_eq!(queue.deque(), Some(10));
    assert_eq!(queue.deque(), None);
}

#[test]
fn enqueue_three_items_one_by_one() {
    let mut queue = NonResizableArrayQueue::new(16);

    queue.enqueue(10);

    assert_eq!(queue.deque(), Some(10));
    assert_eq!(queue.deque(), None);

    queue.enqueue(20);

    assert_eq!(queue.deque(), Some(20));
    assert_eq!(queue.deque(), None);

    queue.enqueue(30);

    assert_eq!(queue.deque(), Some(30));
    assert_eq!(queue.deque(), None);
}

#[test]
fn enqueue_many_items_deque_many_items() {
    let mut queue = NonResizableArrayQueue::new(16);

    queue.enqueue(10);
    queue.enqueue(20);
    queue.enqueue(30);

    assert_eq!(queue.deque(), Some(10));
    assert_eq!(queue.deque(), Some(20));
    assert_eq!(queue.deque(), Some(30));
    assert_eq!(queue.deque(), None);
}
