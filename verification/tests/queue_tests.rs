use classic_collections::queue::Queue;

#[test]
fn queue_pop_empty() {
    let mut queue: Queue<i32> = Queue::new();
    assert!(queue.pop().is_none());
}

#[test]
fn queue_is_first_in_first_out() {
    let mut queue = Queue::new();
    for i in [3, 1, 4, 1, 5] {
        queue.push(i);
    }
    for i in [3, 1, 4, 1, 5] {
        assert_eq!(queue.pop(), Some(i));
    }
    assert!(queue.pop().is_none());
}

#[test]
fn queue_interleaved_push_pop() {
    let mut queue = Queue::new();
    queue.push("a");
    queue.push("b");
    assert_eq!(queue.pop(), Some("a"));
    queue.push("c");
    assert_eq!(queue.pop(), Some("b"));
    assert_eq!(queue.pop(), Some("c"));
    assert!(queue.pop().is_none());
}
