use algorithms::queue::Queue;

#[test]
fn queue_is_first_in_first_out() {
    let mut q: Queue<u32> = Queue::new();
    assert!(q.is_empty());
    q.enqueue(4);
    q.enqueue(9);
    q.enqueue(1);
    assert!(!q.is_empty());
    assert_eq!(q.dequeue(), 4);
    assert_eq!(q.dequeue(), 9);
    q.enqueue(7);
    assert_eq!(q.dequeue(), 1);
    assert_eq!(q.dequeue(), 7);
    assert!(q.is_empty());
}
