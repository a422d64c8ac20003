use litemq::queue::InMemoryQueue;
use litemq::queue::Queue;

#[test]
fn in_memory_queue_stores_in_order() {
    let mut q = InMemoryQueue::new();
    assert_eq!(q.length(), 0);
    assert_eq!(q.enqueue(vec![0x01]), 1);
    assert_eq!(q.enqueue(vec![0x02]), 2);
    assert_eq!(q.length(), 2);
    assert_eq!(q.dequeue(), Some(vec![0x01]));
    assert_eq!(q.dequeue(), Some(vec![0x02]));
    assert_eq!(q.dequeue(), None);
}

#[test]
fn in_memory_queue_purge_keeps_waiters() {
    let mut q = InMemoryQueue::new();
    q.enqueue(vec![0x01]);
    q.enqueue(vec![0x02]);
    assert_eq!(q.purge(), 2);
    assert_eq!(q.length(), 0);
    assert_eq!(q.dequeue(), None);
}

#[test]
fn in_memory_queue_enqueue_prefers_live_waiter() {
    let mut q = InMemoryQueue::new();
    assert_eq!(q.dequeue(), None);
    let mut rx = q.park();
    assert_eq!(q.enqueue(vec![0x55]), 0);
    assert_eq!(rx.try_recv().unwrap(), vec![0x55]);
    assert_eq!(q.length(), 0);
}
