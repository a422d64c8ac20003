use litemq::broker::Broker;
use litemq::broker::DequeueOutcome;

fn name(s: &str) -> Vec<u8> {
    s.as_bytes().to_vec()
}

fn expect_delivered(out: DequeueOutcome) -> Vec<u8> {
    match out {
        DequeueOutcome::Delivered(d) => d,
        DequeueOutcome::Parked(_) => panic!("expected a stored payload, got a parked consumer"),
    }
}

fn expect_parked(out: DequeueOutcome) -> tokio::sync::mpsc::Receiver<Vec<u8>> {
    match out {
        DequeueOutcome::Parked(rx) => rx,
        DequeueOutcome::Delivered(_) => panic!("expected to park, got a payload"),
    }
}

#[test]
fn enqueue_length_dequeue() {
    let mut b = Broker::new();
    let q = name("a");
    assert_eq!(b.enqueue(&q, vec![0x68, 0x65, 0x6C, 0x6C, 0x6F]), 1);
    assert_eq!(b.length(&q), 1);
    let d = expect_delivered(b.dequeue(&q));
    assert_eq!(d, vec![0x68, 0x65, 0x6C, 0x6C, 0x6F]);
    assert_eq!(b.length(&q), 0);
}

#[test]
fn parked_consumer_gets_handoff() {
    let mut b = Broker::new();
    let q = name("b");
    let mut rx = expect_parked(b.dequeue(&q));
    assert_eq!(b.enqueue(&q, vec![0x01]), 0);
    assert_eq!(rx.try_recv().unwrap(), vec![0x01]);
    assert_eq!(b.length(&q), 0);
}

#[test]
fn waiters_are_served_oldest_first() {
    let mut b = Broker::new();
    let q = name("q");
    let mut c1 = expect_parked(b.dequeue(&q));
    let mut c2 = expect_parked(b.dequeue(&q));
    assert_eq!(b.enqueue(&q, vec![0xAA]), 0);
    assert_eq!(c1.try_recv().unwrap(), vec![0xAA]);
    assert_eq!(b.enqueue(&q, vec![0xBB]), 0);
    assert_eq!(c2.try_recv().unwrap(), vec![0xBB]);
    assert_eq!(b.length(&q), 0);
}

#[test]
fn cancelled_waiter_is_skipped() {
    let mut b = Broker::new();
    let q = name("q");
    let c1 = expect_parked(b.dequeue(&q));
    let mut c2 = expect_parked(b.dequeue(&q));
    drop(c1);
    assert_eq!(b.enqueue(&q, vec![0x42]), 0);
    assert_eq!(c2.try_recv().unwrap(), vec![0x42]);
    assert_eq!(b.length(&q), 0);
}

#[test]
fn cancelled_last_waiter_stores_payload() {
    let mut b = Broker::new();
    let q = name("q");
    let rx = expect_parked(b.dequeue(&q));
    drop(rx);
    assert_eq!(b.enqueue(&q, vec![0x42]), 1);
    assert_eq!(b.length(&q), 1);
    assert_eq!(expect_delivered(b.dequeue(&q)), vec![0x42]);
}

#[test]
fn fifo_within_queue() {
    let mut b = Broker::new();
    let q = name("fifo");
    assert_eq!(b.enqueue(&q, vec![0x01]), 1);
    assert_eq!(b.enqueue(&q, vec![0x02]), 2);
    assert_eq!(b.enqueue(&q, vec![0x03]), 3);
    assert_eq!(expect_delivered(b.dequeue(&q)), vec![0x01]);
    assert_eq!(expect_delivered(b.dequeue(&q)), vec![0x02]);
    assert_eq!(expect_delivered(b.dequeue(&q)), vec![0x03]);
}

#[test]
fn purge_reports_prior_count() {
    let mut b = Broker::new();
    let q = name("c");
    assert_eq!(b.enqueue(&q, vec![0x01]), 1);
    assert_eq!(b.enqueue(&q, vec![0x02]), 2);
    assert_eq!(b.purge(&q), 2);
    assert_eq!(b.length(&q), 0);
}

#[test]
fn length_and_purge_do_not_create() {
    let mut b = Broker::new();
    assert_eq!(b.length(&name("missing")), 0);
    assert_eq!(b.purge(&name("missing")), 0);
}

#[test]
fn queues_are_isolated() {
    let mut b = Broker::new();
    assert_eq!(b.enqueue(&name("x"), vec![0x01]), 1);
    assert_eq!(b.length(&name("y")), 0);
    assert_eq!(b.enqueue(&name("y"), vec![0x02]), 1);
    assert_eq!(b.length(&name("x")), 1);
    assert_eq!(b.purge(&name("y")), 1);
    assert_eq!(b.length(&name("x")), 1);
}

#[test]
fn flush_empties_every_queue() {
    let mut b = Broker::new();
    assert_eq!(b.enqueue(&name("a"), vec![0x0A]), 1);
    assert_eq!(b.enqueue(&name("b"), vec![0x0B]), 1);
    b.flush();
    assert_eq!(b.length(&name("a")), 0);
    assert_eq!(b.length(&name("b")), 0);
}

#[test]
fn empty_payload_is_carried() {
    let mut b = Broker::new();
    let q = name("e");
    assert_eq!(b.enqueue(&q, Vec::new()), 1);
    assert_eq!(expect_delivered(b.dequeue(&q)), Vec::<u8>::new());
}

#[test]
fn flush_closes_parked_consumers() {
    let mut b = Broker::new();
    let q = name("a");
    let mut rx = expect_parked(b.dequeue(&q));
    b.flush();
    // The slot's send half went with its queue: the consumer sees the
    // channel closed, not merely empty.
    assert!(matches!(
        rx.try_recv(),
        Err(tokio::sync::mpsc::error::TryRecvError::Disconnected)
    ));
}
