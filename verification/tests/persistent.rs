//! The persistent planners, driven over in-memory file snapshots exactly as
//! the process around the library drives them over the two real files.

use litemq::persistent::DequeueStep;
use litemq::persistent::dequeue_step;
use litemq::persistent::enqueue_plan;
use litemq::persistent::persistent_length;
use litemq::persistent::split_lines;

/// A stand-in for the two files of one queue.
struct Files {
    log: Vec<u8>,
    cursor: u64,
}

impl Files {
    fn new() -> Files {
        Files { log: Vec::new(), cursor: 0 }
    }

    fn length(&self) -> i64 {
        persistent_length(&Some(self.log.clone()), self.cursor)
    }

    fn enqueue(&mut self, data: &[u8]) -> i64 {
        let plan = enqueue_plan(&Some(self.log.clone()), self.cursor, &data.to_vec());
        self.log.extend_from_slice(&plan.line);
        plan.new_length
    }

    fn dequeue(&mut self) -> Option<Vec<u8>> {
        match dequeue_step(&Some(self.log.clone()), self.cursor) {
            DequeueStep::Deliver(p) => {
                self.cursor += 1;
                Some(p)
            }
            DequeueStep::CompactThenPark => {
                self.log.clear();
                self.cursor = 0;
                None
            }
            DequeueStep::Park => None,
        }
    }
}

#[test]
fn split_lines_matches_log_layout() {
    let lines = split_lines(&b"aGk=\neg==\n".to_vec());
    assert_eq!(lines, vec![b"aGk=".to_vec(), b"eg==".to_vec()]);
    assert_eq!(split_lines(&Vec::new()), Vec::<Vec<u8>>::new());
    assert_eq!(split_lines(&b"\n".to_vec()), vec![Vec::<u8>::new()]);
    assert_eq!(split_lines(&b"abc".to_vec()), vec![b"abc".to_vec()]);
    assert_eq!(split_lines(&b"a\n\nb".to_vec()), vec![b"a".to_vec(), Vec::new(), b"b".to_vec()]);
}

#[test]
fn enqueue_writes_one_encoded_line() {
    let mut f = Files::new();
    assert_eq!(f.enqueue(&[0x7A]), 1);
    assert_eq!(f.log, b"eg==\n".to_vec());
    assert_eq!(f.cursor, 0);
    assert_eq!(f.length(), 1);
    assert_eq!(f.dequeue(), Some(vec![0x7A]));
    assert_eq!(f.cursor, 1);
    assert_eq!(f.length(), 0);
    // A drained log with a cursor compacts on the next dequeue.
    assert_eq!(f.dequeue(), None);
    assert_eq!(f.log, Vec::<u8>::new());
    assert_eq!(f.cursor, 0);
}

#[test]
fn compaction_resets_and_next_enqueue_counts_from_one() {
    let mut f = Files::new();
    f.enqueue(&[0x01]);
    f.enqueue(&[0x02]);
    assert_eq!(f.dequeue(), Some(vec![0x01]));
    assert_eq!(f.dequeue(), Some(vec![0x02]));
    assert_eq!(f.length(), 0);
    assert_eq!(f.dequeue(), None);
    assert_eq!(f.cursor, 0);
    assert_eq!(f.log, Vec::<u8>::new());
    assert_eq!(f.enqueue(&[0x03]), 1);
    assert_eq!(f.length(), 1);
}

#[test]
fn length_balances_enqueues_and_dequeues() {
    let mut f = Files::new();
    let mut enqueued: i64 = 0;
    let mut delivered: i64 = 0;
    for round in 0..3u8 {
        for i in 0..4u8 {
            f.enqueue(&[round, i]);
            enqueued += 1;
        }
        for _ in 0..2u8 {
            if f.dequeue().is_some() {
                delivered += 1;
            }
        }
        assert_eq!(f.length(), enqueued - delivered);
    }
}

#[test]
fn restart_preserves_state() {
    let mut f = Files::new();
    f.enqueue(b"first");
    f.enqueue(b"second");
    assert_eq!(f.dequeue(), Some(b"first".to_vec()));
    // A restart sees only the two files; rebuilding from them changes
    // nothing: the length is preserved and the next dequeue returns the
    // oldest undelivered payload.
    let mut restarted = Files { log: f.log.clone(), cursor: f.cursor };
    assert_eq!(restarted.length(), f.length());
    assert_eq!(restarted.length(), 1);
    assert_eq!(restarted.dequeue(), Some(b"second".to_vec()));
}

#[test]
fn malformed_line_parks_without_advancing() {
    let f = Some(b"!not base64!\n".to_vec());
    assert!(matches!(dequeue_step(&f, 0), DequeueStep::Park));
    assert_eq!(persistent_length(&f, 0), 1);
}

#[test]
fn unreadable_log_counts_no_lines() {
    assert_eq!(persistent_length(&None, 0), 0);
    assert_eq!(persistent_length(&None, 3), -3);
    assert!(matches!(dequeue_step(&None, 0), DequeueStep::Park));
}

#[test]
fn foreign_unterminated_log_still_counts_its_lines() {
    let f = Some(b"abc".to_vec());
    assert_eq!(persistent_length(&f, 0), 1);
    // The unterminated line is no encoding, so the consumer parks and the
    // cursor stays put.
    assert!(matches!(dequeue_step(&f, 0), DequeueStep::Park));
}

#[test]
fn stale_cursor_without_lines_does_not_compact() {
    // An empty log with a leftover cursor file reports a negative length,
    // and a dequeue parks without touching either file.
    let f = Some(Vec::new());
    assert_eq!(persistent_length(&f, 2), -2);
    assert!(matches!(dequeue_step(&f, 2), DequeueStep::Park));
}

#[test]
fn empty_payload_occupies_one_line() {
    let mut f = Files::new();
    assert_eq!(f.enqueue(&[]), 1);
    assert_eq!(f.log, b"\n".to_vec());
    assert_eq!(f.dequeue(), Some(Vec::new()));
    assert_eq!(f.length(), 0);
}
