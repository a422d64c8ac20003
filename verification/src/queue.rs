//! Queues and their mathematical model.
//!
//! A queue holds stored payloads (oldest first) and the parked consumers of
//! its waiter list. The model transitions below say what ENQUEUE, DEQUEUE,
//! parking and PURGE do to that state; the executable types prove that they
//! follow the transitions, and the proof functions at the end state the
//! queue's ordering and delivery laws over the same transitions.

use vstd::prelude::*;

use crate::handoff::WaiterList;
use crate::handoff::wl_deliver_hit;
use crate::handoff::wl_deliver_rest;
use crate::handoff::lemma_wl_first_live;

verus! {

/// The abstract state of one queue: stored payloads oldest-first, the ghost
/// identifiers of its parked consumers oldest-first, and the identifier the
/// next parked consumer will get.
#[verifier::ext_equal]
pub struct QueueModel {
    pub stored: Seq<Seq<u8>>,
    pub waiting: Seq<nat>,
    pub next_slot: nat,
}

/// The state of a queue nothing has touched yet.
pub open spec fn q_empty() -> QueueModel {
    QueueModel { stored: Seq::empty(), waiting: Seq::empty(), next_slot: 0 }
}

/// ENQUEUE: hand the payload to the oldest waiter not judged closed, popping
/// the judged-closed slots met on the way; when every waiter is judged
/// closed (or none is parked), store the payload at the tail instead.
/// `closed` is the set of slots the producer observes abandoned.
pub open spec fn q_enqueue(q: QueueModel, p: Seq<u8>, closed: Set<nat>) -> QueueModel {
    if wl_deliver_hit(q.waiting, closed) is Some {
        QueueModel { stored: q.stored, waiting: wl_deliver_rest(q.waiting, closed), next_slot: q.next_slot }
    } else {
        QueueModel {
            stored: q.stored.push(p),
            waiting: wl_deliver_rest(q.waiting, closed),
            next_slot: q.next_slot,
        }
    }
}

/// The waiter an ENQUEUE delivers to, if any.
pub open spec fn q_enqueue_hit(q: QueueModel, closed: Set<nat>) -> Option<nat> {
    wl_deliver_hit(q.waiting, closed)
}

/// DEQUEUE of a stored payload: drop the oldest. On an empty queue the state
/// is unchanged (the consumer parks instead, see `q_park`).
pub open spec fn q_dequeue(q: QueueModel) -> QueueModel {
    if q.stored.len() > 0 {
        QueueModel { stored: q.stored.skip(1), waiting: q.waiting, next_slot: q.next_slot }
    } else {
        q
    }
}

/// The payload a DEQUEUE of a stored payload returns.
pub open spec fn q_dequeue_out(q: QueueModel) -> Option<Seq<u8>> {
    if q.stored.len() > 0 {
        Some(q.stored[0])
    } else {
        None
    }
}

/// Park a consumer: a fresh slot joins the waiters at the tail.
pub open spec fn q_park(q: QueueModel) -> QueueModel {
    QueueModel { stored: q.stored, waiting: q.waiting.push(q.next_slot), next_slot: q.next_slot + 1 }
}

/// PURGE: the stored payloads go; parked consumers stay parked.
pub open spec fn q_purge(q: QueueModel) -> QueueModel {
    QueueModel { stored: Seq::empty(), waiting: q.waiting, next_slot: q.next_slot }
}

/// The views of a sequence of payload buffers.
pub open spec fn payload_views(s: Seq<Vec<u8>>) -> Seq<Seq<u8>> {
    s.map_values(|v: Vec<u8>| v@)
}

/// The common surface of a queue: stored-payload count, enqueue with waiter
/// delivery, dequeue of the oldest stored payload, and purge.
pub trait Queue: Sized {
    /// The queue's abstract state.
    spec fn model(&self) -> QueueModel;

    /// The queue's internal invariant.
    spec fn inv(&self) -> bool;

    /// How many payloads are stored. Never blocks.
    fn length(&self) -> (r: i64)
        requires
            self.inv(),
            self.model().stored.len() <= i64::MAX as int,
        ensures
            r == self.model().stored.len() as int;

    /// Hand `data` to the oldest live waiter, or store it; returns the
    /// stored-payload count afterwards. The set of slots observed closed is
    /// whatever the handoff channels report, so it is quantified.
    fn enqueue(&mut self, data: Vec<u8>) -> (r: i64)
        requires
            old(self).inv(),
            old(self).model().stored.len() + 1 <= i64::MAX as int,
        ensures
            final(self).inv(),
            exists|closed: Set<nat>|
                closed.subset_of(old(self).model().waiting.to_set())
                && final(self).model() == q_enqueue(old(self).model(), data@, closed),
            r == final(self).model().stored.len() as int;

    /// Remove and return the oldest stored payload, or report that there is
    /// none (the broker then parks the consumer).
    fn dequeue(&mut self) -> (r: Option<Vec<u8>>)
        requires
            old(self).inv(),
        ensures
            final(self).inv(),
            final(self).model() == q_dequeue(old(self).model()),
            r matches Some(d) ==> q_dequeue_out(old(self).model()) == Some(d@),
            r is None <==> q_dequeue_out(old(self).model()) is None;

    /// Clear the stored payloads and return how many there were; parked
    /// consumers remain waiting.
    fn purge(&mut self) -> (r: i64)
        requires
            old(self).inv(),
            old(self).model().stored.len() <= i64::MAX as int,
        ensures
            final(self).inv(),
            final(self).model() == q_purge(old(self).model()),
            r == old(self).model().stored.len() as int;
}

/// The all-in-memory queue: stored payloads in a vector, waiters in a
/// waiter list. Not internally synchronized; the broker holds its lock.
pub struct InMemoryQueue {
    pub messages: Vec<Vec<u8>>,
    pub waiters: WaiterList,
}

impl InMemoryQueue {
    pub fn new() -> (q: InMemoryQueue)
        ensures
            q.inv(),
            q.model() == q_empty(),
    {
        let q = InMemoryQueue { messages: Vec::new(), waiters: WaiterList::new() };
        proof {
            assert(q.model() =~= q_empty());
        }
        q
    }

    /// Park a consumer on this queue and return the receive half of its
    /// fresh handoff slot.
    pub fn park(&mut self) -> (rx: tokio::sync::mpsc::Receiver<Vec<u8>>)
        requires
            old(self).inv(),
        ensures
            final(self).inv(),
            final(self).model() == q_park(old(self).model()),
    {
        let rx = self.waiters.park();
        proof {
            assert(self.model() =~= q_park(old(self).model()));
        }
        rx
    }
}

impl Queue for InMemoryQueue {
    open spec fn model(&self) -> QueueModel {
        QueueModel {
            stored: payload_views(self.messages@),
            waiting: self.waiters@,
            next_slot: self.waiters.next(),
        }
    }

    open spec fn inv(&self) -> bool {
        self.waiters.wf()
    }

    fn length(&self) -> (r: i64) {
        self.messages.len() as i64
    }

    fn enqueue(&mut self, data: Vec<u8>) -> (r: i64) {
        let ghost pre = self.model();
        match self.waiters.deliver(data) {
            None => {
                // A waiter took the payload; nothing is stored.
                proof {
                    let closed = choose|closed: Set<nat>|
                        closed.subset_of(old(self).waiters@.to_set())
                        && self.waiters@ == wl_deliver_rest(old(self).waiters@, closed)
                        && ((wl_deliver_hit(old(self).waiters@, closed)) is Some);
                    assert(self.model() =~= q_enqueue(pre, data@, closed));
                    assert(closed.subset_of(pre.waiting.to_set())
                        && self.model() == q_enqueue(pre, data@, closed));
                    assert(exists|closed: Set<nat>|
                        closed.subset_of(pre.waiting.to_set())
                        && self.model() == q_enqueue(pre, data@, closed));
                }
                self.messages.len() as i64
            }
            Some(returned) => {
                // Every waiter was gone: store the payload.
                self.messages.push(returned);
                proof {
                    let closed = choose|closed: Set<nat>|
                        closed.subset_of(old(self).waiters@.to_set())
                        && self.waiters@ == wl_deliver_rest(old(self).waiters@, closed)
                        && ((wl_deliver_hit(old(self).waiters@, closed)) is None);
                    assert(payload_views(self.messages@) =~= pre.stored.push(data@));
                    assert(self.model() =~= q_enqueue(pre, data@, closed));
                    assert(closed.subset_of(pre.waiting.to_set())
                        && self.model() == q_enqueue(pre, data@, closed));
                    assert(exists|closed: Set<nat>|
                        closed.subset_of(pre.waiting.to_set())
                        && self.model() == q_enqueue(pre, data@, closed));
                }
                self.messages.len() as i64
            }
        }
    }

    fn dequeue(&mut self) -> (r: Option<Vec<u8>>) {
        if self.messages.len() > 0 {
            let d = self.messages.remove(0);
            proof {
                assert(payload_views(old(self).messages@)[0] == d@);
                assert(payload_views(self.messages@) =~= payload_views(old(self).messages@).skip(1));
                assert(self.model() =~= q_dequeue(old(self).model()));
            }
            Some(d)
        } else {
            None
        }
    }

    fn purge(&mut self) -> (r: i64) {
        let prior = self.messages.len() as i64;
        self.messages.clear();
        proof {
            assert(self.model() =~= q_purge(old(self).model()));
        }
        prior
    }
}

/// A run of ENQUEUEs in which every waiter is live (no slot judged closed).
pub open spec fn q_enqueue_n(q: QueueModel, ps: Seq<Seq<u8>>) -> QueueModel
    decreases ps.len(),
{
    if ps.len() == 0 {
        q
    } else {
        q_enqueue_n(q_enqueue(q, ps[0], Set::empty()), ps.skip(1))
    }
}

/// The waiters that the same run delivers to, in run order.
pub open spec fn q_enqueue_n_hits(q: QueueModel, ps: Seq<Seq<u8>>) -> Seq<Option<nat>>
    decreases ps.len(),
{
    if ps.len() == 0 {
        Seq::empty()
    } else {
        seq![q_enqueue_hit(q, Set::empty())]
            + q_enqueue_n_hits(q_enqueue(q, ps[0], Set::empty()), ps.skip(1))
    }
}

/// Repeated DEQUEUEs of stored payloads.
pub open spec fn q_dequeue_n(q: QueueModel, n: int) -> QueueModel
    decreases n,
{
    if n <= 0 {
        q
    } else {
        q_dequeue_n(q_dequeue(q), n - 1)
    }
}

/// What those DEQUEUEs return, in call order.
pub open spec fn q_dequeue_n_outs(q: QueueModel, n: int) -> Seq<Option<Seq<u8>>>
    decreases n,
{
    if n <= 0 {
        Seq::empty()
    } else {
        seq![q_dequeue_out(q)] + q_dequeue_n_outs(q_dequeue(q), n - 1)
    }
}

/// FIFO within a queue, in general: successive DEQUEUEs return the stored
/// payloads oldest first — whatever enqueued `a` before `b` finds them
/// dequeued in that order — and leave the rest stored in order.
pub proof fn lemma_dequeue_order(q: QueueModel, n: int)
    requires
        0 <= n <= q.stored.len(),
    ensures
        q_dequeue_n_outs(q, n) == Seq::new(n as nat, |i: int| Some(q.stored[i])),
        q_dequeue_n(q, n).stored == q.stored.skip(n),
        q_dequeue_n(q, n).waiting == q.waiting,
        q_dequeue_n(q, n).next_slot == q.next_slot,
    decreases n,
{
    if n == 0 {
        assert(q.stored.skip(0) =~= q.stored);
        assert(q_dequeue_n_outs(q, n) =~= Seq::new(n as nat, |i: int| Some(q.stored[i])));
    } else {
        let q1 = q_dequeue(q);
        lemma_dequeue_order(q1, n - 1);
        assert(q.stored.skip(1).skip(n - 1) =~= q.stored.skip(n));
        assert(q_dequeue_n_outs(q, n) =~= Seq::new(n as nat, |i: int| Some(q.stored[i]))) by {
            assert(q_dequeue_n_outs(q1, n - 1) == Seq::new((n - 1) as nat, |i: int| Some(q1.stored[i])));
            assert(forall|i: int| 0 <= i < n - 1 ==> q1.stored[i] == q.stored[i + 1]);
        }
    }
}

/// FIFO within a queue: on a queue with no waiters, enqueueing `a` and then
/// `b` stores them in that order, whatever abandonment the two producers
/// observe, and two successive dequeues return `a` then `b` and leave the
/// queue empty again.
pub proof fn lemma_fifo_within_queue(
    q: QueueModel,
    a: Seq<u8>,
    b: Seq<u8>,
    c1: Set<nat>,
    c2: Set<nat>,
)
    requires
        q.stored.len() == 0,
        q.waiting.len() == 0,
    ensures
        ({
            let q2 = q_enqueue(q_enqueue(q, a, c1), b, c2);
            &&& q2.stored == seq![a, b]
            &&& q_dequeue_out(q2) == Some(a)
            &&& q_dequeue_out(q_dequeue(q2)) == Some(b)
            &&& q_dequeue(q_dequeue(q2)).stored.len() == 0
        }),
{
    let q1 = q_enqueue(q, a, c1);
    let q2 = q_enqueue(q1, b, c2);
    assert(q1.stored =~= seq![a]);
    assert(q2.stored =~= seq![a, b]);
    assert(q_dequeue(q2).stored =~= seq![b]);
}

/// Handoff: a consumer parked on an empty queue is handed the next enqueued
/// payload directly — provided the producer does not observe its fresh slot
/// closed — and the queue's stored count stays zero.
pub proof fn lemma_handoff(q: QueueModel, p: Seq<u8>, closed: Set<nat>)
    requires
        q.stored.len() == 0,
        q.waiting.len() == 0,
        !closed.contains(q.next_slot),
    ensures
        q_enqueue_hit(q_park(q), closed) == Some(q.next_slot),
        q_enqueue(q_park(q), p, closed).stored.len() == 0,
        q_enqueue(q_park(q), p, closed).waiting.len() == 0,
{
    let q1 = q_park(q);
    assert(q1.waiting[0] == q.next_slot);
    assert(q1.waiting.skip(1) =~= Seq::<nat>::empty());
}

/// Waiter FIFO: when all parked consumers stay live, a run of `N` ENQUEUEs
/// delivers to the `N` oldest waiters in parking order, stores nothing, and
/// leaves the younger waiters parked in order.
pub proof fn lemma_waiter_fifo(q: QueueModel, ps: Seq<Seq<u8>>)
    requires
        ps.len() <= q.waiting.len(),
    ensures
        q_enqueue_n(q, ps).stored == q.stored,
        q_enqueue_n(q, ps).waiting == q.waiting.skip(ps.len() as int),
        q_enqueue_n(q, ps).next_slot == q.next_slot,
        q_enqueue_n_hits(q, ps) == Seq::new(ps.len(), |i: int| Some(q.waiting[i])),
    decreases ps.len(),
{
    if ps.len() == 0 {
        assert(q.waiting.skip(0) =~= q.waiting);
        assert(q_enqueue_n_hits(q, ps) =~= Seq::new(ps.len(), |i: int| Some(q.waiting[i])));
    } else {
        let q1 = q_enqueue(q, ps[0], Set::empty());
        assert(!Set::<nat>::empty().contains(q.waiting[0]));
        assert(q_enqueue_hit(q, Set::empty()) == Some(q.waiting[0]));
        assert(q1.waiting == q.waiting.skip(1));
        lemma_waiter_fifo(q1, ps.skip(1));
        assert(q.waiting.skip(1).skip(ps.len() - 1) =~= q.waiting.skip(ps.len() as int));
        assert(q_enqueue_n_hits(q, ps) =~= Seq::new(ps.len(), |i: int| Some(q.waiting[i]))) by {
            let rest = q_enqueue_n_hits(q1, ps.skip(1));
            assert(rest == Seq::new(ps.skip(1).len(), |i: int| Some(q1.waiting[i])));
            assert(forall|i: int| 0 <= i < ps.len() - 1 ==> q1.waiting[i] == q.waiting[i + 1]);
        }
    }
}

/// Cancellation, part one: a producer never loses its payload. Either it is
/// delivered to the oldest waiter not observed closed — every older slot was
/// observed closed and is dropped — or every waiter was observed closed and
/// the payload is stored.
pub proof fn lemma_enqueue_no_loss(q: QueueModel, p: Seq<u8>, closed: Set<nat>)
    ensures
        ({
            let q2 = q_enqueue(q, p, closed);
            match q_enqueue_hit(q, closed) {
                Some(id) => q2.stored == q.stored && exists|k: int|
                    0 <= k < q.waiting.len()
                    && q.waiting[k] == id
                    && !closed.contains(id)
                    && (forall|j: int| 0 <= j < k ==> closed.contains(q.waiting[j]))
                    && q2.waiting == q.waiting.skip(k + 1),
                None => q2.stored == q.stored.push(p)
                    && (forall|j: int| 0 <= j < q.waiting.len() ==> closed.contains(q.waiting[j]))
                    && q2.waiting.len() == 0,
            }
        }),
{
    lemma_wl_first_live(q.waiting, closed);
}

/// Cancellation, part two: a waiter that abandoned its slot is simply
/// skipped — the enqueue behaves exactly as on the queue without it.
pub proof fn lemma_cancelled_slot_skipped(q: QueueModel, p: Seq<u8>, closed: Set<nat>)
    requires
        q.waiting.len() > 0,
        closed.contains(q.waiting[0]),
    ensures
        ({
            let shorter = QueueModel { stored: q.stored, waiting: q.waiting.skip(1), next_slot: q.next_slot };
            q_enqueue(q, p, closed) == q_enqueue(shorter, p, closed)
                && q_enqueue_hit(q, closed) == q_enqueue_hit(shorter, closed)
        }),
{
    let shorter = QueueModel { stored: q.stored, waiting: q.waiting.skip(1), next_slot: q.next_slot };
    assert(q_enqueue(q, p, closed) =~= q_enqueue(shorter, p, closed));
}

} // verus!
