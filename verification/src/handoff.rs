//! The handoff primitive and the waiter list.
//!
//! A parked consumer is represented by the send half of a one-shot bounded
//! channel (capacity 1). A queue keeps these send halves oldest-first; a
//! producer walks them front to back, skipping slots whose consumer has gone,
//! and hands its payload to the first live one. Each slot carries a ghost
//! identifier so that contracts can say which waiter a delivery reached.

use vstd::prelude::*;

verus! {

#[verifier::external_type_specification]
#[verifier::external_body]
#[verifier::reject_recursive_types(T)]
pub struct ExSender<T>(tokio::sync::mpsc::Sender<T>);

#[verifier::external_type_specification]
#[verifier::external_body]
#[verifier::reject_recursive_types(T)]
pub struct ExReceiver<T>(tokio::sync::mpsc::Receiver<T>);

/// Relies on `tokio::sync::mpsc::channel`: returns the two halves of a fresh
/// bounded channel. It panics only on capacity 0; this call passes 1.
#[verifier::external_body]
fn handoff_channel() -> (pair: (tokio::sync::mpsc::Sender<Vec<u8>>, tokio::sync::mpsc::Receiver<Vec<u8>>)) {
    tokio::sync::mpsc::channel(1)
}

/// Relies on `tokio::sync::mpsc::Sender::try_send`: it never blocks or
/// panics, and on failure (receiver gone, or no capacity) it hands the
/// unsent value back inside the error.
#[verifier::external_body]
fn try_send_payload(tx: &tokio::sync::mpsc::Sender<Vec<u8>>, data: Vec<u8>) -> (r: Result<(), Vec<u8>>)
    ensures
        r matches Err(v) ==> v@ == data@,
{
    match tx.try_send(data) {
        Ok(()) => Ok(()),
        Err(tokio::sync::mpsc::error::TrySendError::Full(v)) => Err(v),
        Err(tokio::sync::mpsc::error::TrySendError::Closed(v)) => Err(v),
    }
}

/// The oldest waiter not observed closed, if any: the slot a producer
/// delivers to when the queue judges the slots in `closed` abandoned.
pub open spec fn wl_deliver_hit(ids: Seq<nat>, closed: Set<nat>) -> Option<nat>
    decreases ids.len(),
{
    if ids.len() == 0 {
        None
    } else if closed.contains(ids[0]) {
        wl_deliver_hit(ids.skip(1), closed)
    } else {
        Some(ids[0])
    }
}

/// The waiters still parked after a delivery attempt: the scan pops each
/// abandoned slot it meets and also the slot it delivers to.
pub open spec fn wl_deliver_rest(ids: Seq<nat>, closed: Set<nat>) -> Seq<nat>
    decreases ids.len(),
{
    if ids.len() == 0 {
        ids
    } else if closed.contains(ids[0]) {
        wl_deliver_rest(ids.skip(1), closed)
    } else {
        ids.skip(1)
    }
}

/// A delivery scan that starts after a fully-abandoned prefix behaves as if
/// the prefix were not there.
pub proof fn lemma_wl_skip(ids: Seq<nat>, closed: Set<nat>, k: int)
    requires
        0 <= k <= ids.len(),
        forall|i: int| 0 <= i < k ==> closed.contains(ids[i]),
    ensures
        wl_deliver_hit(ids, closed) == wl_deliver_hit(ids.skip(k), closed),
        wl_deliver_rest(ids, closed) == wl_deliver_rest(ids.skip(k), closed),
    decreases k,
{
    if k > 0 {
        assert(closed.contains(ids[0]));
        lemma_wl_skip(ids.skip(1), closed, k - 1);
        assert(ids.skip(1).skip(k - 1) =~= ids.skip(k));
    } else {
        assert(ids.skip(0) =~= ids);
    }
}

/// What a delivery scan does, characterized without recursion: it delivers
/// to the oldest slot not judged closed, pops everything up to and including
/// that slot, and when every slot is judged closed it pops them all and
/// delivers to none.
pub proof fn lemma_wl_first_live(ids: Seq<nat>, closed: Set<nat>)
    ensures
        match wl_deliver_hit(ids, closed) {
            Some(id) => exists|k: int|
                0 <= k < ids.len()
                && ids[k] == id
                && !closed.contains(id)
                && (forall|j: int| 0 <= j < k ==> closed.contains(ids[j]))
                && wl_deliver_rest(ids, closed) == ids.skip(k + 1),
            None => (forall|j: int| 0 <= j < ids.len() ==> closed.contains(ids[j]))
                && wl_deliver_rest(ids, closed).len() == 0,
        },
    decreases ids.len(),
{
    if ids.len() > 0 {
        if closed.contains(ids[0]) {
            lemma_wl_first_live(ids.skip(1), closed);
            match wl_deliver_hit(ids, closed) {
                Some(id) => {
                    let k0 = choose|k0: int|
                        0 <= k0 < ids.skip(1).len()
                        && ids.skip(1)[k0] == id
                        && !closed.contains(id)
                        && (forall|j: int| 0 <= j < k0 ==> closed.contains(ids.skip(1)[j]))
                        && wl_deliver_rest(ids.skip(1), closed) == ids.skip(1).skip(k0 + 1);
                    let k = k0 + 1;
                    assert(ids.skip(1).skip(k0 + 1) =~= ids.skip(k + 1));
                    assert(forall|j: int| 0 <= j < k ==> closed.contains(ids[j])) by {
                        assert(forall|j: int| 1 <= j < k ==> ids[j] == ids.skip(1)[j - 1]);
                    }
                    assert(0 <= k < ids.len()
                        && ids[k] == id
                        && !closed.contains(id)
                        && (forall|j: int| 0 <= j < k ==> closed.contains(ids[j]))
                        && wl_deliver_rest(ids, closed) == ids.skip(k + 1));
                }
                None => {
                    assert(forall|j: int| 1 <= j < ids.len() ==> closed.contains(#[trigger] ids[j])) by {
                        assert(forall|j: int| 1 <= j < ids.len() ==> #[trigger] ids[j] == ids.skip(1)[j - 1]);
                    }
                }
            }
        } else {
            let k = 0;
            assert(0 <= k < ids.len()
                && ids[k] == wl_deliver_hit(ids, closed)->Some_0
                && !closed.contains(ids[k])
                && (forall|j: int| 0 <= j < k ==> closed.contains(ids[j]))
                && wl_deliver_rest(ids, closed) == ids.skip(k + 1));
        }
    }
}

/// The parked consumers of one queue, oldest first. Each send half is paired
/// with a ghost identifier, handed out in increasing order as consumers park.
pub struct WaiterList {
    senders: Vec<tokio::sync::mpsc::Sender<Vec<u8>>>,
    ids: Ghost<Seq<nat>>,
    next_id: Ghost<nat>,
}

impl View for WaiterList {
    type V = Seq<nat>;

    closed spec fn view(&self) -> Seq<nat> {
        self.ids@
    }
}

impl WaiterList {
    /// One ghost identifier per sender; identifiers strictly increase with
    /// age rank, and all are below the next one to be handed out.
    pub closed spec fn wf(&self) -> bool {
        &&& self.ids@.len() == self.senders@.len()
        &&& forall|i: int, j: int| 0 <= i < j < self.ids@.len() ==> self.ids@[i] < self.ids@[j]
        &&& forall|i: int| 0 <= i < self.ids@.len() ==> self.ids@[i] < self.next_id@
    }

    /// The identifier the next parked consumer will receive.
    pub closed spec fn next(&self) -> nat {
        self.next_id@
    }

    pub fn new() -> (w: WaiterList)
        ensures
            w.wf(),
            w@ == Seq::<nat>::empty(),
            w.next() == 0,
    {
        WaiterList { senders: Vec::new(), ids: Ghost(Seq::empty()), next_id: Ghost(0) }
    }

    /// Park a consumer: append a fresh slot and return its receive half for
    /// the caller to suspend on.
    pub fn park(&mut self) -> (rx: tokio::sync::mpsc::Receiver<Vec<u8>>)
        requires
            old(self).wf(),
        ensures
            final(self).wf(),
            final(self)@ == old(self)@.push(old(self).next()),
            final(self).next() == old(self).next() + 1,
    {
        let (tx, rx) = handoff_channel();
        self.senders.push(tx);
        self.ids = Ghost(self.ids@.push(self.next_id@));
        self.next_id = Ghost(self.next_id@ + 1);
        rx
    }

    /// Walk the waiters oldest-first and hand `data` to the first live one,
    /// dropping every abandoned slot met on the way. Returns the payload back
    /// when every waiter was gone (the caller then stores it). The set of
    /// slots observed closed is whatever the channels report, so the contract
    /// quantifies over it.
    pub fn deliver(&mut self, data: Vec<u8>) -> (r: Option<Vec<u8>>)
        requires
            old(self).wf(),
        ensures
            final(self).wf(),
            final(self).next() == old(self).next(),
            r matches Some(d) ==> d@ == data@,
            exists|closed: Set<nat>|
                closed.subset_of(old(self)@.to_set())
                && final(self)@ == wl_deliver_rest(old(self)@, closed)
                && ((r is None) <==> (wl_deliver_hit(old(self)@, closed) is Some)),
    {
        let ghost orig: Seq<nat> = self.ids@;
        let ghost onext: nat = self.next_id@;
        let mut payload = data;
        let ghost mut k: int = 0;
        let ghost mut closedg: Set<nat> = Set::empty();
        proof {
            assert(orig.skip(0) =~= orig);
        }
        while self.senders.len() > 0
            invariant
                orig == old(self)@,
                onext == old(self).next(),
                0 <= k <= orig.len(),
                self.ids@ == orig.skip(k),
                self.ids@.len() == self.senders@.len(),
                forall|i: int, j: int| 0 <= i < j < orig.len() ==> orig[i] < orig[j],
                forall|i: int| 0 <= i < orig.len() ==> orig[i] < onext,
                self.next_id@ == onext,
                forall|i: int| 0 <= i < k ==> closedg.contains(orig[i]),
                forall|x: nat| closedg.contains(x) ==> exists|i: int| 0 <= i < k && orig[i] == x,
                payload@ == data@,
            decreases orig.len() - k,
        {
            let ghost popped: nat = self.ids@[0];
            let tx = self.senders.remove(0);
            self.ids = Ghost(self.ids@.skip(1));
            proof {
                assert(self.ids@ =~= orig.skip(k + 1));
            }
            match try_send_payload(&tx, payload) {
                Ok(()) => {
                    proof {
                        lemma_wl_skip(orig, closedg, k);
                        assert(orig.skip(k)[0] == orig[k]);
                        assert(!closedg.contains(orig[k])) by {
                            if closedg.contains(orig[k]) {
                                let i = choose|i: int| 0 <= i < k && orig[i] == orig[k];
                                assert(orig[i] < orig[k]);
                            }
                        }
                        assert(wl_deliver_hit(orig, closedg) == Some(orig[k]));
                        assert(orig.skip(k).skip(1) =~= orig.skip(k + 1));
                        assert(wl_deliver_rest(orig, closedg) == orig.skip(k + 1));
                        assert(forall|x: nat| closedg.contains(x) ==> orig.contains(x));
                        assert(closedg.subset_of(old(self)@.to_set()));
                        assert(self@ == wl_deliver_rest(old(self)@, closedg));
                        assert(wl_deliver_hit(old(self)@, closedg) is Some);
                        assert(exists|closed: Set<nat>|
                            closed.subset_of(old(self)@.to_set())
                            && self@ == wl_deliver_rest(old(self)@, closed)
                            && (wl_deliver_hit(old(self)@, closed) is Some));
                    }
                    return None;
                }
                Err(v) => {
                    payload = v;
                    proof {
                        closedg = closedg.insert(popped);
                        k = k + 1;
                        assert(popped == orig[k - 1]);
                    }
                }
            }
        }
        proof {
            assert(orig.skip(k).len() == 0);
            assert(k == orig.len());
            lemma_wl_skip(orig, closedg, k);
            assert(wl_deliver_hit(orig, closedg) is None);
            assert(wl_deliver_rest(orig, closedg) =~= self.ids@);
            assert(wl_deliver_rest(orig, closedg) == self.ids@);
            assert(forall|x: nat| closedg.contains(x) ==> orig.contains(x));
            assert(closedg.subset_of(old(self)@.to_set())
                && self@ == wl_deliver_rest(old(self)@, closedg)
                && (wl_deliver_hit(old(self)@, closedg) is None));
            assert(exists|closed: Set<nat>|
                closed.subset_of(old(self)@.to_set())
                && self@ == wl_deliver_rest(old(self)@, closed)
                && (wl_deliver_hit(old(self)@, closed) is None));
        }
        Some(payload)
    }
}

} // verus!
