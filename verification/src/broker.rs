//! The broker: a registry from queue names to queues.
//!
//! Names are compared byte-exact. ENQUEUE and DEQUEUE create a queue on
//! first reference; LENGTH and PURGE do not and report zero for unknown
//! names; FLUSH empties and removes every queue. The registry's contracts
//! are stated over a map from names to queue models, and they pin down that
//! an operation on one queue leaves every other queue untouched.

use vstd::prelude::*;

use crate::queue::InMemoryQueue;
use crate::queue::Queue;
use crate::queue::QueueModel;
use crate::queue::q_empty;
use crate::queue::q_enqueue;
use crate::queue::q_dequeue;
use crate::queue::q_dequeue_out;
use crate::queue::q_park;
use crate::queue::q_purge;
use crate::queue::lemma_enqueue_no_loss;

verus! {

/// One registry entry: a name and the queue it owns.
struct BrokerEntry {
    name: Vec<u8>,
    queue: InMemoryQueue,
}

/// The registry itself. All queues of this broker live in memory; the
/// mapping is created empty and grows on first reference of each name.
pub struct Broker {
    entries: Vec<BrokerEntry>,
}

/// The mapping a sequence of entries denotes.
spec fn entries_map(s: Seq<BrokerEntry>) -> Map<Seq<u8>, QueueModel>
    decreases s.len(),
{
    if s.len() == 0 {
        Map::empty()
    } else {
        entries_map(s.drop_last()).insert(s.last().name@, s.last().queue.model())
    }
}

/// A name is in the mapping exactly when some entry carries it.
proof fn lemma_map_domain(s: Seq<BrokerEntry>, k: Seq<u8>)
    ensures
        entries_map(s).contains_key(k) <==> exists|i: int| 0 <= i < s.len() && s[i].name@ == k,
    decreases s.len(),
{
    if s.len() > 0 {
        lemma_map_domain(s.drop_last(), k);
        if s.last().name@ == k {
            assert(s[s.len() - 1].name@ == k);
        } else if entries_map(s).contains_key(k) {
            let i = choose|i: int| 0 <= i < s.drop_last().len() && s.drop_last()[i].name@ == k;
            assert(s[i].name@ == k);
        } else {
            assert(forall|i: int| 0 <= i < s.len() - 1 ==> s.drop_last()[i] == s[i]);
        }
    }
}

/// Distinct names throughout the entries.
spec fn names_distinct(s: Seq<BrokerEntry>) -> bool {
    forall|i: int, j: int| 0 <= i < j < s.len() ==> s[i].name@ != s[j].name@
}

/// With distinct names, the mapping sends each entry's name to its queue's
/// model.
proof fn lemma_map_index(s: Seq<BrokerEntry>, i: int)
    requires
        names_distinct(s),
        0 <= i < s.len(),
    ensures
        entries_map(s).contains_key(s[i].name@),
        entries_map(s)[s[i].name@] == s[i].queue.model(),
    decreases s.len(),
{
    if i == s.len() - 1 {
        assert(s[i] == s.last());
    } else {
        assert(forall|j: int, l: int| 0 <= j < l < s.len() - 1 ==> s.drop_last()[j].name@ != s.drop_last()[l].name@);
        lemma_map_index(s.drop_last(), i);
        assert(s.drop_last()[i] == s[i]);
        assert(s[i].name@ != s.last().name@);
    }
}

/// Replacing the queue of one entry updates the mapping at that name and
/// nowhere else.
proof fn lemma_map_update(s: Seq<BrokerEntry>, i: int, e: BrokerEntry)
    requires
        names_distinct(s),
        0 <= i < s.len(),
        e.name@ == s[i].name@,
    ensures
        entries_map(s.update(i, e)) == entries_map(s).insert(e.name@, e.queue.model()),
    decreases s.len(),
{
    let s2 = s.update(i, e);
    if i == s.len() - 1 {
        assert(s2.drop_last() =~= s.drop_last());
        assert(s2.last() == e);
        assert(entries_map(s2) =~= entries_map(s).insert(e.name@, e.queue.model()));
    } else {
        assert(s2.drop_last() =~= s.drop_last().update(i, e));
        assert(forall|j: int, l: int| 0 <= j < l < s.len() - 1 ==> s.drop_last()[j].name@ != s.drop_last()[l].name@);
        assert(s.drop_last()[i] == s[i]);
        lemma_map_update(s.drop_last(), i, e);
        assert(s2.last() == s.last());
        assert(e.name@ != s.last().name@);
        assert(entries_map(s2) =~= entries_map(s).insert(e.name@, e.queue.model()));
    }
}

/// Appending an entry with a new name extends the mapping at that name.
proof fn lemma_map_push(s: Seq<BrokerEntry>, e: BrokerEntry)
    ensures
        entries_map(s.push(e)) == entries_map(s).insert(e.name@, e.queue.model()),
{
    assert(s.push(e).drop_last() =~= s);
    assert(s.push(e).last() == e);
}

/// What a DEQUEUE resolves to at once: a stored payload, or the receive
/// half of the handoff slot the consumer was parked on. In the second case
/// the caller suspends on the receiver; a payload arriving there is the
/// delivery, and the channel closing without one means the broker was
/// flushed, so the consumer is told nothing is coming.
pub enum DequeueOutcome {
    Delivered(Vec<u8>),
    Parked(tokio::sync::mpsc::Receiver<Vec<u8>>),
}

impl View for Broker {
    type V = Map<Seq<u8>, QueueModel>;

    closed spec fn view(&self) -> Map<Seq<u8>, QueueModel> {
        entries_map(self.entries@)
    }
}

/// The queue model an operation on `name` starts from: the registered one,
/// or an untouched queue that the operation is about to create.
pub open spec fn broker_queue(m: Map<Seq<u8>, QueueModel>, name: Seq<u8>) -> QueueModel {
    if m.contains_key(name) {
        m[name]
    } else {
        q_empty()
    }
}

impl Broker {
    /// Distinct names, well-formed queues, and the broker's standing
    /// invariant: a queue with parked consumers stores nothing.
    pub closed spec fn wf(&self) -> bool {
        &&& names_distinct(self.entries@)
        &&& forall|i: int| 0 <= i < self.entries@.len() ==> (#[trigger] self.entries@[i]).queue.inv()
        &&& forall|i: int| 0 <= i < self.entries@.len()
            ==> ((#[trigger] self.entries@[i]).queue.model().waiting.len() > 0
                ==> self.entries@[i].queue.model().stored.len() == 0)
    }

    /// Every registered queue's model satisfies the standing invariant.
    pub proof fn lemma_wf_queues(&self, name: Seq<u8>)
        requires
            self.wf(),
            self@.contains_key(name),
        ensures
            self@[name].waiting.len() > 0 ==> self@[name].stored.len() == 0,
    {
        lemma_map_domain(self.entries@, name);
        let i = choose|i: int| 0 <= i < self.entries@.len() && self.entries@[i].name@ == name;
        lemma_map_index(self.entries@, i);
    }

    /// A broker with no queues.
    pub fn new() -> (b: Broker)
        ensures
            b.wf(),
            b@ == Map::<Seq<u8>, QueueModel>::empty(),
    {
        Broker { entries: Vec::new() }
    }

    /// The index of the entry carrying `name`, if one does.
    fn find(&self, name: &Vec<u8>) -> (r: Option<usize>)
        requires
            self.wf(),
        ensures
            match r {
                Some(i) => i < self.entries@.len() && self.entries@[i as int].name@ == name@
                    && self@.contains_key(name@)
                    && self@[name@] == self.entries@[i as int].queue.model(),
                None => !self@.contains_key(name@),
            },
    {
        let mut i: usize = 0;
        while i < self.entries.len()
            invariant
                self.wf(),
                0 <= i <= self.entries@.len(),
                forall|j: int| 0 <= j < i ==> self.entries@[j].name@ != name@,
            decreases self.entries@.len() - i,
        {
            if self.entries[i].name == *name {
                proof {
                    assert(self.entries@[i as int].name@ =~= name@);
                    lemma_map_index(self.entries@, i as int);
                }
                return Some(i);
            }
            proof {
                assert(self.entries@[i as int].name@ != name@) by {
                    if self.entries@[i as int].name@ == name@ {
                    }
                }
            }
            i = i + 1;
        }
        proof {
            lemma_map_domain(self.entries@, name@);
        }
        None
    }

    /// Resolve `name` to its entry's index, creating and registering an
    /// untouched queue when the name is new.
    fn get_or_create(&mut self, name: &Vec<u8>) -> (idx: usize)
        requires
            old(self).wf(),
        ensures
            final(self).wf(),
            idx < final(self).entries@.len(),
            final(self).entries@[idx as int].name@ == name@,
            final(self).entries@[idx as int].queue.model() == broker_queue(old(self)@, name@),
            final(self)@ == old(self)@.insert(name@, broker_queue(old(self)@, name@)),
            forall|j: int| 0 <= j < final(self).entries@.len() && j != idx
                ==> old(self).entries@.contains(#[trigger] final(self).entries@[j]),
            final(self).entries@.len() ==
                if old(self)@.contains_key(name@) { old(self).entries@.len() } else { old(self).entries@.len() + 1 },
            forall|j: int| 0 <= j < old(self).entries@.len() ==> final(self).entries@[j] == old(self).entries@[j],
    {
        match self.find(name) {
            Some(i) => {
                proof {
                    lemma_map_index(self.entries@, i as int);
                    assert(self@.insert(name@, self@[name@]) =~= self@);
                }
                i
            }
            None => {
                proof {
                    lemma_map_domain(self.entries@, name@);
                }
                let e = BrokerEntry { name: name.clone(), queue: InMemoryQueue::new() };
                proof {
                    assert(e.name@ =~= name@);
                }
                self.entries.push(e);
                proof {
                    lemma_map_push(old(self).entries@, e);
                    assert(forall|j: int| 0 <= j < old(self).entries@.len()
                        ==> self.entries@[j] == old(self).entries@[j]);
                    assert(forall|j: int| 0 <= j < old(self).entries@.len()
                        ==> old(self).entries@.contains(#[trigger] old(self).entries@[j]));
                }
                self.entries.len() - 1
            }
        }
    }

    /// ENQUEUE: resolve or create the queue, hand the payload to its oldest
    /// waiter not observed closed — dropping the closed slots met on the way
    /// — or store it when no live waiter exists; returns the stored count
    /// afterwards. Every other queue is untouched.
    pub fn enqueue(&mut self, name: &Vec<u8>, data: Vec<u8>) -> (r: i64)
        requires
            old(self).wf(),
            broker_queue(old(self)@, name@).stored.len() + 1 <= i64::MAX as int,
        ensures
            final(self).wf(),
            exists|closed: Set<nat>|
                closed.subset_of(broker_queue(old(self)@, name@).waiting.to_set())
                && final(self)@ == old(self)@.insert(
                    name@,
                    q_enqueue(broker_queue(old(self)@, name@), data@, closed),
                )
                && r == q_enqueue(broker_queue(old(self)@, name@), data@, closed).stored.len() as int,
            forall|other: Seq<u8>| other != name@ ==> (
                (final(self)@.contains_key(other) <==> old(self)@.contains_key(other))
                && (old(self)@.contains_key(other) ==> final(self)@[other] == old(self)@[other])
            ),
    {
        let ghost pre = broker_queue(old(self)@, name@);
        let idx = self.get_or_create(name);
        let ghost mid = self.entries@;
        let mut e = self.entries.remove(idx);
        let r = e.queue.enqueue(data);
        self.entries.insert(idx, e);
        proof {
            assert(self.entries@ =~= mid.update(idx as int, e));
            lemma_map_update(mid, idx as int, e);
            let closed = choose|closed: Set<nat>|
                closed.subset_of(pre.waiting.to_set())
                && e.queue.model() == q_enqueue(pre, data@, closed);
            lemma_enqueue_no_loss(pre, data@, closed);
            assert(self@ =~= old(self)@.insert(name@, q_enqueue(pre, data@, closed)));
            assert(closed.subset_of(pre.waiting.to_set())
                && self@ == old(self)@.insert(name@, q_enqueue(pre, data@, closed))
                && r == q_enqueue(pre, data@, closed).stored.len() as int);
            assert(exists|closed: Set<nat>|
                closed.subset_of(pre.waiting.to_set())
                && self@ == old(self)@.insert(name@, q_enqueue(pre, data@, closed))
                && r == q_enqueue(pre, data@, closed).stored.len() as int);
            assert(forall|j: int| 0 <= j < self.entries@.len() && j != idx
                ==> mid.contains(#[trigger] self.entries@[j]));
        }
        r
    }

    /// What a DEQUEUE resolves to at once: the oldest stored payload, or
    /// the receive half of a fresh handoff slot the consumer now suspends
    /// on, parked at the tail of the queue's waiter list.
    pub fn dequeue(&mut self, name: &Vec<u8>) -> (r: DequeueOutcome)
        requires
            old(self).wf(),
        ensures
            final(self).wf(),
            ({
                let pre = broker_queue(old(self)@, name@);
                &&& (pre.stored.len() > 0 ==> ({
                    &&& r matches DequeueOutcome::Delivered(d)
                    &&& Some(d@) == q_dequeue_out(pre)
                    &&& final(self)@ == old(self)@.insert(name@, q_dequeue(pre))
                }))
                &&& (pre.stored.len() == 0 ==> r is Parked
                    && final(self)@ == old(self)@.insert(name@, q_park(pre)))
            }),
            forall|other: Seq<u8>| other != name@ ==> (
                (final(self)@.contains_key(other) <==> old(self)@.contains_key(other))
                && (old(self)@.contains_key(other) ==> final(self)@[other] == old(self)@[other])
            ),
    {
        let ghost pre = broker_queue(old(self)@, name@);
        let idx = self.get_or_create(name);
        let ghost mid = self.entries@;
        let mut e = self.entries.remove(idx);
        let out = match e.queue.dequeue() {
            Some(d) => DequeueOutcome::Delivered(d),
            None => DequeueOutcome::Parked(e.queue.park()),
        };
        self.entries.insert(idx, e);
        proof {
            assert(self.entries@ =~= mid.update(idx as int, e));
            lemma_map_update(mid, idx as int, e);
            if pre.stored.len() > 0 {
                assert(self@ =~= old(self)@.insert(name@, q_dequeue(pre)));
            } else {
                assert(self@ =~= old(self)@.insert(name@, q_park(pre)));
            }
            assert(forall|j: int| 0 <= j < self.entries@.len() && j != idx
                ==> mid.contains(#[trigger] self.entries@[j]));
        }
        out
    }

    /// PURGE: clear the named queue's stored payloads and return how many
    /// there were; parked consumers stay parked. Zero for an unknown name,
    /// and no queue is created. Every other queue is untouched.
    pub fn purge(&mut self, name: &Vec<u8>) -> (r: i64)
        requires
            old(self).wf(),
            old(self)@.contains_key(name@) ==> old(self)@[name@].stored.len() <= i64::MAX as int,
        ensures
            final(self).wf(),
            !old(self)@.contains_key(name@) ==> r == 0 && final(self)@ == old(self)@,
            old(self)@.contains_key(name@) ==> ({
                &&& r == old(self)@[name@].stored.len() as int
                &&& final(self)@ == old(self)@.insert(name@, q_purge(old(self)@[name@]))
            }),
            forall|other: Seq<u8>| other != name@ ==> (
                (final(self)@.contains_key(other) <==> old(self)@.contains_key(other))
                && (old(self)@.contains_key(other) ==> final(self)@[other] == old(self)@[other])
            ),
    {
        match self.find(name) {
            None => 0,
            Some(idx) => {
                let ghost mid = self.entries@;
                let mut e = self.entries.remove(idx);
                let r = e.queue.purge();
                self.entries.insert(idx, e);
                proof {
                    assert(self.entries@ =~= mid.update(idx as int, e));
                    lemma_map_update(mid, idx as int, e);
                    assert(self@ =~= old(self)@.insert(name@, q_purge(old(self)@[name@])));
                    assert(forall|j: int| 0 <= j < self.entries@.len() && j != idx
                        ==> mid.contains(#[trigger] self.entries@[j]));
                }
                r
            }
        }
    }

    /// FLUSH: empty and remove every queue. Dropping an entry destroys its
    /// queue: the stored payloads go, and the slots of its parked consumers
    /// close, so those consumers learn no payload is coming. Afterwards the
    /// mapping is empty and LENGTH of every name reports zero.
    pub fn flush(&mut self)
        requires
            old(self).wf(),
        ensures
            final(self).wf(),
            final(self)@ == Map::<Seq<u8>, QueueModel>::empty(),
    {
        self.entries.clear();
    }

    /// After FLUSH the mapping is empty, so the queue any name resolves to
    /// is the untouched one and LENGTH of every previously used queue
    /// reports zero.
    pub proof fn lemma_flush_lengths(name: Seq<u8>)
        ensures
            broker_queue(Map::empty(), name) == q_empty(),
            broker_queue(Map::empty(), name).stored.len() == 0,
    {
    }

    /// LENGTH: how many payloads the named queue stores; zero for a name no
    /// operation has referenced. Never creates a queue.
    pub fn length(&self, name: &Vec<u8>) -> (r: i64)
        requires
            self.wf(),
            self@.contains_key(name@) ==> self@[name@].stored.len() <= i64::MAX as int,
        ensures
            r == broker_queue(self@, name@).stored.len() as int,
    {
        match self.find(name) {
            None => 0,
            Some(i) => self.entries[i].queue.length(),
        }
    }
}

} // verus!
