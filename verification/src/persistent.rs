//! The persistent queue's log discipline.
//!
//! A persistent queue is two files: an append-only payload log whose lines
//! are encoded payloads, and a cursor file whose byte size counts the lines
//! already consumed. This module holds everything the discipline decides,
//! as functions of the file contents alone: splitting the log into lines,
//! the queue length, what an enqueue appends, and what a dequeue does —
//! deliver the line at the cursor, compact a fully drained log, or park the
//! consumer. The process around the library reads and writes the files and
//! follows the returned plan. Because every function here is a function of
//! the durable state, a restart that finds the same files finds the same
//! queue.

use vstd::prelude::*;

use crate::codec::NEWLINE;
use crate::codec::b64_of;
use crate::codec::is_encoding;
use crate::codec::decode;
use crate::codec::encode;
use crate::queue::payload_views;

verus! {

/// Split accumulator: the lines of `cur + c`, where `cur` is the partial
/// line read so far. A trailing line without a newline still counts; a
/// trailing newline does not open an empty line.
pub open spec fn split_acc(c: Seq<u8>, cur: Seq<u8>) -> Seq<Seq<u8>>
    decreases c.len(),
{
    if c.len() == 0 {
        if cur.len() == 0 {
            Seq::empty()
        } else {
            seq![cur]
        }
    } else if c[0] == NEWLINE {
        seq![cur] + split_acc(c.skip(1), Seq::empty())
    } else {
        split_acc(c.skip(1), cur.push(c[0]))
    }
}

/// The lines of a log, oldest first.
pub open spec fn line_seqs(c: Seq<u8>) -> Seq<Seq<u8>> {
    split_acc(c, Seq::empty())
}

/// A log every line of which was written whole: empty, or newline-final.
pub open spec fn terminated(c: Seq<u8>) -> bool {
    c.len() == 0 || c[c.len() - 1] == NEWLINE
}

/// The lines of what a read of the log returned; a file that could not be
/// read counts as having no lines, as the broker treats it.
pub open spec fn content_lines(content: Option<Seq<u8>>) -> Seq<Seq<u8>> {
    match content {
        Some(c) => line_seqs(c),
        None => Seq::empty(),
    }
}

/// The byte view of an optional buffer.
pub open spec fn opt_bytes(content: Option<Vec<u8>>) -> Option<Seq<u8>> {
    match content {
        Some(c) => Some(c@),
        None => None,
    }
}

/// A log has at most one line per byte.
pub proof fn lemma_split_count(c: Seq<u8>, cur: Seq<u8>)
    ensures
        split_acc(c, cur).len() <= c.len() + if cur.len() > 0 { 1int } else { 0int },
    decreases c.len(),
{
    if c.len() > 0 {
        if c[0] == NEWLINE {
            lemma_split_count(c.skip(1), Seq::empty());
        } else {
            lemma_split_count(c.skip(1), cur.push(c[0]));
        }
    }
}

/// A newline-free line followed by its newline splits off as one whole
/// line, whatever partial line and remainder surround it.
pub proof fn lemma_split_line(l: Seq<u8>, rest: Seq<u8>, cur: Seq<u8>)
    requires
        forall|i: int| 0 <= i < l.len() ==> l[i] != NEWLINE,
    ensures
        split_acc(l + seq![NEWLINE] + rest, cur) == seq![cur + l] + split_acc(rest, Seq::empty()),
    decreases l.len(),
{
    let whole = l + seq![NEWLINE] + rest;
    if l.len() == 0 {
        assert(whole[0] == NEWLINE);
        assert(whole.skip(1) =~= rest);
        assert(cur + l =~= cur);
    } else {
        assert(whole[0] == l[0]);
        assert(whole.skip(1) =~= l.skip(1) + seq![NEWLINE] + rest);
        lemma_split_line(l.skip(1), rest, cur.push(l[0]));
        assert(cur.push(l[0]) + l.skip(1) =~= cur + l);
    }
}

/// Splitting distributes over a terminated prefix: the lines of the prefix
/// come first, then the lines of the remainder.
pub proof fn lemma_split_terminated(c: Seq<u8>, rest: Seq<u8>, cur: Seq<u8>)
    requires
        c.len() > 0,
        terminated(c),
    ensures
        split_acc(c + rest, cur) == split_acc(c, cur) + split_acc(rest, Seq::empty()),
    decreases c.len(),
{
    assert((c + rest)[0] == c[0]);
    assert((c + rest).skip(1) =~= c.skip(1) + rest);
    if c[0] == NEWLINE {
        if c.len() == 1 {
            assert(c.skip(1) =~= Seq::<u8>::empty());
            assert(c.skip(1) + rest =~= rest);
            assert(split_acc(c, cur) =~= seq![cur]);
            assert(split_acc(c + rest, cur)
                =~= split_acc(c, cur) + split_acc(rest, Seq::empty()));
        } else {
            assert(c.skip(1)[c.skip(1).len() - 1] == c[c.len() - 1]);
            lemma_split_terminated(c.skip(1), rest, Seq::empty());
            assert(seq![cur] + (split_acc(c.skip(1), Seq::empty()) + split_acc(rest, Seq::empty()))
                =~= (seq![cur] + split_acc(c.skip(1), Seq::empty())) + split_acc(rest, Seq::empty()));
        }
    } else {
        assert(c.len() > 1);
        assert(c.skip(1)[c.skip(1).len() - 1] == c[c.len() - 1]);
        lemma_split_terminated(c.skip(1), rest, cur.push(c[0]));
    }
}

/// Appending one encoded payload and its newline to a terminated log adds
/// exactly one line at the tail and keeps the log terminated.
pub proof fn lemma_lines_append(c: Seq<u8>, l: Seq<u8>)
    requires
        terminated(c),
        forall|i: int| 0 <= i < l.len() ==> l[i] != NEWLINE,
    ensures
        line_seqs(c + l.push(NEWLINE)) == line_seqs(c).push(l),
        terminated(c + l.push(NEWLINE)),
{
    assert(l.push(NEWLINE) =~= l + seq![NEWLINE]);
    assert((c + l.push(NEWLINE))[(c + l.push(NEWLINE)).len() - 1] == NEWLINE);
    if c.len() == 0 {
        assert(c + l.push(NEWLINE) =~= l + seq![NEWLINE] + Seq::<u8>::empty());
        lemma_split_line(l, Seq::empty(), Seq::empty());
        assert(Seq::<u8>::empty() + l =~= l);
        assert(seq![l] + split_acc(Seq::<u8>::empty(), Seq::<u8>::empty())
            =~= line_seqs(c).push(l));
    } else {
        lemma_split_terminated(c, l.push(NEWLINE), Seq::empty());
        assert(l.push(NEWLINE) =~= l + seq![NEWLINE] + Seq::<u8>::empty());
        lemma_split_line(l, Seq::empty(), Seq::empty());
        assert(Seq::<u8>::empty() + l =~= l);
        assert(line_seqs(c) + seq![l] =~= line_seqs(c).push(l));
        assert(line_seqs(c + l.push(NEWLINE)) == line_seqs(c).push(l));
    }
}

/// Split the log into its lines.
pub fn split_lines(content: &Vec<u8>) -> (lines: Vec<Vec<u8>>)
    ensures
        payload_views(lines@) == line_seqs(content@),
{
    let mut lines: Vec<Vec<u8>> = Vec::new();
    let mut cur: Vec<u8> = Vec::new();
    let mut i: usize = 0;
    proof {
        assert(content@.skip(0) =~= content@);
        assert(payload_views(lines@) + split_acc(content@, cur@) =~= line_seqs(content@));
    }
    while i < content.len()
        invariant
            0 <= i <= content@.len(),
            line_seqs(content@) == payload_views(lines@) + split_acc(content@.skip(i as int), cur@),
        decreases content@.len() - i,
    {
        let b = content[i];
        proof {
            assert(content@.skip(i as int)[0] == content@[i as int]);
            assert(content@.skip(i as int).skip(1) =~= content@.skip(i as int + 1));
        }
        if b == NEWLINE {
            let ghost done = lines@;
            let ghost line = cur@;
            lines.push(cur);
            cur = Vec::new();
            proof {
                assert(payload_views(lines@) =~= payload_views(done).push(line));
                assert(payload_views(done) + split_acc(content@.skip(i as int), line)
                    =~= payload_views(lines@) + split_acc(content@.skip(i as int + 1), cur@));
            }
        } else {
            cur.push(b);
        }
        i = i + 1;
    }
    proof {
        assert(content@.skip(content@.len() as int) =~= Seq::<u8>::empty());
    }
    if cur.len() > 0 {
        let ghost done = lines@;
        let ghost line = cur@;
        lines.push(cur);
        proof {
            assert(payload_views(lines@) =~= payload_views(done).push(line));
            assert(payload_views(lines@) =~= line_seqs(content@));
        }
    } else {
        proof {
            assert(payload_views(lines@) =~= line_seqs(content@));
        }
    }
    lines
}

/// The queue length LENGTH reports: lines on the log minus the cursor. A
/// missing or unreadable log counts zero lines; the cursor is subtracted
/// either way, as the broker does.
pub fn persistent_length(content: &Option<Vec<u8>>, cursor: u64) -> (r: i64)
    requires
        *content matches Some(c) ==> c@.len() <= i64::MAX as int,
        cursor <= i64::MAX as u64,
    ensures
        r == content_lines(opt_bytes(*content)).len() - cursor,
{
    let total: i64 = match content {
        Some(c) => {
            let lines = split_lines(c);
            proof {
                lemma_split_count(c@, Seq::empty());
            }
            lines.len() as i64
        }
        None => 0,
    };
    total - (cursor as i64)
}

/// What an ENQUEUE appends and reports: the payload's log line, and the
/// prior length plus one.
pub struct EnqueuePlan {
    pub line: Vec<u8>,
    pub new_length: i64,
}

/// Plan an ENQUEUE from a snapshot of the two files. The caller appends
/// `line` to the log and reports `new_length`; appending to a terminated
/// log adds exactly the encoded payload as one new line.
pub fn enqueue_plan(content: &Option<Vec<u8>>, cursor: u64, data: &Vec<u8>) -> (p: EnqueuePlan)
    requires
        *content matches Some(c) ==> c@.len() + 1 <= i64::MAX as int,
        cursor <= i64::MAX as u64,
    ensures
        p.line@ == b64_of(data@).push(NEWLINE),
        p.new_length == content_lines(opt_bytes(*content)).len() - cursor + 1,
        *content matches Some(c) ==> (terminated(c@) ==> ({
            &&& line_seqs(c@ + p.line@) == line_seqs(c@).push(b64_of(data@))
            &&& terminated(c@ + p.line@)
        })),
{
    let prior = persistent_length(content, cursor);
    let mut line = encode(data);
    line.push(NEWLINE);
    proof {
        match content {
            Some(c) => {
                lemma_split_count(c@, Seq::empty());
                if terminated(c@) {
                    lemma_lines_append(c@, b64_of(data@));
                }
            }
            None => {}
        }
    }
    EnqueuePlan { line, new_length: prior + 1 }
}

/// What a DEQUEUE does next, planned from a snapshot of the two files.
pub enum DequeueStep {
    /// Hand this payload to the consumer and append one byte to the cursor
    /// file.
    Deliver(Vec<u8>),
    /// The log is fully drained: truncate it, remove the cursor file, then
    /// park the consumer.
    CompactThenPark,
    /// Nothing to deliver (or the line at the cursor cannot be decoded, or
    /// the log cannot be read): park the consumer; the cursor stays put.
    Park,
}

/// Plan a DEQUEUE: deliver the decoded line at the cursor when there is
/// one; compact when the log has lines but all are consumed; otherwise
/// park. A line that is no encoding parks without advancing the cursor.
pub fn dequeue_step(content: &Option<Vec<u8>>, cursor: u64) -> (s: DequeueStep)
    ensures
        ({
            let lines = content_lines(opt_bytes(*content));
            let k = cursor as int;
            &&& (k < lines.len() && is_encoding(lines[k]) ==> ({
                &&& s matches DequeueStep::Deliver(p)
                &&& lines[k] == b64_of(p@)
                &&& forall|b: Seq<u8>| lines[k] == b64_of(b) ==> b == p@
            }))
            &&& (k < lines.len() && !is_encoding(lines[k]) ==> s is Park)
            &&& (k >= lines.len() && lines.len() > 0 && k > 0 ==> s is CompactThenPark)
            &&& (k >= lines.len() && !(lines.len() > 0 && k > 0) ==> s is Park)
        }),
{
    match content {
        None => DequeueStep::Park,
        Some(c) => {
            let lines = split_lines(c);
            if cursor < lines.len() as u64 {
                let idx = cursor as usize;
                match decode(&lines[idx]) {
                    Some(p) => DequeueStep::Deliver(p),
                    None => DequeueStep::Park,
                }
            } else if lines.len() > 0 && cursor > 0 {
                DequeueStep::CompactThenPark
            } else {
                DequeueStep::Park
            }
        }
    }
}

/// The abstract state of a persistent queue: the payloads its log lines
/// encode, oldest first, and the cursor of already-consumed lines.
#[verifier::ext_equal]
pub struct LogModel {
    pub entries: Seq<Seq<u8>>,
    pub cursor: nat,
}

/// The state after compaction, and of a queue nothing has touched.
pub open spec fn log_clear() -> LogModel {
    LogModel { entries: Seq::empty(), cursor: 0 }
}

/// The cursor never runs past the log.
pub open spec fn log_wf(m: LogModel) -> bool {
    m.cursor <= m.entries.len()
}

/// What LENGTH reports of this state.
pub open spec fn log_length(m: LogModel) -> int {
    m.entries.len() - m.cursor
}

/// ENQUEUE appends one payload to the log.
pub open spec fn log_enqueue(m: LogModel, p: Seq<u8>) -> LogModel {
    LogModel { entries: m.entries.push(p), cursor: m.cursor }
}

/// What a DEQUEUE hands out.
pub enum LogOutcome {
    /// The payload at the cursor; the cursor advances past it.
    Delivered(Seq<u8>),
    /// The log had lines and all were consumed: both files go.
    Compacted,
    /// Nothing stored and nothing to reclaim; the consumer parks.
    Parked,
}

/// DEQUEUE: consume the entry at the cursor, or compact a fully drained
/// log, or leave the state alone and park.
pub open spec fn log_dequeue(m: LogModel) -> LogModel {
    if m.cursor < m.entries.len() {
        LogModel { entries: m.entries, cursor: m.cursor + 1 }
    } else if m.entries.len() > 0 {
        log_clear()
    } else {
        m
    }
}

/// The outcome of the same DEQUEUE.
pub open spec fn log_dequeue_out(m: LogModel) -> LogOutcome {
    if m.cursor < m.entries.len() {
        LogOutcome::Delivered(m.entries[m.cursor as int])
    } else if m.entries.len() > 0 {
        LogOutcome::Compacted
    } else {
        LogOutcome::Parked
    }
}

/// PURGE: both files go.
pub open spec fn log_purge(m: LogModel) -> LogModel {
    log_clear()
}

/// One step of a run of queue operations.
pub enum LogOp {
    Enqueue(Seq<u8>),
    Dequeue,
}

/// Apply one operation.
pub open spec fn log_step(m: LogModel, op: LogOp) -> LogModel {
    match op {
        LogOp::Enqueue(p) => log_enqueue(m, p),
        LogOp::Dequeue => log_dequeue(m),
    }
}

/// Apply a run of operations, oldest first.
pub open spec fn log_run(m: LogModel, ops: Seq<LogOp>) -> LogModel
    decreases ops.len(),
{
    if ops.len() == 0 {
        m
    } else {
        log_run(log_step(m, ops[0]), ops.skip(1))
    }
}

/// How many operations of a run are enqueues.
pub open spec fn log_enqueue_count(ops: Seq<LogOp>) -> int
    decreases ops.len(),
{
    if ops.len() == 0 {
        0
    } else {
        (if ops[0] is Enqueue { 1int } else { 0int }) + log_enqueue_count(ops.skip(1))
    }
}

/// How many dequeues of a run deliver a payload, i.e. succeed.
pub open spec fn log_delivered_count(m: LogModel, ops: Seq<LogOp>) -> int
    decreases ops.len(),
{
    if ops.len() == 0 {
        0
    } else {
        (if ops[0] is Dequeue && log_dequeue_out(m) is Delivered { 1int } else { 0int })
            + log_delivered_count(log_step(m, ops[0]), ops.skip(1))
    }
}

/// Persistent length balance: across any run of ENQUEUEs and DEQUEUEs, the
/// reported length is the starting length plus the enqueues minus the
/// dequeues that delivered; from an untouched queue, length is exactly
/// enqueues succeeded minus dequeues succeeded.
pub proof fn lemma_log_length_balance(m: LogModel, ops: Seq<LogOp>)
    requires
        log_wf(m),
    ensures
        log_wf(log_run(m, ops)),
        log_length(log_run(m, ops)) == log_length(m) + log_enqueue_count(ops)
            - log_delivered_count(m, ops),
    decreases ops.len(),
{
    if ops.len() > 0 {
        lemma_log_length_balance(log_step(m, ops[0]), ops.skip(1));
    }
}

/// Compaction: a dequeue that finds every line consumed leaves an empty
/// log with no cursor, the length stays zero, and the next enqueue makes
/// it one — the state after compaction is exactly the untouched state.
pub proof fn lemma_log_compaction(m: LogModel, p: Seq<u8>)
    requires
        log_wf(m),
        log_length(m) == 0,
        m.entries.len() > 0,
    ensures
        log_dequeue_out(m) is Compacted,
        log_dequeue(m) == log_clear(),
        log_length(log_dequeue(m)) == 0,
        log_length(log_enqueue(log_dequeue(m), p)) == 1,
{
}

/// The two files stand for a model state when the log's lines encode the
/// model's entries in order and the cursor file's size is its cursor.
pub open spec fn log_encodes(content: Option<Seq<u8>>, cursor: nat, m: LogModel) -> bool {
    &&& content_lines(content).len() == m.entries.len()
    &&& forall|i: int| 0 <= i < m.entries.len() ==> content_lines(content)[i] == b64_of(m.entries[i])
    &&& cursor == m.cursor
}

/// Appending an enqueue's line — which `enqueue_plan` guarantees adds
/// exactly the payload's encoding as one new line — carries the files from
/// standing for a state to standing for that state with the payload
/// appended.
pub proof fn lemma_log_enqueue_encodes(content: Seq<u8>, line: Seq<u8>, m: LogModel, p: Seq<u8>)
    ensures
        (log_encodes(Some(content), m.cursor, m)
            && line_seqs(content + line) == line_seqs(content).push(b64_of(p)))
        ==> log_encodes(Some(content + line), log_enqueue(m, p).cursor, log_enqueue(m, p)),
{
    if log_encodes(Some(content), m.cursor, m)
        && line_seqs(content + line) == line_seqs(content).push(b64_of(p)) {
        let m2 = log_enqueue(m, p);
        assert(forall|i: int| 0 <= i < m2.entries.len()
            ==> content_lines(Some(content + line))[i] == b64_of(#[trigger] m2.entries[i]));
    }
}

/// A delivery advances only the cursor, so the files with one more cursor
/// byte stand for the advanced state; and after compaction the two empty
/// files stand for the untouched state.
pub proof fn lemma_log_dequeue_encodes(content: Option<Seq<u8>>, m: LogModel)
    ensures
        (log_encodes(content, m.cursor, m) && m.cursor < m.entries.len())
            ==> log_encodes(content, m.cursor + 1, log_dequeue(m)),
        log_encodes(Some(Seq::empty()), 0, log_clear()),
{
}

/// Restart durability: the queue's state is a function of the two files
/// alone, so a broker that starts over the same files reports the same
/// length, and the line at the cursor — the oldest undelivered payload —
/// decodes, so the next dequeue delivers it.
pub proof fn lemma_log_restart(content: Option<Seq<u8>>, cursor: nat, m: LogModel)
    ensures
        log_encodes(content, cursor, m) && log_wf(m) ==> ({
            &&& content_lines(content).len() - cursor == log_length(m)
            &&& m.cursor < m.entries.len() ==> ({
                &&& is_encoding(content_lines(content)[cursor as int])
                &&& log_dequeue_out(m) == LogOutcome::Delivered(m.entries[cursor as int])
            })
        }),
{
    if log_encodes(content, cursor, m) && log_wf(m) && m.cursor < m.entries.len() {
        let line = content_lines(content)[cursor as int];
        assert(line == b64_of(m.entries[cursor as int]));
        assert(is_encoding(line));
    }
}

} // verus!
