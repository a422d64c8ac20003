//! LiteMQ: a lightweight, multi-queue, single-node message broker core.
//!
//! Producers append opaque byte payloads to a named queue; consumers pop the
//! oldest payload in FIFO order. A consumer that finds its queue empty parks
//! on a one-shot handoff slot, and the next producer hands its payload
//! directly to the oldest live slot. Queues are created on first reference.
//! A queue may also persist to disk as an append-only base-64 log paired with
//! a cursor file; this crate states and verifies the broker's data structures
//! and decision logic, while the surrounding process does the file and
//! network work.

pub mod broker;
pub mod codec;
pub mod handoff;
pub mod persistent;
pub mod queue;
