//! A verified state replica for a peer-to-peer cooperative network.
//!
//! The crate models the node's local copy of the network state: peers with
//! reputations, mutual-credit relationships, messages, and a versioned
//! key/value table. Concurrent updates arriving from untrusted peers are
//! merged deterministically (last-writer-wins by timestamp, grow-only
//! counters, version-numbered blobs), a bounded in-memory cache is kept in
//! lockstep with the durable tables, and dashboard events fan out over a
//! bounded broadcast with slow-consumer drop semantics.

pub mod cache;
pub mod classify;
pub mod clock;
pub mod fanout;
pub mod node;
pub mod order;
pub mod outside;
pub mod rows;
pub mod store;
pub mod sync;
pub mod types;
pub mod update;

