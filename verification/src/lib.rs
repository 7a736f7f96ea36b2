//! Verified cores of a family of distributed coordination algorithms:
//! epidemic (gossip) broadcast, a grow-only counter built from per-node
//! CAS-protected buckets, a replicated append-only commit log (one variant
//! keeping state on a single authoritative node, one allocating offsets
//! through a shared linearizable store), and a best-effort replicated
//! transactional key-value store.
//!
//! Each module holds the decision and bookkeeping logic of one algorithm as
//! verified functions from plain values to plain values. The asynchronous
//! substrate that frames messages, performs RPC, and talks to the external
//! store drives these functions from outside the library.

pub mod commit_log;
pub mod counter;
pub mod gossip;
pub mod membership;
pub mod shared_log;
pub mod txn_store;
