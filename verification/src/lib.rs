//! Pending-request tracking for a DNS resolver transport.
//!
//! The crate keeps the bookkeeping for outstanding DNS queries: it hands out
//! unpredictable 16-bit transaction identifiers, stores the waiting caller's
//! continuation under its identifier, enforces a fixed per-query timeout via
//! a single multiplexed timer deadline, and fails every still-waiting
//! continuation on teardown.

pub mod nsid;
pub mod pending;
