//! A verified connected-peer tracker for a minimal peer-to-peer node.
//!
//! The node delegates transport negotiation, handshakes and multiplexing to a
//! networking library; its own logic is the in-memory registry of currently
//! connected peers. This crate holds that registry: lifecycle events
//! (connected / disconnected) are folded into a set of peer identifiers, and
//! snapshots report the membership. The contracts pin the membership down
//! exactly: after any event sequence the set holds precisely the identifiers
//! whose most recent event was a connect.

pub mod peer;
pub mod tracker;
pub mod node;
