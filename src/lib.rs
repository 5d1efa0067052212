//! A Kademlia-style distributed hash table: identifiers under the XOR metric,
//! a routing table of bounded buckets, and the message-driven state machine of
//! one peer (lookups, replication, liveness probes).
pub mod id;
pub mod message;
pub mod routing;
pub mod peer;
pub mod prims;
pub mod assoc;
pub mod cli;
