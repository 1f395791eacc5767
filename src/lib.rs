//! A cluster node that keeps convergent replicated state (a grow-only counter,
//! a key-value snapshot and a replicated log), relays it along a known
//! topology, delivers outbound envelopes reliably, and allocates log offsets
//! through an external linearizable key-value service.

pub mod message;
pub mod message_queue;
pub mod node;
pub mod fanout;
pub mod link_kv;
pub mod log;
pub mod node_state;
