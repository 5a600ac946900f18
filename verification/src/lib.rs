//! Transport core for a tick-based client--server networking runtime.
//!
//! The crate moves application messages between peers over an unreliable
//! datagram transport. Logical channels (unreliable, sequenced, reliable)
//! are multiplexed over one datagram stream per peer; messages are framed
//! into fixed-MTU packets, acknowledged through a sliding-window ack
//! header, resent on loss, and reordered or deduplicated at the receiver
//! according to the channel's policy.

pub mod acks;
pub mod message;
pub mod message_manager;
pub mod packet;
pub mod packet_manager;
pub mod receivers;
pub mod registry;
pub mod replication;
pub mod senders;
pub mod server_core;
pub mod sync;
pub mod wrapping;
