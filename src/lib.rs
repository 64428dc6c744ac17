//! Host-side transport core for exchanging messages with peers over a link whose
//! packets are far smaller than the messages: envelopes, per-peer fragmentation
//! and reassembly, and the decisions of the session that serves every peer.
pub mod api;
pub mod comm_types;
pub mod envelope;
pub mod error;
pub mod mobile_buffer;
pub mod peer_table;
pub mod publisher;
pub mod session;
