//! The peer wire protocol: messages, handshakes, and what is known of each
//! connected peer.

pub mod message;
pub mod connection;
pub mod manager;
pub mod handshake;
pub mod event_loop;
pub mod connection_manager;
