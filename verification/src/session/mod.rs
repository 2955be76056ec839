//! What a download or seeding session decides: which pieces to ask for,
//! what to do with each message, and whom to choke.

pub mod peer_map;
pub mod tracker;
pub mod engine;
pub mod availability;
