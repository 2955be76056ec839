//! A BitTorrent peer library: bencode, torrent metainfo, the peer wire
//! protocol, piece bookkeeping and the decisions of a download session.

pub mod decimal;
pub mod error;
pub mod text;
pub mod bencode;
pub mod extern_calls;
pub mod types;
pub mod bitfield;
pub mod peer;
pub mod metainfo;
pub mod session;
pub mod storage;
pub mod dht;
