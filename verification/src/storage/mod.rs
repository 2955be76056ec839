//! Where the pieces of a torrent lie in its files, and the bookkeeping of
//! the pieces written.

pub mod assembler;
pub mod piece_store;
