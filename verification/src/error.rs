//! The errors that the library reports.

use vstd::prelude::*;

verus! {

/// `hex::FromHexError`, carried inside [`BError::HexDecode`].
#[verifier::external_type_specification]
#[verifier::external_body]
pub struct ExFromHexError(hex::FromHexError);

/// Everything that can go wrong while reading bencode, torrent files and
/// peer messages, or while running a session.
#[derive(Debug)]
pub enum BError {
    BencodeParse(String),
    BencodeUnexpectedEof,
    BencodeExpectedInteger(u8),
    BencodeInvalidLength,
    BencodeMissingColon,
    InvalidTorrent(String),
    MissingInfoDict,
    MissingPieces,
    InvalidPiecesLength(usize),
    NoFiles,
    InvalidPieceLength(i64),
    InvalidInfoHash(String),
    InvalidPeerAddr(String),
    HexDecode(hex::FromHexError),
    Network(String),
    HandshakeFailed(String),
    InvalidMessage(String),
    Session(String),
}

/// An error whose message is `msg`.
pub fn bencode_parse_error(msg: &str) -> (e: BError)
    ensures
        e matches BError::BencodeParse(m) && m@ == msg@,
{
    BError::BencodeParse(msg.to_string())
}

} // verus!
