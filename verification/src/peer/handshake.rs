//! The handshake that opens a peer connection: the protocol name, eight
//! reserved bytes, the torrent's info hash and the sender's peer id.

use vstd::prelude::*;

use crate::bencode::append_bytes;
use crate::error::BError;
use crate::text::{decimal_string, decimal_text, string_from_utf8_lossy, utf8_lossy_spec};
use crate::types::{array20, InfoHash, PeerId, PROTOCOL_STR};

verus! {

/// The length of a handshake on the wire.
pub const HANDSHAKE_LEN: usize = 68;

/// A handshake.
#[derive(Clone, Debug)]
pub struct Handshake {
    pub info_hash: InfoHash,
    pub peer_id: PeerId,
    pub reserved: [u8; 8],
}

/// The wire form of a handshake.
pub open spec fn handshake_bytes(h: Handshake) -> Seq<u8> {
    seq![19u8] + PROTOCOL_STR@ + h.reserved@ + h.info_hash.0@ + h.peer_id.0@
}

/// The peer id in a received handshake, if it speaks this protocol for
/// the torrent `expected`.
pub open spec fn reply_spec(buf: Seq<u8>, expected: Seq<u8>) -> Option<Seq<u8>> {
    if buf[0] == 19 && buf.subrange(1, 20) == PROTOCOL_STR@ && buf.subrange(28, 48) == expected {
        Some(buf.subrange(48, 68))
    } else {
        None
    }
}

/// Why a received handshake is refused, checked in this order: the length
/// of the protocol name, the name itself (shown as text), the info hash.
pub open spec fn handshake_failure_text(buf: Seq<u8>, expected: Seq<u8>) -> Seq<char> {
    if buf[0] != 19 {
        "unexpected pstrlen: "@ + decimal_text(buf[0] as nat) + " (expected 19)"@
    } else if buf.subrange(1, 20) != PROTOCOL_STR@ {
        "protocol string mismatch: got '"@ + utf8_lossy_spec(buf.subrange(1, 20)) + "'"@
    } else {
        "info_hash mismatch: peer is serving a different torrent"@
    }
}

fn same_range(buf: &[u8], start: usize, other: &[u8]) -> (r: bool)
    requires
        start + other@.len() <= buf@.len(),
    ensures
        r == (buf@.subrange(start as int, start + other@.len()) == other@),
{
    let mut i: usize = 0;
    while i < other.len()
        invariant
            i <= other@.len(),
            start + other@.len() <= buf@.len(),
            buf@.len() == buf.len(),
            forall|j: int| 0 <= j < i ==> buf@[start + j] == other@[j],
        decreases other@.len() - i,
    {
        if buf[start + i] != other[i] {
            assert(buf@.subrange(start as int, start + other@.len())[i as int] != other@[i as int]);
            return false;
        }
        i = i + 1;
    }
    assert(buf@.subrange(start as int, start + other@.len()) =~= other@);
    true
}

impl Handshake {
    /// A handshake announcing the extension protocol (reserved byte 5, bit
    /// 0x10) and the DHT (reserved byte 7, bit 0x01).
    pub fn new(info_hash: InfoHash, peer_id: PeerId) -> (r: Self)
        ensures
            r.info_hash == info_hash,
            r.peer_id == peer_id,
            r.reserved@ == seq![0u8, 0, 0, 0, 0, 0x10, 0, 0x01],
    {
        let mut reserved = [0u8; 8];
        reserved[5] = reserved[5] | 0x10;
        reserved[7] = reserved[7] | 0x01;
        assert(reserved@ =~= seq![0u8, 0, 0, 0, 0, 0x10, 0, 0x01]) by {
            assert(0u8 | 0x10u8 == 0x10u8) by (bit_vector);
            assert(0u8 | 0x01u8 == 0x01u8) by (bit_vector);
        }
        Self { info_hash, peer_id, reserved }
    }

    /// The 68 bytes that this handshake is sent as.
    pub fn to_bytes(&self) -> (r: Vec<u8>)
        ensures
            r@ == handshake_bytes(*self),
    {
        let mut buf: Vec<u8> = Vec::with_capacity(HANDSHAKE_LEN);
        buf.push(19);
        append_bytes(&mut buf, PROTOCOL_STR.as_slice());
        append_bytes(&mut buf, self.reserved.as_slice());
        append_bytes(&mut buf, self.info_hash.as_slice());
        append_bytes(&mut buf, self.peer_id.as_slice());
        assert(buf@ =~= handshake_bytes(*self));
        buf
    }

    /// Checks the 68 bytes of a received handshake: the protocol name and
    /// the info hash must match; the reserved bytes are not looked at.
    /// Gives the sender's peer id.
    pub fn check_reply(buf: &[u8], expected_info_hash: &InfoHash) -> (r: Result<PeerId, BError>)
        requires
            buf@.len() == HANDSHAKE_LEN,
        ensures
            match reply_spec(buf@, expected_info_hash.0@) {
                Some(id) => r matches Ok(p) && p.0@ == id,
                None => r matches Err(e) && e matches BError::HandshakeFailed(s) && s@
                    == handshake_failure_text(buf@, expected_info_hash.0@),
            },
    {
        if buf[0] != 19 {
            let mut text = "unexpected pstrlen: ".to_string();
            text.append(decimal_string(buf[0] as u64).as_str());
            text.append(" (expected 19)");
            return Err(BError::HandshakeFailed(text));
        }
        if !same_range(buf, 1, PROTOCOL_STR.as_slice()) {
            let got = string_from_utf8_lossy(&buf[1..20]);
            let mut text = "protocol string mismatch: got '".to_string();
            text.append(got.as_str());
            text.append("'");
            return Err(BError::HandshakeFailed(text));
        }
        if !same_range(buf, 28, expected_info_hash.as_slice()) {
            return Err(
                BError::HandshakeFailed(
                    "info_hash mismatch: peer is serving a different torrent".to_string(),
                ),
            );
        }
        let id = array20(&buf[48..68]);
        Ok(PeerId(id))
    }
}

/// A handshake read back is the handshake that was sent: its peer id comes
/// back, for the info hash that it was sent with.
pub proof fn lemma_handshake_roundtrip(h: Handshake)
    ensures
        handshake_bytes(h).len() == HANDSHAKE_LEN,
        reply_spec(handshake_bytes(h), h.info_hash.0@) == Some(h.peer_id.0@),
{
    let b = handshake_bytes(h);
    assert(b.subrange(1, 20) =~= PROTOCOL_STR@);
    assert(b.subrange(28, 48) =~= h.info_hash.0@);
    assert(b.subrange(48, 68) =~= h.peer_id.0@);
}

} // verus!
