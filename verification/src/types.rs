//! The small value types of the protocol: hashes, peer identities, piece
//! indexes and block requests.

use vstd::prelude::*;
#[allow(unused_imports)]
use vstd::utf8::*;
#[allow(unused_imports)]
use vstd::string::StringSliceAdditionalSpecFns;

use crate::error::BError;
use crate::bencode::utf8_text;
use crate::extern_calls::{hex_decode, hex_decode_spec, hex_encode, hex_encode_spec, random_bytes};
use crate::decimal::nat_digits;
use crate::text::{ascii_text, decimal_string, hex_lower, lemma_ascii_text, string_from_utf8};

verus! {

/// The length of a SHA-1 digest.
pub const SHA1_LEN: usize = 20;

/// The length of a block, the unit in which pieces are requested: 16 KiB.
pub const BLOCK_LEN: u32 = 16384;

/// The protocol name that opens a handshake: "BitTorrent protocol".
pub const PROTOCOL_STR: &'static [u8; 19] = &[
    66, 105, 116, 84, 111, 114, 114, 101, 110, 116, 32, 112, 114, 111, 116, 111, 99, 111, 108,
];

/// The number of reserved bytes in a handshake.
pub const RESERVED_LEN: usize = 8;

/// The prefix of the peer ids that this client makes: "-RB0001-".
pub const PEER_ID_PREFIX: [u8; 8] = [45, 82, 66, 48, 48, 48, 49, 45];

/// Identifies a torrent: the SHA-1 digest of its bencoded info dictionary.
#[derive(Clone, Copy, PartialEq, Eq, Hash, Debug)]
pub struct InfoHash(pub [u8; 20]);

impl From<[u8; 20]> for InfoHash {
    fn from(bytes: [u8; 20]) -> (r: Self)
        ensures
            r.0@ == bytes@,
    {
        InfoHash(bytes)
    }
}

impl vstd::std_specs::convert::FromSpecImpl<[u8; 20]> for InfoHash {
    open spec fn obeys_from_spec() -> bool {
        true
    }

    open spec fn from_spec(bytes: [u8; 20]) -> InfoHash {
        InfoHash(bytes)
    }
}

/// The 20 bytes of `b`, as an array.
pub fn array20(b: &[u8]) -> (r: [u8; 20])
    requires
        b@.len() == 20,
    ensures
        r@ == b@,
{
    let r = [
        b[0], b[1], b[2], b[3], b[4], b[5], b[6], b[7], b[8], b[9], b[10], b[11], b[12], b[13],
        b[14], b[15], b[16], b[17], b[18], b[19],
    ];
    assert(r@ =~= b@);
    r
}

/// Whether two 20-byte identifiers are the same.
pub fn same_20(a: &[u8; 20], b: &[u8; 20]) -> (r: bool)
    ensures
        r == (a@ == b@),
{
    let mut i: usize = 0;
    while i < 20
        invariant
            i <= 20,
            a@.len() == 20,
            b@.len() == 20,
            forall|j: int| 0 <= j < i ==> a@[j] == b@[j],
        decreases 20 - i,
    {
        if a[i] != b[i] {
            return false;
        }
        i = i + 1;
    }
    assert(a@ =~= b@);
    true
}

impl InfoHash {
    pub fn from_bytes(bytes: [u8; 20]) -> (r: Self)
        ensures
            r.0@ == bytes@,
    {
        Self(bytes)
    }

    /// Reads 40 hex digits (either case).
    pub fn from_hex(hex: &str) -> (r: Result<Self, BError>)
        ensures
            match hex_decode_spec(hex.spec_bytes()) {
                Some(b) => if b.len() == 20 {
                    r matches Ok(h) && h.0@ == b
                } else {
                    r matches Err(e) && e is InvalidInfoHash
                },
                None => r matches Err(e) && e is HexDecode,
            },
    {
        let bytes = match hex_decode(hex.as_bytes()) {
            Ok(b) => b,
            Err(e) => {
                return Err(BError::HexDecode(e));
            },
        };
        if bytes.len() != SHA1_LEN {
            return Err(BError::InvalidInfoHash("expected 40 hex chars (20 bytes)".to_string()));
        }
        Ok(Self(array20(bytes.as_slice())))
    }

    pub fn as_bytes(&self) -> (r: &[u8; 20])
        ensures
            r@ == self.0@,
    {
        &self.0
    }

    pub fn as_slice(&self) -> (r: &[u8])
        ensures
            r@ == self.0@,
    {
        self.0.as_slice()
    }

    /// Whether two hashes are the same.
    pub fn same(&self, other: &InfoHash) -> (r: bool)
        ensures
            r == (self.0@ == other.0@),
    {
        same_20(&self.0, &other.0)
    }

    /// The hash in lowercase hex, as it is displayed.
    pub fn display_string(&self) -> (r: String)
        ensures
            r@ == hex_encode_spec(self.0@).map_values(|c: u8| c as char),
    {
        hex_encode(self.0.as_slice())
    }

    /// The first two bytes in lowercase hex, then "...".
    pub fn short_hex(&self) -> (r: String)
        ensures
            r@ == ascii_text(hex_encode_spec(self.0@.subrange(0, 2)) + seq![46u8, 46u8, 46u8]),
    {
        let mut out: Vec<u8> = Vec::new();
        let (h0, l0) = hex_lower(self.0[0]);
        let (h1, l1) = hex_lower(self.0[1]);
        out.push(h0);
        out.push(l0);
        out.push(h1);
        out.push(l1);
        out.push(46);
        out.push(46);
        out.push(46);
        let ghost text = hex_encode_spec(self.0@.subrange(0, 2)) + seq![46u8, 46u8, 46u8];
        proof {
            let p = self.0@.subrange(0, 2);
            assert(p.drop_first() =~= seq![self.0@[1]]);
            assert(p.drop_first().drop_first() =~= Seq::<u8>::empty());
            assert(hex_encode_spec(p.drop_first().drop_first()) =~= Seq::<u8>::empty());
            assert(hex_encode_spec(p.drop_first()) =~= seq![h1, l1]);
            assert(hex_encode_spec(p) =~= seq![h0, l0, h1, l1]);
            assert(out@ =~= text);
            lemma_ascii_text(out@);
        }
        match string_from_utf8(out) {
            Some(s) => s,
            None => String::new(),
        }
    }
}

/// Identifies a peer.
#[derive(Clone, Copy, PartialEq, Eq, Hash, Debug)]
pub struct PeerId(pub [u8; 20]);

impl PeerId {
    /// "-RB0001-" followed by 12 random bytes.
    pub fn new_random() -> (r: Self)
        ensures
            r.0@.subrange(0, 8) == PEER_ID_PREFIX@,
    {
        let tail = random_bytes(12);
        let p = PEER_ID_PREFIX;
        let id = [
            p[0], p[1], p[2], p[3], p[4], p[5], p[6], p[7], tail[0], tail[1], tail[2], tail[3],
            tail[4], tail[5], tail[6], tail[7], tail[8], tail[9], tail[10], tail[11],
        ];
        assert(id@.subrange(0, 8) =~= PEER_ID_PREFIX@);
        PeerId(id)
    }

    pub fn as_slice(&self) -> (r: &[u8])
        ensures
            r@ == self.0@,
    {
        self.0.as_slice()
    }

    /// The id as text where it is valid UTF-8, otherwise in lowercase hex.
    pub fn display_string(&self) -> (r: String)
        ensures
            r@ == match utf8_text(self.0@) {
                Some(t) => t,
                None => hex_encode_spec(self.0@).map_values(|c: u8| c as char),
            },
    {
        match string_from_utf8(crate::bencode::copy_bytes(self.0.as_slice())) {
            Some(s) => s,
            None => hex_encode(self.0.as_slice()),
        }
    }

    /// Whether two ids are the same.
    pub fn same(&self, other: &PeerId) -> (r: bool)
        ensures
            r == (self.0@ == other.0@),
    {
        same_20(&self.0, &other.0)
    }
}

/// The 0-based index of a piece.
#[derive(Clone, Copy, PartialEq, Eq, PartialOrd, Ord, Hash, Debug)]
pub struct PieceIndex(pub u32);

impl PieceIndex {
    pub fn as_usize(&self) -> (r: usize)
        ensures
            r == self.0,
    {
        self.0 as usize
    }

    /// The index in decimal, as it is displayed.
    pub fn display_string(&self) -> (r: String)
        ensures
            r@ == ascii_text(nat_digits(self.0 as nat)),
    {
        decimal_string(self.0 as u64)
    }
}

/// Where a block starts inside its piece.
#[derive(Clone, Copy, PartialEq, Eq, Debug)]
pub struct BlockOffset(pub u32);

/// How long a block is, in bytes.
#[derive(Clone, Copy, PartialEq, Eq, Debug)]
pub struct BlockLength(pub u32);

/// A block: its piece, where it starts and how long it is.
#[derive(Clone, Copy, PartialEq, Eq, Debug)]
pub struct BlockRequest {
    pub index: PieceIndex,
    pub begin: BlockOffset,
    pub length: BlockLength,
}

impl BlockRequest {
    pub fn new(index: PieceIndex, begin: BlockOffset, length: BlockLength) -> (r: Self)
        ensures
            r == (BlockRequest { index, begin, length }),
    {
        Self { index, begin, length }
    }
}

/// An IP address: four bytes for IPv4, sixteen for IPv6.
#[derive(Clone, Copy, PartialEq, Eq, Hash, Debug)]
pub enum PeerIp {
    V4([u8; 4]),
    V6([u8; 16]),
}

/// Where a peer listens: its IP address and port.
#[derive(Clone, Copy, PartialEq, Eq, Hash, Debug)]
pub struct PeerAddr {
    pub ip: PeerIp,
    pub port: u16,
}

/// What tells addresses apart: the kind of address (4 or 6), its bytes and
/// the port.
pub open spec fn addr_key(a: PeerAddr) -> (u8, Seq<u8>, u16) {
    match a.ip {
        PeerIp::V4(b) => (4u8, b@, a.port),
        PeerIp::V6(b) => (6u8, b@, a.port),
    }
}

/// The port in two bytes, most significant first.
pub open spec fn port_be(hi: u8, lo: u8) -> u16 {
    (hi as u16 * 256 + lo as u16) as u16
}

fn same_bytes(a: &[u8], b: &[u8]) -> (r: bool)
    ensures
        r == (a@ == b@),
{
    if a.len() != b.len() {
        return false;
    }
    let mut i: usize = 0;
    while i < a.len()
        invariant
            i <= a@.len(),
            a@.len() == b@.len(),
            forall|j: int| 0 <= j < i ==> a@[j] == b@[j],
        decreases a@.len() - i,
    {
        if a[i] != b[i] {
            return false;
        }
        i = i + 1;
    }
    assert(a@ =~= b@);
    true
}

impl PeerAddr {
    pub fn new(ip: PeerIp, port: u16) -> (r: Self)
        ensures
            r == (PeerAddr { ip, port }),
    {
        Self { ip, port }
    }

    /// Reads a compact IPv4 peer: four address bytes, then the port, most
    /// significant byte first.
    pub fn from_compact_v4(bytes: &[u8]) -> (r: Result<Self, BError>)
        ensures
            bytes@.len() == 6 ==> (r matches Ok(a) && a.ip matches PeerIp::V4(b) && b@ == bytes@.subrange(0, 4)
                && a.port == port_be(bytes@[4], bytes@[5])),
            bytes@.len() != 6 ==> (r matches Err(e) && e is InvalidPeerAddr),
    {
        if bytes.len() != 6 {
            return Err(BError::InvalidPeerAddr("compact peer must be 6 bytes".to_string()));
        }
        let ip = [bytes[0], bytes[1], bytes[2], bytes[3]];
        assert(ip@ =~= bytes@.subrange(0, 4));
        let port = (bytes[4] as u16) * 256 + (bytes[5] as u16);
        Ok(Self { ip: PeerIp::V4(ip), port })
    }

    /// Reads a compact IPv6 peer: sixteen address bytes, then the port,
    /// most significant byte first.
    pub fn from_compact_v6(bytes: &[u8]) -> (r: Result<Self, BError>)
        ensures
            bytes@.len() == 18 ==> (r matches Ok(a) && a.ip matches PeerIp::V6(b) && b@ == bytes@.subrange(0, 16)
                && a.port == port_be(bytes@[16], bytes@[17])),
            bytes@.len() != 18 ==> (r matches Err(e) && e is InvalidPeerAddr),
    {
        if bytes.len() != 18 {
            return Err(BError::InvalidPeerAddr("compact IPv6 peer must be 18 bytes".to_string()));
        }
        let ip = [
            bytes[0], bytes[1], bytes[2], bytes[3], bytes[4], bytes[5], bytes[6], bytes[7], bytes[8],
            bytes[9], bytes[10], bytes[11], bytes[12], bytes[13], bytes[14], bytes[15],
        ];
        assert(ip@ =~= bytes@.subrange(0, 16));
        let port = (bytes[16] as u16) * 256 + (bytes[17] as u16);
        Ok(Self { ip: PeerIp::V6(ip), port })
    }

    /// Whether two addresses are the same.
    pub fn same(&self, other: &PeerAddr) -> (r: bool)
        ensures
            r == (addr_key(*self) == addr_key(*other)),
    {
        if self.port != other.port {
            return false;
        }
        match (&self.ip, &other.ip) {
            (PeerIp::V4(a), PeerIp::V4(b)) => same_bytes(a.as_slice(), b.as_slice()),
            (PeerIp::V6(a), PeerIp::V6(b)) => same_bytes(a.as_slice(), b.as_slice()),
            _ => false,
        }
    }

    /// A peer address from the DHT's answer, which gives the address as text
    /// (read into `ip`, `None` if it is not an address) and the port as a
    /// 32-bit number: kept if the address was read and the port is a port
    /// other than 0.
    pub fn from_dht_peer(ip: Option<PeerIp>, port: u32) -> (r: Option<Self>)
        ensures
            r == match ip {
                Some(a) => if port == 0 || port > 65535 {
                    None
                } else {
                    Some(PeerAddr { ip: a, port: port as u16 })
                },
                None => None,
            },
    {
        let a = match ip {
            Some(a) => a,
            None => {
                return None;
            },
        };
        if port == 0 || port > 65535 {
            return None;
        }
        Some(PeerAddr { ip: a, port: port as u16 })
    }
}

} // verus!
