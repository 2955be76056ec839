use bitswarm::error::BError;
use bitswarm::peer::handshake::Handshake;
use bitswarm::peer::handshake::HANDSHAKE_LEN;
use bitswarm::types::{InfoHash, PeerId, PROTOCOL_STR, RESERVED_LEN};

fn make_info_hash(byte: u8) -> InfoHash {
    InfoHash::from_bytes([byte; 20])
}

#[test]
fn test_handshake_new_reserved_bytes() {
    let h = Handshake::new(make_info_hash(0xAA), PeerId::new_random());
    assert_eq!(h.reserved.len(), RESERVED_LEN);
    assert_eq!(h.reserved[5] & 0x10, 0x10);
    assert_eq!(h.reserved[7] & 0x01, 0x01);
}

#[test]
fn test_handshake_fields() {
    let hash = make_info_hash(0xCC);
    let peer_id = PeerId::new_random();
    let h = Handshake::new(hash, peer_id);
    assert_eq!(h.info_hash, hash);
    assert_eq!(h.peer_id, peer_id);
}

#[test]
fn test_handshake_clone() {
    let h = Handshake::new(make_info_hash(0xDD), PeerId::new_random());
    let h2 = h.clone();
    assert_eq!(h.info_hash, h2.info_hash);
    assert_eq!(h.peer_id, h2.peer_id);
    assert_eq!(h.reserved, h2.reserved);
}

#[test]
fn test_handshake_debug() {
    let h = Handshake::new(make_info_hash(0xEE), PeerId::new_random());
    let s = format!("{:?}", h);
    assert!(s.contains("Handshake"));
}

fn raw_handshake(pstrlen: u8, proto: &[u8], info_hash: &InfoHash, peer_id: &PeerId) -> Vec<u8> {
    let mut buf = Vec::with_capacity(68);
    buf.push(pstrlen);
    buf.extend_from_slice(proto);
    buf.extend_from_slice(&[0u8; RESERVED_LEN]);
    buf.extend_from_slice(info_hash.as_slice());
    buf.extend_from_slice(peer_id.as_slice());
    buf.truncate(68);
    buf
}

#[test]
fn test_handshake_roundtrip() {
    let info_hash = make_info_hash(0xCC);
    let mock_peer_id = PeerId::new_random();
    let sent = Handshake::new(info_hash, mock_peer_id).to_bytes();
    let received_id = Handshake::check_reply(&sent, &info_hash).unwrap();
    assert_eq!(received_id, mock_peer_id);
}

#[test]
fn test_handshake_info_hash_mismatch() {
    let hash_a = make_info_hash(0xAA);
    let hash_b = make_info_hash(0xBB);
    let sent = Handshake::new(hash_a, PeerId::new_random()).to_bytes();
    assert!(Handshake::check_reply(&sent, &hash_b).is_err());
}

#[test]
fn test_receive_wrong_pstrlen() {
    let info_hash = make_info_hash(0x33);
    let buf = raw_handshake(30, b"BitTorrent protocol extra stuff", &info_hash, &PeerId::new_random());
    let result = Handshake::check_reply(&buf, &info_hash);
    let err = format!("{:?}", result.unwrap_err());
    assert!(err.contains("pstrlen"));
}

#[test]
fn test_receive_wrong_protocol_string() {
    let info_hash = make_info_hash(0x44);
    let buf = raw_handshake(19, b"BitTorrent protacol", &info_hash, &PeerId::new_random());
    let result = Handshake::check_reply(&buf, &info_hash);
    let err = format!("{:?}", result.unwrap_err());
    assert!(err.contains("protocol string"));
}

#[test]
fn test_receive_info_hash_mismatch() {
    let info_hash_a = make_info_hash(0xAA);
    let info_hash_b = make_info_hash(0xBB);
    let buf = raw_handshake(19, PROTOCOL_STR, &info_hash_a, &PeerId::new_random());
    let result = Handshake::check_reply(&buf, &info_hash_b);
    let err = format!("{:?}", result.unwrap_err());
    assert!(err.contains("info_hash"));
}

#[test]
fn test_handshake_ignores_reserved_bytes() {
    let info_hash = make_info_hash(0x12);
    let peer_id = PeerId::new_random();
    let mut buf = raw_handshake(19, PROTOCOL_STR, &info_hash, &peer_id);
    buf[20] = 0xFF;
    buf[27] = 0xFF;
    assert_eq!(Handshake::check_reply(&buf, &info_hash).unwrap(), peer_id);
}

#[test]
fn test_handshake_wire_format() {
    let info_hash = make_info_hash(0x55);
    let peer_id = PeerId::new_random();
    let buf = Handshake::new(info_hash, peer_id).to_bytes();
    assert_eq!(buf.len(), HANDSHAKE_LEN);
    assert_eq!(buf[0], 19);
    assert_eq!(&buf[1..20], PROTOCOL_STR);
    assert_eq!(&buf[20..28], &[0, 0, 0, 0, 0, 0x10, 0, 0x01]);
    assert_eq!(&buf[28..48], info_hash.as_slice());
    assert_eq!(&buf[48..68], peer_id.as_slice());
}

#[test]
fn test_multiple_sequential_handshakes() {
    for i in 0..5u8 {
        let info_hash = make_info_hash(0x60 + i);
        let mock_peer_id = PeerId::new_random();
        let sent = Handshake::new(info_hash, mock_peer_id).to_bytes();
        assert_eq!(Handshake::check_reply(&sent, &info_hash).unwrap(), mock_peer_id);
    }
}

#[test]
fn test_handshake_failure_texts() {
    let info_hash = make_info_hash(0x44);
    let text = |buf: &[u8], expected: &InfoHash| match Handshake::check_reply(buf, expected) {
        Err(BError::HandshakeFailed(s)) => s,
        other => panic!("expected a refused handshake, got {:?}", other.is_ok()),
    };
    let mut buf = raw_handshake(19, PROTOCOL_STR, &info_hash, &PeerId::new_random());
    buf[0] = 30;
    assert_eq!(text(&buf, &info_hash), "unexpected pstrlen: 30 (expected 19)");
    let buf = raw_handshake(19, b"BitTorrent protacol", &info_hash, &PeerId::new_random());
    assert_eq!(text(&buf, &info_hash), "protocol string mismatch: got 'BitTorrent protacol'");
    let buf = raw_handshake(19, PROTOCOL_STR, &info_hash, &PeerId::new_random());
    assert_eq!(
        text(&buf, &make_info_hash(0x45)),
        "info_hash mismatch: peer is serving a different torrent"
    );
}
