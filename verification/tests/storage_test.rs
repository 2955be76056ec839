use sha1::Digest;

use bitswarm::metainfo::Metainfo;
use bitswarm::peer::connection_manager::{ConnectionManagerConfig, PeerTable};
use bitswarm::peer::event_loop::drain_messages;
use bitswarm::peer::message::Message;
use bitswarm::storage::piece_store::PieceStore;
use bitswarm::types::{PeerAddr, PeerId, PeerIp};

fn make_metainfo(piece_len: usize, file_sizes: &[usize]) -> Metainfo {
    let total: usize = file_sizes.iter().sum();
    let count = (total + piece_len - 1) / piece_len;
    let mut pieces = Vec::new();
    for i in 0..count {
        let len = if i == count - 1 { total - i * piece_len } else { piece_len };
        let hash: [u8; 20] = sha1::Sha1::digest(&vec![i as u8; len]).into();
        pieces.extend_from_slice(&hash);
    }
    let mut b = Vec::new();
    b.extend_from_slice(b"d4:infod");
    if file_sizes.len() == 1 {
        b.extend_from_slice(format!("6:lengthi{}e", file_sizes[0]).as_bytes());
        b.extend_from_slice(b"4:name4:data");
    } else {
        b.extend_from_slice(b"5:filesl");
        for (i, size) in file_sizes.iter().enumerate() {
            let name = format!("f{}", i);
            b.extend_from_slice(format!("d6:lengthi{}e4:pathl3:sub{}:{}ee", size, name.len(), name).as_bytes());
        }
        b.extend_from_slice(b"e4:name3:dir");
    }
    b.extend_from_slice(format!("12:piece lengthi{}e6:pieces{}:", piece_len, pieces.len()).as_bytes());
    b.extend_from_slice(&pieces);
    b.extend_from_slice(b"ee");
    Metainfo::from_bytes(&b).unwrap()
}

#[test]
fn test_store_checks_piece_digest() {
    let m = make_metainfo(1024, &[3000]);
    let store = PieceStore::new(m, std::path::Path::new("/tmp/out"));
    assert!(store.check_piece(0, &vec![0u8; 1024]).is_ok());
    assert!(store.check_piece(2, &vec![2u8; 3000 - 2048]).is_ok());
    let err = store.check_piece(1, &vec![0u8; 1024]).unwrap_err();
    assert!(format!("{:?}", err).contains("SHA1 mismatch for piece 1"));
    let err = store.check_piece(9, &[]).unwrap_err();
    assert!(format!("{:?}", err).contains("no hash for piece 9"));
}

#[test]
fn test_store_records_written_pieces() {
    let m = make_metainfo(1024, &[3000]);
    let mut store = PieceStore::open_existing(m, std::path::Path::new("/tmp/out"));
    assert!(!store.has_piece(0));
    store.mark_written(0);
    store.mark_written(0);
    assert!(store.has_piece(0));
    assert!(!store.has_piece(1));
    assert!(!store.has_piece(u32::MAX));
    assert_eq!(store.metainfo().piece_count(), 3);
}

#[test]
fn test_store_file_paths() {
    let single = PieceStore::new(make_metainfo(1024, &[10]), std::path::Path::new("/x"));
    assert_eq!(single.file_paths(), vec![vec!["data".to_string()]]);
    let multi = PieceStore::new(make_metainfo(1024, &[10, 20]), std::path::Path::new("/x"));
    assert_eq!(
        multi.file_paths(),
        vec![
            vec!["sub".to_string(), "f0".to_string()],
            vec!["sub".to_string(), "f1".to_string()],
        ]
    );
    assert_eq!(multi.assembler().piece_map[0].segments.len(), 2);
}

#[test]
fn test_read_block_cuts_at_piece_end() {
    let store = PieceStore::new(make_metainfo(1024, &[3000]), std::path::Path::new("/x"));
    let piece: Vec<u8> = (0..100u8).collect();
    assert_eq!(store.read_block(&piece, 0, 10), (0..10u8).collect::<Vec<u8>>());
    assert_eq!(store.read_block(&piece, 95, 10), (95..100u8).collect::<Vec<u8>>());
    assert!(store.read_block(&piece, 100, 10).is_empty());
    assert_eq!(store.read_block(&piece, 50, u32::MAX).len(), 50);
}

#[test]
fn test_drain_takes_whole_messages() {
    let mut buf = Vec::new();
    buf.extend_from_slice(&Message::Have(7).encode());
    buf.extend_from_slice(&[0, 0, 0, 0]);
    buf.extend_from_slice(&Message::Unchoke.encode());
    let full = buf.len();
    buf.extend_from_slice(&[0, 0, 0, 5, 4]);
    let (msgs, used, bad) = drain_messages(&buf);
    assert_eq!(msgs, vec![Message::Have(7), Message::Unchoke]);
    assert_eq!(used, full);
    assert!(!bad);
}

#[test]
fn test_drain_stops_at_invalid_message() {
    let mut buf = Vec::new();
    buf.extend_from_slice(&Message::Interested.encode());
    buf.extend_from_slice(&[0, 0, 0, 1, 99]);
    buf.extend_from_slice(&Message::Choke.encode());
    let (msgs, used, bad) = drain_messages(&buf);
    assert_eq!(msgs, vec![Message::Interested]);
    assert_eq!(used, 5);
    assert!(bad);
    let (msgs, used, bad) = drain_messages(&[]);
    assert!(msgs.is_empty() && used == 0 && !bad);
}

#[test]
fn test_connection_manager_config_default() {
    let c = ConnectionManagerConfig::default();
    assert_eq!(c.max_peers, 50);
    assert_eq!(c.connect_timeout_secs, 10);
}

#[test]
fn test_peer_table_limits_and_lookups() {
    let mut t = PeerTable::new(2);
    let a = PeerId::new_random();
    let b = PeerId::new_random();
    let addr_a = PeerAddr::new(PeerIp::V4([10, 0, 0, 1]), 6881);
    let addr_b = PeerAddr::new(PeerIp::V4([10, 0, 0, 2]), 6881);
    assert_eq!(t.available(), 2);
    t.insert(a, addr_a);
    t.insert(a, addr_a);
    assert_eq!(t.peer_count(), 1);
    assert!(!t.is_full());
    t.insert(b, addr_b);
    assert!(t.is_full());
    assert_eq!(t.available(), 0);
    assert!(t.is_duplicate_addr(&addr_b));
    assert_eq!(t.find_by_addr(&addr_a), Some(a));
    assert_eq!(t.ids().len(), 2);
    t.remove(&a);
    assert_eq!(t.find_by_addr(&addr_a), None);
    assert_eq!(t.available(), 1);
    assert_eq!(t.ids(), vec![b]);
}
