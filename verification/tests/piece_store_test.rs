use sha1::Digest;

use bitswarm::error::BError;
use bitswarm::metainfo::Metainfo;
use bitswarm::storage::piece_store::PieceStore;

fn make_metainfo_bytes(
    piece_count: usize,
    file_sizes: &[usize],
    piece_len: usize,
) -> Vec<u8> {
    let total_length: usize = file_sizes.iter().sum();
    let mut pieces = Vec::new();
    for i in 0..piece_count {
        let len = if i == piece_count - 1 {
            total_length - i * piece_len
        } else {
            piece_len
        };
        let data = vec![i as u8; len];
        let hash: [u8; 20] = sha1::Sha1::digest(&data).into();
        pieces.push(hash);
    }

    let mut bencode = Vec::new();
    bencode.extend(b"d");
    bencode.extend(b"8:announce11:http://t.co");
    if file_sizes.len() == 1 {
        bencode.extend(b"4:infod");
        bencode.extend(format!("6:lengthi{}e", file_sizes[0]).as_bytes());
        bencode.extend(b"4:name4:test");
    } else {
        bencode.extend(b"4:infod");
        bencode.extend(b"4:name8:test_dir");
        bencode.extend(b"5:filesl");
        for (i, &size) in file_sizes.iter().enumerate() {
            let filename = format!("file{}.dat", i);
            bencode.extend(b"d");
            bencode.extend(format!("6:lengthi{}e", size).as_bytes());
            bencode.extend(b"4:pathl");
            bencode.extend(format!("{}:{}", filename.len(), filename).as_bytes());
            bencode.extend(b"e");
            bencode.extend(b"e");
        }
        bencode.extend(b"e");
    }
    bencode.extend(format!("12:piece lengthi{}e", piece_len).as_bytes());
    let pieces_bytes = pieces.len() * 20;
    bencode.extend(b"6:pieces");
    bencode.extend(pieces_bytes.to_string().as_bytes());
    bencode.extend(b":");
    for p in &pieces {
        bencode.extend(p);
    }
    bencode.extend(b"ee");
    bencode
}

fn make_metainfo(piece_count: usize, file_sizes: &[usize], piece_len: usize) -> Metainfo {
    let bytes = make_metainfo_bytes(piece_count, file_sizes, piece_len);
    Metainfo::from_bytes(&bytes).unwrap()
}

/// What a disk store does before and after writing: check the piece, and
/// record it once written.
fn write_piece(store: &mut PieceStore, index: u32, data: &[u8]) -> Result<(), BError> {
    store.check_piece(index, data)?;
    store.mark_written(index);
    Ok(())
}

fn new_store(m: Metainfo) -> PieceStore {
    PieceStore::new(m, std::path::Path::new("/tmp"))
}

#[test]
fn test_sha1_verification_success() {
    let piece_len = 16384;
    let m = make_metainfo(1, &[piece_len], piece_len);
    let mut store = new_store(m);

    let data = vec![0u8; piece_len];
    write_piece(&mut store, 0, &data).unwrap();
    assert!(store.has_piece(0));
}

#[test]
fn test_sha1_verification_fails_wrong_data() {
    let piece_len = 16384;
    let m = make_metainfo(1, &[piece_len], piece_len);
    let mut store = new_store(m);

    let wrong = vec![0xFFu8; piece_len];
    let result = write_piece(&mut store, 0, &wrong);
    assert!(result.is_err());
    assert!(!store.has_piece(0));
}

#[test]
fn test_sha1_verification_fails_wrong_size() {
    let piece_len = 16384;
    let m = make_metainfo(1, &[piece_len], piece_len);
    let mut store = new_store(m);

    let wrong = vec![0u8; piece_len + 1];
    let result = write_piece(&mut store, 0, &wrong);
    assert!(result.is_err());
}

#[test]
fn test_sha1_verification_zero_length_data() {
    let piece_len = 16384;
    let m = make_metainfo(1, &[piece_len], piece_len);
    let mut store = new_store(m);

    let empty = vec![];
    let result = write_piece(&mut store, 0, &empty);
    assert!(result.is_err());
}

#[test]
fn test_sha1_verification_fails() {
    let m = make_metainfo(1, &[16384], 16384);
    let mut store = new_store(m);

    let wrong = vec![0xFFu8; 16384];
    let result = write_piece(&mut store, 0, &wrong);
    assert!(result.is_err());
    assert!(!store.has_piece(0));
}

#[test]
fn test_read_block_first_block() {
    let piece_len = 65536;
    let m = make_metainfo(1, &[piece_len], piece_len);
    let mut store = new_store(m);

    let data = vec![0u8; piece_len];
    write_piece(&mut store, 0, &data).unwrap();

    let block = store.read_block(&data, 0, 16384);
    assert_eq!(block.len(), 16384);
    assert_eq!(&block, &data[..16384]);
}

#[test]
fn test_read_block_middle_block() {
    let piece_len = 65536;
    let m = make_metainfo(1, &[piece_len], piece_len);
    let mut store = new_store(m);

    let data = vec![0u8; piece_len];
    write_piece(&mut store, 0, &data).unwrap();

    let block = store.read_block(&data, 16384, 16384);
    assert_eq!(block.len(), 16384);
    assert_eq!(&block, &data[16384..32768]);
}

#[test]
fn test_read_block_last_block_may_be_shorter() {
    let piece_len = 50000;
    let m = make_metainfo(1, &[piece_len], piece_len);
    let mut store = new_store(m);

    let data = vec![0u8; piece_len];
    write_piece(&mut store, 0, &data).unwrap();

    let last_begin = (piece_len as u32 / 16384) * 16384;
    let remaining = piece_len as u32 - last_begin;
    let block = store.read_block(&data, last_begin, 16384);
    assert_eq!(block.len(), remaining as usize);
}

#[test]
fn test_has_piece_before_and_after_write() {
    let piece_len = 16384;
    let m = make_metainfo(2, &[piece_len * 2], piece_len);
    let mut store = new_store(m);

    assert!(!store.has_piece(0));
    assert!(!store.has_piece(1));

    write_piece(&mut store, 0, &vec![0u8; piece_len]).unwrap();
    assert!(store.has_piece(0));
    assert!(!store.has_piece(1));

    write_piece(&mut store, 1, &vec![1u8; piece_len]).unwrap();
    assert!(store.has_piece(0));
    assert!(store.has_piece(1));
}

#[test]
fn test_has_piece_with_large_index() {
    let piece_len = 16384;
    let piece_count = 10;
    let total = piece_len * piece_count;
    let m = make_metainfo(piece_count, &[total], piece_len);
    let mut store = new_store(m);
    assert!(!store.has_piece(9));
    write_piece(&mut store, 9, &vec![9u8; piece_len]).unwrap();
    assert!(store.has_piece(9));
    assert!(!store.has_piece(0));
}

#[test]
fn test_has_piece() {
    let piece_len = 16384;
    let m = make_metainfo(3, &[piece_len * 3], piece_len);
    let mut store = new_store(m);

    write_piece(&mut store, 0, &vec![0u8; piece_len]).unwrap();
    assert!(store.has_piece(0));
    assert!(!store.has_piece(1));
    assert!(!store.has_piece(2));

    write_piece(&mut store, 2, &vec![2u8; piece_len]).unwrap();
    assert!(store.has_piece(2));
    assert!(!store.has_piece(1));
}

#[test]
fn test_metainfo_access() {
    let piece_len = 16384;
    let m = make_metainfo(3, &[piece_len * 3], piece_len);
    let store = new_store(m.clone());
    assert_eq!(store.metainfo().piece_count(), m.piece_count());
    assert_eq!(store.metainfo().info.total_length, m.info.total_length);
}

#[test]
fn test_write_piece_invalid_index() {
    let piece_len = 16384;
    let m = make_metainfo(1, &[piece_len], piece_len);
    let mut store = new_store(m);

    let result = write_piece(&mut store, 999, &vec![0u8; 1]);
    assert!(result.is_err());
}

#[test]
fn test_multi_file_layout_three_files() {
    let piece_len = 16384;
    let m = make_metainfo(2, &[10000, 12000, 10768], piece_len);
    let store = new_store(m);
    let layout = store.assembler();
    assert_eq!(layout.files.len(), 3);
    assert_eq!(layout.piece_map[0].segments.len(), 2);
    assert_eq!(layout.piece_map[0].segments[1].file_index, 1);
    assert_eq!(layout.piece_map[0].segments[1].length, 6384);
    assert_eq!(layout.piece_map[1].segments[0].file_offset, 6384);
    assert_eq!(layout.piece_map[1].segments[1].file_index, 2);
}

#[test]
fn test_has_piece_after_a_sequence_of_writes() {
    let piece_len = 16384;
    let m = make_metainfo(4, &[piece_len * 4], piece_len);
    let mut store = new_store(m);
    for &i in &[2u32, 0, 2, 7] {
        store.mark_written(i);
    }
    assert!(store.has_piece(0));
    assert!(!store.has_piece(1));
    assert!(store.has_piece(2));
    assert!(!store.has_piece(3));
    assert!(store.has_piece(7));
}
