//! Torrent files: the metainfo dictionary, its info dictionary, and the
//! arithmetic of pieces and blocks that follows from them.

use vstd::prelude::*;
#[allow(unused_imports)]
use vstd::utf8::*;

use crate::bencode::{
    dict_lookup, lemma_list_model, list_model, utf8_text, Bencoded, BencodeValue, DecodeFailure,
    decode_spec, lemma_top_level_value_span, reports, top_level_value_at, top_level_value_span,
};
use crate::error::BError;
use crate::extern_calls::{sha1_digest, sha1_spec};
use crate::decimal::nat_digits;
use crate::extern_calls::hex_encode_spec;
use crate::text::{ascii_string, ascii_text, decimal_string};
use crate::types::{array20, InfoHash, BLOCK_LEN};

verus! {

/// The key `info`.
pub const KEY_INFO: [u8; 4] = [105, 110, 102, 111];
/// The key `piece length`.
pub const KEY_PIECE_LENGTH: [u8; 12] = [112, 105, 101, 99, 101, 32, 108, 101, 110, 103, 116, 104];
/// The key `pieces`.
pub const KEY_PIECES: [u8; 6] = [112, 105, 101, 99, 101, 115];
/// The key `name`.
pub const KEY_NAME: [u8; 4] = [110, 97, 109, 101];
/// The key `length`.
pub const KEY_LENGTH: [u8; 6] = [108, 101, 110, 103, 116, 104];
/// The key `files`.
pub const KEY_FILES: [u8; 5] = [102, 105, 108, 101, 115];
/// The key `path`.
pub const KEY_PATH: [u8; 4] = [112, 97, 116, 104];
/// The key `announce`.
pub const KEY_ANNOUNCE: [u8; 8] = [97, 110, 110, 111, 117, 110, 99, 101];
/// The key `announce-list`.
pub const KEY_ANNOUNCE_LIST: [u8; 13] = [97, 110, 110, 111, 117, 110, 99, 101, 45, 108, 105, 115, 116];
/// The key `creation date`.
pub const KEY_CREATION_DATE: [u8; 13] = [99, 114, 101, 97, 116, 105, 111, 110, 32, 100, 97, 116, 101];
/// The key `created by`.
pub const KEY_CREATED_BY: [u8; 10] = [99, 114, 101, 97, 116, 101, 100, 32, 98, 121];
/// The key `encoding`.
pub const KEY_ENCODING: [u8; 8] = [101, 110, 99, 111, 100, 105, 110, 103];
/// The key `comment`.
pub const KEY_COMMENT: [u8; 7] = [99, 111, 109, 109, 101, 110, 116];

/// One file of a torrent.
#[derive(Clone, Debug, PartialEq, Eq)]
pub struct TorrentFile {
    pub path: Vec<String>,
    pub length: usize,
}

/// The info dictionary of a torrent.
#[derive(Clone, Debug)]
pub struct InfoDict {
    pub piece_length: usize,
    pub pieces: Vec<[u8; 20]>,
    pub name: String,
    pub files: Vec<TorrentFile>,
    pub total_length: usize,
    pub raw_info_bytes: Vec<u8>,
}

/// Everything a torrent file says.
#[derive(Clone, Debug)]
pub struct Metainfo {
    pub announce: Option<String>,
    pub announce_list: Option<Vec<Vec<String>>>,
    pub creation_date: Option<i64>,
    pub created_by: Option<String>,
    pub encoding: Option<String>,
    pub comment: Option<String>,
    pub info: InfoDict,
    pub info_hash: InfoHash,
}

// ---------------------------------------------------------------------------
// Views

pub struct FileView {
    pub path: Seq<Seq<char>>,
    pub length: nat,
}

pub struct InfoView {
    pub piece_length: nat,
    pub pieces: Seq<Seq<u8>>,
    pub name: Seq<char>,
    pub files: Seq<FileView>,
    pub total_length: nat,
    pub raw_info_bytes: Seq<u8>,
}

pub struct MetainfoView {
    pub announce: Option<Seq<char>>,
    pub announce_list: Option<Seq<Seq<Seq<char>>>>,
    pub creation_date: Option<i64>,
    pub created_by: Option<Seq<char>>,
    pub encoding: Option<Seq<char>>,
    pub comment: Option<Seq<char>>,
    pub info: InfoView,
    pub info_hash: Seq<u8>,
}

pub open spec fn strings_view(v: Seq<String>) -> Seq<Seq<char>> {
    v.map_values(|s: String| s@)
}

pub open spec fn opt_string_view(o: Option<String>) -> Option<Seq<char>> {
    match o {
        Some(s) => Some(s@),
        None => None,
    }
}

impl View for TorrentFile {
    type V = FileView;

    open spec fn view(&self) -> FileView {
        FileView { path: strings_view(self.path@), length: self.length as nat }
    }
}

pub open spec fn files_view(v: Seq<TorrentFile>) -> Seq<FileView> {
    v.map_values(|f: TorrentFile| f@)
}

impl View for InfoDict {
    type V = InfoView;

    open spec fn view(&self) -> InfoView {
        InfoView {
            piece_length: self.piece_length as nat,
            pieces: self.pieces@.map_values(|p: [u8; 20]| p@),
            name: self.name@,
            files: files_view(self.files@),
            total_length: self.total_length as nat,
            raw_info_bytes: self.raw_info_bytes@,
        }
    }
}

pub open spec fn tiers_view(t: Seq<Vec<String>>) -> Seq<Seq<Seq<char>>> {
    t.map_values(|tier: Vec<String>| strings_view(tier@))
}

impl View for Metainfo {
    type V = MetainfoView;

    open spec fn view(&self) -> MetainfoView {
        MetainfoView {
            announce: opt_string_view(self.announce),
            announce_list: match self.announce_list {
                Some(t) => Some(tiers_view(t@)),
                None => None,
            },
            creation_date: self.creation_date,
            created_by: opt_string_view(self.created_by),
            encoding: opt_string_view(self.encoding),
            comment: opt_string_view(self.comment),
            info: self.info@,
            info_hash: self.info_hash.0@,
        }
    }
}

// ---------------------------------------------------------------------------
// What a torrent file says

/// Why bytes are not a torrent file.
pub enum MetaFailure {
    Bencode(DecodeFailure),
    MissingInfoDict,
    InvalidTorrent,
    InvalidPieceLength(i64),
    MissingPieces,
    InvalidPiecesLength(nat),
    NoFiles,
}

/// `e` is the error reported for `f`.
pub open spec fn meta_reports(e: BError, f: MetaFailure) -> bool {
    match f {
        MetaFailure::Bencode(d) => reports(e, d),
        MetaFailure::MissingInfoDict => e is MissingInfoDict,
        MetaFailure::InvalidTorrent => e is InvalidTorrent,
        MetaFailure::InvalidPieceLength(n) => e matches BError::InvalidPieceLength(m) && m == n,
        MetaFailure::MissingPieces => e is MissingPieces,
        MetaFailure::InvalidPiecesLength(n) => e matches BError::InvalidPiecesLength(m) && m == n,
        MetaFailure::NoFiles => e is NoFiles,
    }
}

/// The text under `key`, if it is a byte string of valid UTF-8.
pub open spec fn str_field(v: Bencoded, key: Seq<u8>) -> Option<Seq<char>> {
    match dict_lookup(v, key) {
        Some(Bencoded::Bytes(b)) => utf8_text(b),
        _ => None,
    }
}

/// The number under `key`, if it is an integer.
pub open spec fn int_field(v: Bencoded, key: Seq<u8>) -> Option<i64> {
    match dict_lookup(v, key) {
        Some(Bencoded::Int(i)) => Some(i),
        _ => None,
    }
}

/// The bytes under `key`, if they are a byte string.
pub open spec fn bytes_field(v: Bencoded, key: Seq<u8>) -> Option<Seq<u8>> {
    match dict_lookup(v, key) {
        Some(Bencoded::Bytes(b)) => Some(b),
        _ => None,
    }
}

/// The text that stands for a path segment.
pub open spec fn segment_text(v: Bencoded) -> Seq<char> {
    match v {
        Bencoded::Bytes(b) => match utf8_text(b) {
            Some(t) => t,
            None => binary_segment_text(),
        },
        _ => binary_segment_text(),
    }
}

/// What stands for a path segment that is not text.
pub open spec fn binary_segment_text() -> Seq<char> {
    "(binary path segment)"@
}

/// One entry of the `files` list.
#[verifier::opaque]
pub open spec fn file_item_spec(item: Bencoded) -> Result<FileView, MetaFailure> {
    match int_field(item, KEY_LENGTH@) {
        None => Err(MetaFailure::InvalidTorrent),
        Some(l) => if l < 0 {
            Err(MetaFailure::InvalidTorrent)
        } else {
            match dict_lookup(item, KEY_PATH@) {
                Some(Bencoded::List(segs)) => if segs.len() == 0 {
                    Err(MetaFailure::InvalidTorrent)
                } else {
                    Ok(FileView { path: segs.map_values(|s: Bencoded| segment_text(s)), length: (l as usize) as nat })
                },
                _ => Err(MetaFailure::InvalidTorrent),
            }
        },
    }
}

/// The first `n` entries of the `files` list, or the first error among them.
pub open spec fn files_prefix(items: Seq<Bencoded>, n: int) -> Result<Seq<FileView>, MetaFailure>
    decreases n,
{
    if n <= 0 {
        Ok(Seq::empty())
    } else {
        match files_prefix(items, n - 1) {
            Err(e) => Err(e),
            Ok(fs) => match file_item_spec(items[n - 1]) {
                Ok(f) => Ok(fs.push(f)),
                Err(e) => Err(e),
            },
        }
    }
}

/// The `files` list of a torrent with several files.
pub open spec fn files_spec(v: Bencoded) -> Result<Seq<FileView>, MetaFailure> {
    match v {
        Bencoded::List(items) => match files_prefix(items, items.len() as int) {
            Ok(fs) => if fs.len() == 0 {
                Err(MetaFailure::InvalidTorrent)
            } else {
                Ok(fs)
            },
            Err(e) => Err(e),
        },
        _ => Err(MetaFailure::InvalidTorrent),
    }
}

/// The sum of the file lengths.
pub open spec fn sum_lengths(fs: Seq<FileView>) -> nat
    decreases fs.len(),
{
    if fs.len() == 0 {
        0
    } else {
        sum_lengths(fs.drop_last()) + fs.last().length
    }
}

/// How many pieces of `piece_length` bytes hold `total` bytes.
pub open spec fn piece_count_for(total: nat, piece_length: nat) -> nat {
    if piece_length == 0 {
        0
    } else {
        ((total + piece_length - 1) / piece_length as int) as nat
    }
}

/// The digests in the `pieces` string, 20 bytes each.
pub open spec fn split_pieces(raw: Seq<u8>) -> Seq<Seq<u8>> {
    Seq::new(raw.len() / 20, |i: int| raw.subrange(20 * i, 20 * i + 20))
}

/// The info dictionary; `raw` is its bencoded form.
pub open spec fn info_spec(info: Bencoded, raw: Seq<u8>) -> Result<InfoView, MetaFailure> {
    match int_field(info, KEY_PIECE_LENGTH@) {
        None => Err(MetaFailure::InvalidTorrent),
        Some(pl) => if pl <= 0 || (pl as usize) == 0 {
            Err(MetaFailure::InvalidPieceLength(pl))
        } else {
            match bytes_field(info, KEY_PIECES@) {
                None => Err(MetaFailure::MissingPieces),
                Some(pr) => if pr.len() % 20 != 0 {
                    Err(MetaFailure::InvalidPiecesLength(pr.len()))
                } else {
                    info_named_spec(info, (pl as usize) as nat, pr, raw)
                },
            }
        },
    }
}

/// The info dictionary once its piece length and digests are read.
pub open spec fn info_named_spec(info: Bencoded, plen: nat, pr: Seq<u8>, raw: Seq<u8>) -> Result<
    InfoView,
    MetaFailure,
> {
    match str_field(info, KEY_NAME@) {
        None => Err(MetaFailure::InvalidTorrent),
        Some(name) => match files_field_spec(info, name) {
            Err(e) => Err(e),
            Ok(fs) => info_totals_spec(plen, pr, name, fs, raw),
        },
    }
}

/// The info dictionary once its files are read: their lengths must fit,
/// and the digests must be as many as the pieces.
pub open spec fn info_totals_spec(
    plen: nat,
    pr: Seq<u8>,
    name: Seq<char>,
    fs: Seq<FileView>,
    raw: Seq<u8>,
) -> Result<InfoView, MetaFailure> {
    let total = sum_lengths(fs);
    if total > usize::MAX {
        Err(MetaFailure::InvalidTorrent)
    } else if split_pieces(pr).len() != piece_count_for(total, plen) {
        Err(MetaFailure::InvalidTorrent)
    } else {
        Ok(
            InfoView {
                piece_length: plen,
                pieces: split_pieces(pr),
                name,
                files: fs,
                total_length: total,
                raw_info_bytes: raw,
            },
        )
    }
}

/// The files of a torrent: its one file named `name` where `length` is
/// given, otherwise its `files` list.
pub open spec fn files_field_spec(info: Bencoded, name: Seq<char>) -> Result<Seq<FileView>, MetaFailure> {
    match int_field(info, KEY_LENGTH@) {
        Some(l) => if l < 0 {
            Err(MetaFailure::InvalidTorrent)
        } else {
            Ok(seq![FileView { path: seq![name], length: (l as usize) as nat }])
        },
        None => match dict_lookup(info, KEY_FILES@) {
            Some(fv) => files_spec(fv),
            None => Err(MetaFailure::NoFiles),
        },
    }
}

/// The texts among the items, in order.
pub open spec fn tier_urls(items: Seq<Bencoded>, n: int) -> Seq<Seq<char>>
    decreases n,
{
    if n <= 0 {
        Seq::empty()
    } else {
        let rest = tier_urls(items, n - 1);
        match items[n - 1] {
            Bencoded::Bytes(b) => match utf8_text(b) {
                Some(t) => rest.push(t),
                None => rest,
            },
            _ => rest,
        }
    }
}

/// The first `n` tiers, without empty ones; nothing if one is not a list.
pub open spec fn tiers_prefix(tiers: Seq<Bencoded>, n: int) -> Option<Seq<Seq<Seq<char>>>>
    decreases n,
{
    if n <= 0 {
        Some(Seq::empty())
    } else {
        match tiers_prefix(tiers, n - 1) {
            None => None,
            Some(acc) => match tiers[n - 1] {
                Bencoded::List(urls) => {
                    let u = tier_urls(urls, urls.len() as int);
                    if u.len() > 0 {
                        Some(acc.push(u))
                    } else {
                        Some(acc)
                    }
                },
                _ => None,
            },
        }
    }
}

/// The `announce-list`: its non-empty tiers, if there is at least one.
pub open spec fn announce_list_spec(root: Bencoded) -> Option<Seq<Seq<Seq<char>>>> {
    match dict_lookup(root, KEY_ANNOUNCE_LIST@) {
        Some(Bencoded::List(tiers)) => match tiers_prefix(tiers, tiers.len() as int) {
            Some(r) => if r.len() > 0 {
                Some(r)
            } else {
                None
            },
            None => None,
        },
        _ => None,
    }
}

/// The bytes of the root dictionary's `info` value, exactly as they stand
/// in the torrent file.
pub open spec fn raw_info_spec(data: Seq<u8>) -> Seq<u8> {
    match top_level_value_span(data, KEY_INFO@) {
        Some((a, b)) => data.subrange(a, b),
        None => Seq::empty(),
    }
}

/// Everything that the torrent file `data` says.
pub open spec fn metainfo_spec(data: Seq<u8>) -> Result<MetainfoView, MetaFailure> {
    match decode_spec(data, 0) {
        Err(f) => Err(MetaFailure::Bencode(f)),
        Ok((root, _)) => match dict_lookup(root, KEY_INFO@) {
            None => Err(MetaFailure::MissingInfoDict),
            Some(info_v) => {
                let raw = raw_info_spec(data);
                match info_spec(info_v, raw) {
                    Err(e) => Err(e),
                    Ok(info) => Ok(
                        MetainfoView {
                            announce: str_field(root, KEY_ANNOUNCE@),
                            announce_list: announce_list_spec(root),
                            creation_date: int_field(root, KEY_CREATION_DATE@),
                            created_by: str_field(root, KEY_CREATED_BY@),
                            encoding: str_field(root, KEY_ENCODING@),
                            comment: str_field(root, KEY_COMMENT@),
                            info,
                            info_hash: sha1_spec(raw),
                        },
                    ),
                }
            },
        },
    }
}

// ---------------------------------------------------------------------------
// Reading a torrent file

proof fn lemma_files_prefix_step(items: Seq<Bencoded>, n: int, fs: Seq<FileView>)
    requires
        0 <= n,
        files_prefix(items, n) == Ok::<Seq<FileView>, MetaFailure>(fs),
    ensures
        files_prefix(items, n + 1) == match file_item_spec(items[n]) {
            Ok(f) => Ok::<Seq<FileView>, MetaFailure>(fs.push(f)),
            Err(e) => Err(e),
        },
{
}

proof fn lemma_files_prefix_err(items: Seq<Bencoded>, n: int, m: int)
    requires
        0 <= n <= m,
        files_prefix(items, n) is Err,
    ensures
        files_prefix(items, m) == files_prefix(items, n),
    decreases m - n,
{
    if n < m {
        lemma_files_prefix_err(items, n, m - 1);
    }
}

fn path_segment(seg: &BencodeValue) -> (r: String)
    ensures
        r@ == segment_text(seg@),
{
    match seg.as_str() {
        Ok(s) => s,
        Err(_) => "(binary path segment)".to_string(),
    }
}

fn parse_file_item(item: &BencodeValue) -> (r: Result<TorrentFile, BError>)
    ensures
        match file_item_spec(item@) {
            Ok(f) => r matches Ok(x) && x@ == f,
            Err(e) => r matches Err(x) && meta_reports(x, e),
        },
{
    reveal(file_item_spec);
    let length = match item.dict_get_int(KEY_LENGTH.as_slice()) {
        Some(l) => l,
        None => {
            return Err(BError::InvalidTorrent("file entry missing 'length'".to_string()));
        },
    };
    if length < 0 {
        return Err(BError::InvalidTorrent("negative file length".to_string()));
    }
    let segs = match item.dict_get(KEY_PATH.as_slice()) {
        Some(v) => match v.as_list() {
            Some(l) => l,
            None => {
                return Err(BError::InvalidTorrent("file entry missing 'path'".to_string()));
            },
        },
        None => {
            return Err(BError::InvalidTorrent("file entry missing 'path'".to_string()));
        },
    };
    let ghost model = list_model(segs@);
    proof {
        lemma_list_model(segs@);
    }
    let mut path: Vec<String> = Vec::new();
    let mut i: usize = 0;
    while i < segs.len()
        invariant
            i <= segs@.len(),
            model == list_model(segs@),
            model.len() == segs@.len(),
            forall|j: int| 0 <= j < segs@.len() ==> #[trigger] model[j] == segs@[j]@,
            path@.len() == i,
            forall|j: int| 0 <= j < i ==> #[trigger] path@[j]@ == segment_text(model[j]),
        decreases segs@.len() - i,
    {
        let t = path_segment(&segs[i]);
        path.push(t);
        i = i + 1;
    }
    if path.len() == 0 {
        return Err(BError::InvalidTorrent("file entry has empty path".to_string()));
    }
    let f = TorrentFile { path, length: length as usize };
    assert(f@.path =~= model.map_values(|s: Bencoded| segment_text(s)));
    Ok(f)
}

fn parse_files_list(files_value: &BencodeValue) -> (r: Result<Vec<TorrentFile>, BError>)
    ensures
        match files_spec(files_value@) {
            Ok(fs) => r matches Ok(x) && files_view(x@) == fs,
            Err(e) => r matches Err(x) && meta_reports(x, e),
        },
{
    let items = match files_value.as_list() {
        Some(l) => l,
        None => {
            return Err(BError::InvalidTorrent("'files' is not a list".to_string()));
        },
    };
    let ghost model = list_model(items@);
    proof {
        lemma_list_model(items@);
        assert(files_view(Seq::<TorrentFile>::empty()) =~= Seq::<FileView>::empty());
    }
    let mut files: Vec<TorrentFile> = Vec::new();
    let mut i: usize = 0;
    while i < items.len()
        invariant
            i <= items@.len(),
            model == list_model(items@),
            files_value@ == Bencoded::List(model),
            model.len() == items@.len(),
            forall|j: int| 0 <= j < items@.len() ==> #[trigger] model[j] == items@[j]@,
            files_prefix(model, i as int) == Ok::<Seq<FileView>, MetaFailure>(files_view(files@)),
        decreases items@.len() - i,
    {
        proof {
            lemma_files_prefix_step(model, i as int, files_view(files@));
        }
        match parse_file_item(&items[i]) {
            Ok(f) => {
                let ghost before = files@;
                let ghost fv = f@;
                files.push(f);
                assert(files_view(files@) =~= files_view(before).push(fv));
            },
            Err(e) => {
                proof {
                    lemma_files_prefix_err(model, i + 1, model.len() as int);
                }
                return Err(e);
            },
        }
        i = i + 1;
    }
    if files.len() == 0 {
        return Err(BError::InvalidTorrent("'files' list is empty".to_string()));
    }
    Ok(files)
}

proof fn lemma_tiers_prefix_none(tiers: Seq<Bencoded>, n: int, m: int)
    requires
        0 <= n <= m,
        tiers_prefix(tiers, n) is None,
    ensures
        tiers_prefix(tiers, m) is None,
    decreases m - n,
{
    if n < m {
        lemma_tiers_prefix_none(tiers, n, m - 1);
    }
}

fn tier_texts(urls: &Vec<BencodeValue>) -> (r: Vec<String>)
    ensures
        strings_view(r@) == tier_urls(list_model(urls@), urls@.len() as int),
{
    let ghost model = list_model(urls@);
    proof {
        lemma_list_model(urls@);
        assert(strings_view(Seq::<String>::empty()) =~= Seq::<Seq<char>>::empty());
    }
    let mut out: Vec<String> = Vec::new();
    let mut j: usize = 0;
    while j < urls.len()
        invariant
            j <= urls@.len(),
            model == list_model(urls@),
            model.len() == urls@.len(),
            forall|k: int| 0 <= k < urls@.len() ==> #[trigger] model[k] == urls@[k]@,
            strings_view(out@) == tier_urls(model, j as int),
        decreases urls@.len() - j,
    {
        let ghost before = out@;
        match urls[j].as_str() {
            Ok(t) => {
                let ghost tv = t@;
                out.push(t);
                assert(strings_view(out@) =~= strings_view(before).push(tv));
            },
            Err(_) => {},
        }
        j = j + 1;
    }
    out
}

fn parse_announce_list(root: &BencodeValue) -> (r: Option<Vec<Vec<String>>>)
    ensures
        match announce_list_spec(root@) {
            Some(t) => r matches Some(x) && tiers_view(x@) == t,
            None => r is None,
        },
{
    let list = match root.dict_get(KEY_ANNOUNCE_LIST.as_slice()) {
        Some(v) => v,
        None => {
            return None;
        },
    };
    let outer = match list.as_list() {
        Some(l) => l,
        None => {
            return None;
        },
    };
    let ghost model = list_model(outer@);
    proof {
        lemma_list_model(outer@);
        assert(tiers_view(Seq::<Vec<String>>::empty()) =~= Seq::<Seq<Seq<char>>>::empty());
    }
    let mut result: Vec<Vec<String>> = Vec::new();
    let mut i: usize = 0;
    while i < outer.len()
        invariant
            i <= outer@.len(),
            model == list_model(outer@),
            dict_lookup(root@, KEY_ANNOUNCE_LIST@) == Some(Bencoded::List(model)),
            model.len() == outer@.len(),
            forall|k: int| 0 <= k < outer@.len() ==> #[trigger] model[k] == outer@[k]@,
            tiers_prefix(model, i as int) == Some(tiers_view(result@)),
        decreases outer@.len() - i,
    {
        let inner = match outer[i].as_list() {
            Some(l) => l,
            None => {
                proof {
                    lemma_tiers_prefix_none(model, i + 1, model.len() as int);
                }
                return None;
            },
        };
        proof {
            lemma_list_model(inner@);
        }
        let urls = tier_texts(inner);
        assert(strings_view(urls@).len() == urls@.len());
        let ghost before = result@;
        if urls.len() > 0 {
            let ghost uv = strings_view(urls@);
            result.push(urls);
            assert(tiers_view(result@) =~= tiers_view(before).push(uv));
        }
        i = i + 1;
    }
    if result.len() == 0 {
        None
    } else {
        Some(result)
    }
}

/// The bytes of the root dictionary's `info` value, where it has one.
fn extract_raw_info(data: &[u8]) -> (r: Option<Vec<u8>>)
    ensures
        top_level_value_span(data@, KEY_INFO@) is Some ==> (r matches Some(raw) && raw@
            == raw_info_spec(data@)),
{
    let key = KEY_INFO.as_slice();
    assert(key@ == KEY_INFO@);
    match top_level_value_at(data, key) {
        Some((start, stop)) => {
            assert(top_level_value_span(data@, KEY_INFO@) == Some((start as int, stop as int)));
            let raw = crate::bencode::copy_bytes(&data[start..stop]);
            assert(raw@ =~= raw_info_spec(data@));
            Some(raw)
        },
        None => None,
    }
}

proof fn lemma_piece_count(total: nat, pl: nat)
    requires
        pl > 0,
    ensures
        piece_count_for(total, pl) == total / pl + if total % pl != 0 {
            1nat
        } else {
            0nat
        },
{
    let q = (total / pl) as int;
    let r = (total % pl) as int;
    vstd::arithmetic::div_mod::lemma_fundamental_div_mod(total as int, pl as int);
    assert(total == q * pl + r) by (nonlinear_arith)
        requires
            total == pl * q + r,
    ;
    assert((q + 1) * pl == q * pl + pl) by (nonlinear_arith);
    if r == 0 {
        vstd::arithmetic::div_mod::lemma_fundamental_div_mod_converse(
            total + pl - 1,
            pl as int,
            q,
            pl - 1,
        );
    } else {
        vstd::arithmetic::div_mod::lemma_fundamental_div_mod_converse(
            total + pl - 1,
            pl as int,
            q + 1,
            r - 1,
        );
    }
}

proof fn lemma_sum_lengths_prefix(fs: Seq<FileView>, a: int, b: int)
    requires
        0 <= a <= b <= fs.len(),
    ensures
        sum_lengths(fs.take(a)) <= sum_lengths(fs.take(b)),
    decreases b - a,
{
    if a < b {
        lemma_sum_lengths_prefix(fs, a, b - 1);
        assert(fs.take(b).drop_last() =~= fs.take(b - 1));
    }
}

fn split_piece_hashes(raw: &[u8]) -> (r: Vec<[u8; 20]>)
    requires
        raw@.len() % 20 == 0,
    ensures
        r@.map_values(|p: [u8; 20]| p@) == split_pieces(raw@),
{
    let n = raw.len() / 20;
    let mut pieces: Vec<[u8; 20]> = Vec::new();
    let mut i: usize = 0;
    while i < n
        invariant
            i <= n,
            n == raw@.len() / 20,
            raw@.len() % 20 == 0,
            pieces@.len() == i,
            forall|j: int|
                0 <= j < i ==> (#[trigger] pieces@[j])@ == raw@.subrange(20 * j, 20 * j + 20),
        decreases n - i,
    {
        proof {
            vstd::arithmetic::div_mod::lemma_fundamental_div_mod(raw@.len() as int, 20);
        }
        assert(raw@.len() == raw.len());
        assert(20 * i + 20 <= raw@.len());
        let chunk = array20(&raw[20 * i..20 * i + 20]);
        pieces.push(chunk);
        i = i + 1;
    }
    assert(pieces@.map_values(|p: [u8; 20]| p@) =~= split_pieces(raw@));
    pieces
}

fn parse_files_field(info_value: &BencodeValue, name: &String) -> (r: Result<Vec<TorrentFile>, BError>)
    ensures
        match files_field_spec(info_value@, name@) {
            Ok(fs) => r matches Ok(x) && files_view(x@) == fs,
            Err(e) => r matches Err(x) && meta_reports(x, e),
        },
{
    match info_value.dict_get_int(KEY_LENGTH.as_slice()) {
        Some(length) => {
            if length < 0 {
                return Err(BError::InvalidTorrent("negative file length".to_string()));
            }
            let f = TorrentFile { path: vec![name.clone()], length: length as usize };
            let v = vec![f];
            proof {
                assert(f@.path =~= seq![name@]);
                assert(files_view(v@) =~= seq![f@]);
            }
            Ok(v)
        },
        None => match info_value.dict_get(KEY_FILES.as_slice()) {
            Some(files_list) => parse_files_list(files_list),
            None => Err(BError::NoFiles),
        },
    }
}

fn sum_file_lengths(files: &Vec<TorrentFile>) -> (r: Option<usize>)
    ensures
        sum_lengths(files_view(files@)) <= usize::MAX ==> r == Some(
            sum_lengths(files_view(files@)) as usize,
        ),
        sum_lengths(files_view(files@)) > usize::MAX ==> r is None,
{
    let ghost fsv = files_view(files@);
    let mut total: usize = 0;
    let mut k: usize = 0;
    assert(fsv.take(0) =~= Seq::<FileView>::empty());
    while k < files.len()
        invariant
            k <= files@.len(),
            fsv == files_view(files@),
            fsv.len() == files@.len(),
            total == sum_lengths(fsv.take(k as int)),
        decreases files@.len() - k,
    {
        assert(fsv.take(k + 1).drop_last() =~= fsv.take(k as int));
        assert(fsv[k as int] == files@[k as int]@);
        match total.checked_add(files[k].length) {
            Some(t) => {
                total = t;
            },
            None => {
                proof {
                    lemma_sum_lengths_prefix(fsv, k + 1, fsv.len() as int);
                    assert(fsv.take(fsv.len() as int) =~= fsv);
                }
                return None;
            },
        }
        k = k + 1;
    }
    assert(fsv.take(k as int) =~= fsv);
    Some(total)
}

#[verifier::rlimit(80)]
fn finish_info(
    info_value: &BencodeValue,
    piece_length: usize,
    pieces_raw: &[u8],
    raw_bytes: Vec<u8>,
) -> (r: Result<InfoDict, BError>)
    requires
        piece_length > 0,
        pieces_raw@.len() % 20 == 0,
    ensures
        match info_named_spec(info_value@, piece_length as nat, pieces_raw@, raw_bytes@) {
            Ok(v) => r matches Ok(x) && x@ == v,
            Err(e) => r matches Err(x) && meta_reports(x, e),
        },
        r matches Ok(x) ==> info_wf(x@),
{
    let pieces = split_piece_hashes(pieces_raw);
    let name = match info_value.dict_get_str(KEY_NAME.as_slice()) {
        Some(s) => s,
        None => {
            return Err(BError::InvalidTorrent("missing 'name'".to_string()));
        },
    };
    let files = match parse_files_field(info_value, &name) {
        Ok(fs) => fs,
        Err(e) => {
            return Err(e);
        },
    };
    let total = match sum_file_lengths(&files) {
        Some(t) => t,
        None => {
            return Err(BError::InvalidTorrent("total length overflows".to_string()));
        },
    };
    proof {
        lemma_piece_count(total as nat, piece_length as nat);
        assert(pieces@.map_values(|p: [u8; 20]| p@).len() == pieces@.len());
    }
    let q = total / piece_length;
    proof {
        vstd::arithmetic::div_mod::lemma_fundamental_div_mod(total as int, piece_length as int);
        assert(q <= q * piece_length) by (nonlinear_arith)
            requires
                piece_length >= 1,
        ;
        assert(q * piece_length == piece_length * q) by (nonlinear_arith);
    }
    let expected = if total % piece_length != 0 {
        q + 1
    } else {
        q
    };
    if pieces.len() != expected {
        return Err(BError::InvalidTorrent("piece count mismatch".to_string()));
    }
    Ok(
        InfoDict {
            piece_length,
            pieces,
            name,
            files,
            total_length: total,
            raw_info_bytes: raw_bytes,
        },
    )
}

#[verifier::rlimit(40)]
fn parse_info_dict(info_value: &BencodeValue, raw_bytes: Vec<u8>) -> (r: Result<InfoDict, BError>)
    ensures
        match info_spec(info_value@, raw_bytes@) {
            Ok(v) => r matches Ok(x) && x@ == v,
            Err(e) => r matches Err(x) && meta_reports(x, e),
        },
        r matches Ok(x) ==> info_wf(x@),
{
    let piece_length = match info_value.dict_get_int(KEY_PIECE_LENGTH.as_slice()) {
        Some(pl) => pl,
        None => {
            return Err(BError::InvalidTorrent("missing 'piece length'".to_string()));
        },
    };
    if piece_length <= 0 || piece_length as usize == 0 {
        return Err(BError::InvalidPieceLength(piece_length));
    }
    let pieces_raw = match info_value.dict_get_bytes(KEY_PIECES.as_slice()) {
        Some(b) => b,
        None => {
            return Err(BError::MissingPieces);
        },
    };
    if pieces_raw.len() % 20 != 0 {
        return Err(BError::InvalidPiecesLength(pieces_raw.len()));
    }
    finish_info(info_value, piece_length as usize, pieces_raw, raw_bytes)
}

impl Metainfo {
    /// Reads a torrent file.
    pub fn from_bytes(data: &[u8]) -> (r: Result<Self, BError>)
        ensures
            match metainfo_spec(data@) {
                Ok(v) => r matches Ok(m) && m@ == v,
                Err(e) => r matches Err(x) && meta_reports(x, e),
            },
            r matches Ok(m) ==> m@.wf(),
    {
        let (root, end) = match BencodeValue::decode(data) {
            Ok(d) => d,
            Err(e) => {
                return Err(e);
            },
        };
        let info_value = match root.dict_get(KEY_INFO.as_slice()) {
            Some(v) => v,
            None => {
                return Err(BError::MissingInfoDict);
            },
        };
        proof {
            lemma_top_level_value_span(data@, KEY_INFO@, root@, end as int, info_value@);
        }
        let raw_info_bytes = match extract_raw_info(data) {
            Some(raw) => raw,
            None => {
                return Err(BError::InvalidTorrent("cannot find 'info' key in torrent file".to_string()));
            },
        };
        let info_hash = InfoHash::from_bytes(sha1_digest(raw_info_bytes.as_slice()));
        let info = match parse_info_dict(info_value, raw_info_bytes) {
            Ok(i) => i,
            Err(e) => {
                return Err(e);
            },
        };
        let announce = root.dict_get_str(KEY_ANNOUNCE.as_slice());
        let announce_list = parse_announce_list(&root);
        let creation_date = root.dict_get_int(KEY_CREATION_DATE.as_slice());
        let created_by = root.dict_get_str(KEY_CREATED_BY.as_slice());
        let encoding = root.dict_get_str(KEY_ENCODING.as_slice());
        let comment = root.dict_get_str(KEY_COMMENT.as_slice());
        Ok(
            Metainfo {
                announce,
                announce_list,
                creation_date,
                created_by,
                encoding,
                comment,
                info,
                info_hash,
            },
        )
    }
}

// ---------------------------------------------------------------------------
// Pieces, blocks and trackers

impl MetainfoView {
    /// What every torrent read by `Metainfo::from_bytes` satisfies.
    pub open spec fn wf(self) -> bool {
        info_wf(self.info)
    }

    /// The length of the last piece: the remainder, or a whole piece.
    pub open spec fn last_piece_length(self) -> nat {
        if self.info.total_length % self.info.piece_length == 0 {
            self.info.piece_length
        } else {
            self.info.total_length % self.info.piece_length
        }
    }

    /// The length of piece `index`: the last piece may be shorter.
    pub open spec fn piece_length_for(self, index: int) -> nat {
        if index == (if self.info.pieces.len() == 0 { 0 } else { self.info.pieces.len() - 1 }) {
            self.last_piece_length()
        } else {
            self.info.piece_length
        }
    }

    /// The length of the block at `begin` in piece `index`: what is left of
    /// the piece from `begin` (its length taken as a `u32`), at most one
    /// block.
    pub open spec fn block_length_for(self, index: int, begin: u32) -> u32 {
        let piece_len = self.piece_length_for(index) as u32;
        let remaining = if piece_len >= begin {
            (piece_len - begin) as u32
        } else {
            0u32
        };
        if remaining < BLOCK_LEN {
            remaining
        } else {
            BLOCK_LEN
        }
    }
}

/// A positive piece length, one digest per piece, and a total length that
/// is the sum of the file lengths.
pub open spec fn info_wf(info: InfoView) -> bool {
    &&& info.piece_length > 0
    &&& info.pieces.len() == piece_count_for(info.total_length, info.piece_length)
    &&& info.total_length == sum_lengths(info.files)
}

/// `acc` with `u` added at the end, unless it is there already.
pub open spec fn push_new(acc: Seq<Seq<char>>, u: Seq<char>) -> Seq<Seq<char>> {
    if acc.contains(u) {
        acc
    } else {
        acc.push(u)
    }
}

/// `acc` with each of `us` added in turn, unless it is there already.
pub open spec fn push_all_new(acc: Seq<Seq<char>>, us: Seq<Seq<char>>) -> Seq<Seq<char>>
    decreases us.len(),
{
    if us.len() == 0 {
        acc
    } else {
        push_all_new(push_new(acc, us[0]), us.drop_first())
    }
}

/// `acc` with the urls of each tier added in turn, unless there already.
pub open spec fn push_tiers(acc: Seq<Seq<char>>, tiers: Seq<Seq<Seq<char>>>) -> Seq<Seq<char>>
    decreases tiers.len(),
{
    if tiers.len() == 0 {
        acc
    } else {
        push_tiers(push_all_new(acc, tiers[0]), tiers.drop_first())
    }
}

/// Every tracker url, `announce` first, each once, in order of first mention.
pub open spec fn tracker_urls_spec(m: MetainfoView) -> Seq<Seq<char>> {
    let start = match m.announce {
        Some(a) => seq![a],
        None => Seq::empty(),
    };
    match m.announce_list {
        Some(tiers) => push_tiers(start, tiers),
        None => start,
    }
}

/// Every tracker url that the torrent names, as often as it names it:
/// `announce`, then the urls of each tier of `announce-list` in turn.
pub open spec fn mentioned_urls(m: MetainfoView) -> Seq<Seq<char>> {
    let start = match m.announce {
        Some(a) => seq![a],
        None => Seq::empty(),
    };
    match m.announce_list {
        Some(tiers) => start + tiers.flatten(),
        None => start,
    }
}

/// Every mention of `y` in `f` comes after a mention of `x`.
pub open spec fn mentioned_before(f: Seq<Seq<char>>, x: Seq<char>, y: Seq<char>) -> bool {
    forall|q: int| 0 <= q < f.len() && #[trigger] f[q] == y ==> exists|p: int| 0 <= p < q && #[trigger] f[p] == x
}

/// `r` holds each url of `f` exactly once, and no other, in the order in
/// which `f` first mentions them.
pub open spec fn first_mentions(r: Seq<Seq<char>>, f: Seq<Seq<char>>) -> bool {
    &&& forall|i: int, j: int| 0 <= i < j < r.len() ==> #[trigger] r[i] != #[trigger] r[j]
    &&& forall|x: Seq<char>| #[trigger] r.contains(x) <==> f.contains(x)
    &&& forall|i: int, j: int| 0 <= i < j < r.len() ==> mentioned_before(f, #[trigger] r[i], #[trigger] r[j])
}

proof fn lemma_push_contains(g: Seq<Seq<char>>, u: Seq<char>, x: Seq<char>)
    ensures
        g.push(u).contains(x) <==> (g.contains(x) || x == u),
{
    let f = g.push(u);
    if f.contains(x) {
        let k = choose|k: int| 0 <= k < f.len() && f[k] == x;
        if k < g.len() {
            assert(g[k] == x);
        }
    }
    if g.contains(x) {
        let k = choose|k: int| 0 <= k < g.len() && g[k] == x;
        assert(f[k] == x);
    }
    if x == u {
        assert(f[g.len() as int] == x);
    }
}

/// A mention added at the end keeps `x` before `y` where `x` was mentioned
/// already and the new mention is not of `y`, or is of `y` for the first time.
proof fn lemma_before_push(g: Seq<Seq<char>>, u: Seq<char>, x: Seq<char>, y: Seq<char>)
    requires
        g.contains(x),
        mentioned_before(g, x, y),
    ensures
        mentioned_before(g.push(u), x, y),
{
    let f = g.push(u);
    assert forall|q: int| 0 <= q < f.len() && #[trigger] f[q] == y implies exists|p: int|
        0 <= p < q && #[trigger] f[p] == x by {
        if q < g.len() {
            assert(g[q] == y);
            let p = choose|p: int| 0 <= p < q && #[trigger] g[p] == x;
            assert(f[p] == x);
        } else {
            let p = choose|p: int| 0 <= p < g.len() && g[p] == x;
            assert(f[p] == x);
        }
    }
}

proof fn lemma_push_new_mentions(acc: Seq<Seq<char>>, g: Seq<Seq<char>>, u: Seq<char>)
    requires
        first_mentions(acc, g),
    ensures
        first_mentions(push_new(acc, u), g.push(u)),
{
    let r = push_new(acc, u);
    let f = g.push(u);
    assert forall|x: Seq<char>| #[trigger] r.contains(x) <==> f.contains(x) by {
        lemma_push_contains(g, u, x);
        lemma_push_contains(acc, u, x);
        assert(acc.contains(x) <==> g.contains(x));
    }
    assert forall|i: int, j: int| 0 <= i < j < r.len() implies #[trigger] r[i] != #[trigger] r[j] by {
        if !acc.contains(u) && j == acc.len() {
            assert(acc.contains(acc[i]));
        } else {
            assert(r[i] == acc[i] && r[j] == acc[j]);
        }
    }
    assert forall|i: int, j: int| 0 <= i < j < r.len() implies mentioned_before(f, #[trigger] r[i], #[trigger] r[j]) by {
        assert(r[i] == acc[i]);
        assert(acc.contains(acc[i]));
        assert(g.contains(r[i]));
        if !acc.contains(u) && j == acc.len() {
            assert(!g.contains(u));
            assert(mentioned_before(g, r[i], u)) by {
                assert forall|q: int| 0 <= q < g.len() && #[trigger] g[q] == u implies exists|p: int|
                    0 <= p < q && #[trigger] g[p] == r[i] by {
                    assert(g.contains(u));
                }
            }
            lemma_before_push(g, u, r[i], u);
        } else {
            assert(r[j] == acc[j]);
            assert(mentioned_before(g, acc[i], acc[j]));
            lemma_before_push(g, u, r[i], r[j]);
        }
    }
}

proof fn lemma_push_all_new_mentions(acc: Seq<Seq<char>>, g: Seq<Seq<char>>, us: Seq<Seq<char>>)
    requires
        first_mentions(acc, g),
    ensures
        first_mentions(push_all_new(acc, us), g + us),
    decreases us.len(),
{
    if us.len() == 0 {
        assert(g + us =~= g);
    } else {
        lemma_push_new_mentions(acc, g, us[0]);
        lemma_push_all_new_mentions(push_new(acc, us[0]), g.push(us[0]), us.drop_first());
        assert(g.push(us[0]) + us.drop_first() =~= g + us);
    }
}

proof fn lemma_push_tiers_mentions(acc: Seq<Seq<char>>, g: Seq<Seq<char>>, tiers: Seq<Seq<Seq<char>>>)
    requires
        first_mentions(acc, g),
    ensures
        first_mentions(push_tiers(acc, tiers), g + tiers.flatten()),
    decreases tiers.len(),
{
    if tiers.len() == 0 {
        assert(g + tiers.flatten() =~= g);
    } else {
        lemma_push_all_new_mentions(acc, g, tiers[0]);
        lemma_push_tiers_mentions(push_all_new(acc, tiers[0]), g + tiers[0], tiers.drop_first());
        assert((g + tiers[0]) + tiers.drop_first().flatten() =~= g + tiers.flatten());
    }
}

/// The tracker urls of a torrent are each url that it names, once, in the
/// order in which it first names them: `announce` first, then the urls of
/// the tiers of `announce-list`, a url that comes again left out.
pub proof fn lemma_tracker_urls(m: MetainfoView)
    ensures
        first_mentions(tracker_urls_spec(m), mentioned_urls(m)),
{
    let start = match m.announce {
        Some(a) => seq![a],
        None => Seq::<Seq<char>>::empty(),
    };
    assert(first_mentions(start, start));
    match m.announce_list {
        Some(tiers) => lemma_push_tiers_mentions(start, start, tiers),
        None => {},
    }
}

fn contains_string(v: &Vec<String>, s: &String) -> (r: bool)
    ensures
        r == strings_view(v@).contains(s@),
{
    let mut k: usize = 0;
    while k < v.len()
        invariant
            k <= v@.len(),
            forall|j: int| 0 <= j < k ==> v@[j]@ != s@,
        decreases v@.len() - k,
    {
        if v[k] == *s {
            assert(strings_view(v@)[k as int] == s@);
            return true;
        }
        k = k + 1;
    }
    assert(!strings_view(v@).contains(s@)) by {
        if strings_view(v@).contains(s@) {
            let j = choose|j: int| 0 <= j < strings_view(v@).len() && strings_view(v@)[j] == s@;
            assert(v@[j]@ == s@);
        }
    }
    false
}

impl Metainfo {
    pub fn piece_count(&self) -> (r: usize)
        ensures
            r == self@.info.pieces.len(),
    {
        self.info.pieces.len()
    }

    /// The digest of piece `index`, if there is such a piece.
    pub fn piece_hash(&self, index: usize) -> (r: Option<&[u8; 20]>)
        ensures
            index < self@.info.pieces.len() ==> (r matches Some(h) && h@ == self@.info.pieces[index as int]),
            index >= self@.info.pieces.len() ==> r is None,
    {
        if index < self.info.pieces.len() {
            Some(&self.info.pieces[index])
        } else {
            None
        }
    }

    pub fn last_piece_length(&self) -> (r: usize)
        requires
            self@.info.piece_length > 0,
        ensures
            r == self@.last_piece_length(),
    {
        let remainder = self.info.total_length % self.info.piece_length;
        if remainder == 0 {
            self.info.piece_length
        } else {
            remainder
        }
    }

    pub fn piece_length_for(&self, index: usize) -> (r: usize)
        requires
            self@.info.piece_length > 0,
        ensures
            r == self@.piece_length_for(index as int),
    {
        let count = self.piece_count();
        let last = if count == 0 {
            0
        } else {
            count - 1
        };
        if index == last {
            self.last_piece_length()
        } else {
            self.info.piece_length
        }
    }

    pub fn block_length_for(&self, index: usize, begin: u32) -> (r: u32)
        requires
            self@.info.piece_length > 0,
        ensures
            r == self@.block_length_for(index as int, begin),
    {
        let piece_len = self.piece_length_for(index) as u32;
        let remaining = if piece_len >= begin {
            piece_len - begin
        } else {
            0
        };
        if remaining < BLOCK_LEN {
            remaining
        } else {
            BLOCK_LEN
        }
    }

    /// Every tracker url, `announce` first, each once, in order of first mention.
    pub fn all_tracker_urls(&self) -> (r: Vec<String>)
        ensures
            strings_view(r@) == tracker_urls_spec(self@),
            first_mentions(strings_view(r@), mentioned_urls(self@)),
    {
        proof {
            lemma_tracker_urls(self@);
        }
        let mut urls: Vec<String> = Vec::new();
        if let Some(a) = &self.announce {
            urls.push(a.clone());
        }
        let ghost start = strings_view(urls@);
        assert(start =~= match self@.announce {
            Some(a) => seq![a],
            None => Seq::<Seq<char>>::empty(),
        });
        if let Some(tiers) = &self.announce_list {
            let ghost tv = tiers_view(tiers@);
            let mut i: usize = 0;
            assert(tv.skip(0) =~= tv);
            while i < tiers.len()
                invariant
                    i <= tiers@.len(),
                    tv == tiers_view(tiers@),
                    tv.len() == tiers@.len(),
                    push_tiers(start, tv) == push_tiers(strings_view(urls@), tv.skip(i as int)),
                decreases tiers@.len() - i,
            {
                let tier = &tiers[i];
                let ghost t = strings_view(tier@);
                assert(tv[i as int] == t);
                assert(tv.skip(i as int).drop_first() =~= tv.skip(i + 1));
                assert(t.skip(0) =~= t);
                let mut j: usize = 0;
                while j < tier.len()
                    invariant
                        j <= tier@.len(),
                        t == strings_view(tier@),
                        t.len() == tier@.len(),
                        push_tiers(start, tv) == push_tiers(
                            push_all_new(strings_view(urls@), t.skip(j as int)),
                            tv.skip(i + 1),
                        ),
                    decreases tier@.len() - j,
                {
                    let url = &tier[j];
                    assert(t[j as int] == url@);
                    assert(t.skip(j as int).drop_first() =~= t.skip(j + 1));
                    let ghost before = strings_view(urls@);
                    if !contains_string(&urls, url) {
                        urls.push(url.clone());
                        assert(strings_view(urls@) =~= before.push(url@));
                    }
                    j = j + 1;
                }
                assert(t.skip(j as int) =~= Seq::<Seq<char>>::empty());
                i = i + 1;
            }
            assert(tv.skip(i as int) =~= Seq::<Seq<Seq<char>>>::empty());
        }
        urls
    }

    pub fn is_single_file(&self) -> (r: bool)
        ensures
            r == (self@.info.files.len() == 1),
    {
        self.info.files.len() == 1
    }

    pub fn is_multi_file(&self) -> (r: bool)
        ensures
            r == (self@.info.files.len() > 1),
    {
        self.info.files.len() > 1
    }
}

/// The pieces cover the torrent exactly: every piece but the last is a
/// whole piece long, and the last holds what is left.
pub proof fn lemma_pieces_cover_total(m: MetainfoView)
    requires
        m.wf(),
        m.info.total_length > 0,
    ensures
        m.info.pieces.len() >= 1,
        (m.info.pieces.len() - 1) * m.info.piece_length + m.last_piece_length()
            == m.info.total_length,
        forall|i: int| 0 <= i < m.info.pieces.len() - 1 ==> #[trigger] m.piece_length_for(i) == m.info.piece_length,
        m.piece_length_for(m.info.pieces.len() - 1) == m.last_piece_length(),
{
    let t = m.info.total_length as int;
    let pl = m.info.piece_length as int;
    let q = t / pl;
    let r = t % pl;
    vstd::arithmetic::div_mod::lemma_fundamental_div_mod(t, pl);
    assert(t == q * pl + r) by (nonlinear_arith)
        requires
            t == pl * q + r,
    ;
    lemma_piece_count(m.info.total_length, m.info.piece_length);
    if r == 0 {
        assert(q >= 1) by (nonlinear_arith)
            requires
                t == q * pl,
                t > 0,
                pl > 0,
        ;
        assert((q - 1) * pl + pl == q * pl) by (nonlinear_arith);
    } else {
        assert(q >= 0) by (nonlinear_arith)
            requires
                t >= 0,
                pl > 0,
                q == t / pl,
        ;
    }
}

/// The lengths of the first `n` pieces, added up.
pub open spec fn lengths_below(m: MetainfoView, n: int) -> nat
    decreases n,
{
    if n <= 0 {
        0
    } else {
        lengths_below(m, n - 1) + m.piece_length_for(n - 1)
    }
}

proof fn lemma_whole_pieces_sum(m: MetainfoView, k: int)
    requires
        m.wf(),
        m.info.total_length > 0,
        0 <= k <= m.info.pieces.len() - 1,
    ensures
        lengths_below(m, k) == k * m.info.piece_length,
    decreases k,
{
    if k > 0 {
        lemma_whole_pieces_sum(m, k - 1);
        lemma_pieces_cover_total(m);
        assert(m.piece_length_for(k - 1) == m.info.piece_length);
        assert((k - 1) * m.info.piece_length + m.info.piece_length == k * m.info.piece_length)
            by (nonlinear_arith);
        assert(lengths_below(m, k) == lengths_below(m, k - 1) + m.piece_length_for(k - 1));
    } else {
        assert(0 * m.info.piece_length == 0) by (nonlinear_arith);
    }
}

/// The lengths of all the pieces add up to the length of the torrent.
pub proof fn lemma_piece_lengths_sum(m: MetainfoView)
    requires
        m.wf(),
    ensures
        lengths_below(m, m.info.pieces.len() as int) == m.info.total_length,
{
    if m.info.total_length > 0 {
        lemma_pieces_cover_total(m);
        let n = m.info.pieces.len() as int;
        lemma_whole_pieces_sum(m, n - 1);
    } else {
        lemma_piece_count(m.info.total_length, m.info.piece_length);
    }
}

// ---------------------------------------------------------------------------
// Display

/// The size in MiB, in hundredths, rounded to the nearest and to even on a
/// tie, as `{:.2}` prints the exact quotient.
pub open spec fn mib_hundredths(total: nat) -> nat {
    let x = total * 100;
    let q = x / 1048576;
    let r = x % 1048576;
    if r > 524288 || (r == 524288 && q % 2 == 1) {
        q + 1
    } else {
        q
    }
}

/// Two decimal digits of `n`, which is below 100.
pub open spec fn two_digits(n: nat) -> Seq<u8> {
    seq![(48 + n / 10) as u8, (48 + n % 10) as u8]
}

/// The size in MiB with two decimals.
pub open spec fn mib_text(total: nat) -> Seq<char> {
    let h = mib_hundredths(total);
    ascii_text(nat_digits(h / 100)) + "."@ + ascii_text(two_digits(h % 100))
}

/// The segments of a path joined by `/`.
pub open spec fn join_path(segs: Seq<Seq<char>>) -> Seq<char>
    decreases segs.len(),
{
    if segs.len() == 0 {
        Seq::empty()
    } else if segs.len() == 1 {
        segs[0]
    } else {
        join_path(segs.drop_last()) + "/"@ + segs.last()
    }
}

/// The lines that list the files.
pub open spec fn files_text(fs: Seq<FileView>) -> Seq<char>
    decreases fs.len(),
{
    if fs.len() == 0 {
        Seq::empty()
    } else {
        files_text(fs.drop_last()) + "    "@ + join_path(fs.last().path) + " ("@ + ascii_text(
            nat_digits(fs.last().length),
        ) + " bytes)\n"@
    }
}

/// What a torrent is displayed as.
pub open spec fn display_spec(m: MetainfoView) -> Seq<char> {
    "Torrent: "@ + m.info.name + "\n  info_hash: "@ + hex_encode_spec(m.info_hash).map_values(
        |c: u8| c as char,
    ) + "\n  piece_length: "@ + ascii_text(nat_digits(m.info.piece_length)) + " bytes\n  piece_count:  "@
        + ascii_text(nat_digits(m.info.pieces.len())) + "\n  total_length: "@ + ascii_text(
        nat_digits(m.info.total_length),
    ) + " bytes ("@ + mib_text(m.info.total_length) + " MiB)\n"@ + match m.announce {
        Some(a) => "  announce: "@ + a + "\n"@,
        None => Seq::empty(),
    } + "  files ("@ + ascii_text(nat_digits(m.info.files.len())) + "):\n"@ + files_text(
        m.info.files,
    )
}

fn mib_string(total: usize) -> (r: String)
    ensures
        r@ == mib_text(total as nat),
{
    let x: u128 = total as u128 * 100;
    let q: u128 = x / 1048576;
    let rem: u128 = x % 1048576;
    let h: u128 = if rem > 524288 || (rem == 524288 && q % 2 == 1) {
        q + 1
    } else {
        q
    };
    assert(h <= 0xffff_ffff_ffff_ffff_ffff) by (nonlinear_arith)
        requires
            x == total * 100,
            total <= 0xffff_ffff_ffff_ffff,
            q == x / 1048576,
            h <= q + 1,
    ;
    let whole = decimal_string((h / 100) as u64);
    let with_dot = whole.concat(".");
    let tens = (48 + (h % 100) / 10) as u8;
    let ones = (48 + (h % 100) % 10) as u8;
    let frac = ascii_string(vec![tens, ones]);
    let r = with_dot.concat(frac.as_str());
    assert(r@ =~= mib_text(total as nat));
    r
}

/// The segments of a path joined by `/`.
pub fn join_path_string(segs: &Vec<String>) -> (r: String)
    ensures
        r@ == join_path(strings_view(segs@)),
{
    let ghost sv = strings_view(segs@);
    let mut out = String::new();
    let mut i: usize = 0;
    assert(sv.take(0) =~= Seq::<Seq<char>>::empty());
    while i < segs.len()
        invariant
            i <= segs@.len(),
            sv == strings_view(segs@),
            sv.len() == segs@.len(),
            out@ == join_path(sv.take(i as int)),
        decreases segs@.len() - i,
    {
        assert(sv.take(i + 1).drop_last() =~= sv.take(i as int));
        assert(sv[i as int] == segs@[i as int]@);
        if i == 0 {
            out.append(segs[i].as_str());
            assert(out@ =~= join_path(sv.take(1)));
        } else {
            out.append("/");
            out.append(segs[i].as_str());
            assert(out@ =~= join_path(sv.take(i + 1)));
        }
        i = i + 1;
    }
    assert(sv.take(i as int) =~= sv);
    out
}

impl Metainfo {
    /// The torrent as it is displayed: name, info hash, piece and size
    /// figures, the announce url and the files.
    pub fn display_string(&self) -> (r: String)
        ensures
            r@ == display_spec(self@),
    {
        let mut out = "Torrent: ".to_string();
        out.append(self.info.name.as_str());
        out.append("\n  info_hash: ");
        let hex = crate::extern_calls::hex_encode(self.info_hash.as_slice());
        out.append(hex.as_str());
        out.append("\n  piece_length: ");
        let pl = decimal_string(self.info.piece_length as u64);
        out.append(pl.as_str());
        out.append(" bytes\n  piece_count:  ");
        let pc = decimal_string(self.info.pieces.len() as u64);
        out.append(pc.as_str());
        out.append("\n  total_length: ");
        let tl = decimal_string(self.info.total_length as u64);
        out.append(tl.as_str());
        out.append(" bytes (");
        let mib = mib_string(self.info.total_length);
        out.append(mib.as_str());
        out.append(" MiB)\n");
        let ghost head = out@;
        if let Some(a) = &self.announce {
            out.append("  announce: ");
            out.append(a.as_str());
            out.append("\n");
        }
        out.append("  files (");
        let nf = decimal_string(self.info.files.len() as u64);
        out.append(nf.as_str());
        out.append("):\n");
        let ghost prefix = out@;
        let ghost fsv = files_view(self.info.files@);
        let mut k: usize = 0;
        assert(fsv.take(0) =~= Seq::<FileView>::empty());
        assert(prefix =~= prefix + files_text(fsv.take(0)));
        while k < self.info.files.len()
            invariant
                k <= self.info.files@.len(),
                fsv == files_view(self.info.files@),
                fsv.len() == self.info.files@.len(),
                out@ == prefix + files_text(fsv.take(k as int)),
            decreases self.info.files@.len() - k,
        {
            let f = &self.info.files[k];
            assert(fsv.take(k + 1).drop_last() =~= fsv.take(k as int));
            assert(fsv[k as int] == f@);
            out.append("    ");
            let p = join_path_string(&f.path);
            out.append(p.as_str());
            out.append(" (");
            let len = decimal_string(f.length as u64);
            out.append(len.as_str());
            out.append(" bytes)\n");
            assert(out@ =~= prefix + files_text(fsv.take(k + 1)));
            k = k + 1;
        }
        assert(fsv.take(k as int) =~= fsv);
        assert(out@ =~= display_spec(self@));
        out
    }
}

} // verus!
