//! The bookkeeping of a store that writes pieces into the torrent's files:
//! the layout, the check that a piece matches its digest before it is
//! written, and which pieces have been written.

use vstd::prelude::*;

use crate::error::BError;
use crate::extern_calls::{sha1_digest, sha1_spec};
use crate::metainfo::{strings_view, Metainfo, MetainfoView};
use crate::storage::assembler::{file_info_view, files_spec, layout_of, FileAssembler, PieceFileInfo};
use crate::text::{decimal_string, decimal_text};
use crate::types::same_20;

verus! {

/// The content of a store.
pub struct StoreView {
    pub meta: MetainfoView,
    pub written: Set<u32>,
}

/// The pieces of a torrent, laid out in its files.
pub struct PieceStore {
    metainfo: Metainfo,
    assembler: FileAssembler,
    written: Vec<u32>,
}

impl PieceStore {
    /// The layout is that of the torrent.
    #[verifier::type_invariant]
    spec fn layout_matches(self) -> bool {
        layout_of(self.assembler, self.metainfo@)
    }
}

impl View for PieceStore {
    type V = StoreView;

    closed spec fn view(&self) -> StoreView {
        StoreView { meta: self.metainfo@, written: Set::new(|x: u32| self.written@.contains(x)) }
    }
}

/// The bytes of a block: `length` bytes of `piece` from `begin`, or fewer
/// where the piece ends first.
pub open spec fn block_spec(piece: Seq<u8>, begin: u32, length: u32) -> Seq<u8> {
    let end = if begin + length < piece.len() {
        begin + length
    } else {
        piece.len() as int
    };
    piece.subrange(begin as int, end)
}

/// The store after `mark_written` of each of `indexes` in turn.
pub open spec fn after_writes(v: StoreView, indexes: Seq<u32>) -> StoreView
    decreases indexes.len(),
{
    if indexes.len() == 0 {
        v
    } else {
        after_writes(StoreView { written: v.written.insert(indexes[0]), ..v }, indexes.drop_first())
    }
}

/// After any sequence of writes, a piece is written exactly where it was
/// before or is one of those written; the torrent is unchanged.
pub proof fn lemma_after_writes(v: StoreView, indexes: Seq<u32>)
    ensures
        after_writes(v, indexes).meta == v.meta,
        forall|x: u32| #[trigger] after_writes(v, indexes).written.contains(x) == (v.written.contains(x)
            || indexes.contains(x)),
    decreases indexes.len(),
{
    if indexes.len() > 0 {
        let next = StoreView { written: v.written.insert(indexes[0]), ..v };
        let rest = indexes.drop_first();
        lemma_after_writes(next, rest);
        assert forall|x: u32| #[trigger] after_writes(v, indexes).written.contains(x) == (v.written.contains(x)
            || indexes.contains(x)) by {
            if rest.contains(x) {
                let k = choose|k: int| 0 <= k < rest.len() && rest[k] == x;
                assert(indexes[k + 1] == x);
            }
            if indexes.contains(x) && x != indexes[0] {
                let k = choose|k: int| 0 <= k < indexes.len() && indexes[k] == x;
                assert(k > 0);
                assert(rest[k - 1] == x);
            }
            if x == indexes[0] {
                assert(indexes.contains(x)) by {
                    assert(indexes[0] == x);
                }
            }
        }
    }
}

impl PieceStore {
    /// A store for `metainfo` in which nothing is written yet. The output
    /// directory is not looked at: paths are relative to it.
    pub fn new<P: ?Sized>(metainfo: Metainfo, output_dir: &P) -> (r: Self)
        requires
            metainfo@.wf(),
            metainfo@.info.total_length + metainfo@.info.piece_length <= u64::MAX,
        ensures
            r@.meta == metainfo@,
            r@.written == Set::<u32>::empty(),
    {
        let assembler = FileAssembler::new(&metainfo, output_dir);
        let r = PieceStore { metainfo, assembler, written: Vec::new() };
        assert(r@.written =~= Set::<u32>::empty());
        r
    }

    /// Like `new`, for files that exist already.
    pub fn open_existing<P: ?Sized>(metainfo: Metainfo, output_dir: &P) -> (r: Self)
        requires
            metainfo@.wf(),
            metainfo@.info.total_length + metainfo@.info.piece_length <= u64::MAX,
        ensures
            r@.meta == metainfo@,
            r@.written == Set::<u32>::empty(),
    {
        Self::new(metainfo, output_dir)
    }

    /// Where the pieces lie.
    pub fn assembler(&self) -> (r: &FileAssembler)
        ensures
            layout_of(*r, self@.meta),
    {
        proof {
            use_type_invariant(self);
        }
        &self.assembler
    }

    /// The torrent.
    pub fn metainfo(&self) -> (r: &Metainfo)
        ensures
            r@ == self@.meta,
    {
        &self.metainfo
    }

    /// Checks that `data` is piece `index` before it is written.
    pub fn check_piece(&self, index: u32, data: &[u8]) -> (r: Result<(), BError>)
        ensures
            r is Ok <==> (index < self@.meta.info.pieces.len() && sha1_spec(data@)
                == self@.meta.info.pieces[index as int]),
            r matches Err(e) ==> e matches BError::Session(s) && s@ == if index
                < self@.meta.info.pieces.len() {
                "SHA1 mismatch for piece "@ + decimal_text(index as nat)
            } else {
                "no hash for piece "@ + decimal_text(index as nat)
            },
    {
        let expected = match self.metainfo.piece_hash(index as usize) {
            Some(h) => h,
            None => {
                return Err(
                    BError::Session(
                        "no hash for piece ".to_string().concat(decimal_string(index as u64).as_str()),
                    ),
                );
            },
        };
        let actual = sha1_digest(data);
        if !same_20(&actual, expected) {
            return Err(
                BError::Session(
                    "SHA1 mismatch for piece ".to_string().concat(decimal_string(index as u64).as_str()),
                ),
            );
        }
        Ok(())
    }

    /// Records that piece `index` has been written.
    pub fn mark_written(&mut self, index: u32)
        ensures
            final(self)@ == (StoreView { written: old(self)@.written.insert(index), ..old(self)@ }),
    {
        proof {
            use_type_invariant(&*self);
        }
        if !self.has_piece(index) {
            let mut w: Vec<u32> = Vec::new();
            std::mem::swap(&mut w, &mut self.written);
            let ghost before = w@;
            w.push(index);
            self.written = w;
            proof {
                assert forall|x: u32| #[trigger] self.written@.contains(x) == (before.contains(x) || x == index) by {
                    if before.contains(x) {
                        let k = choose|k: int| 0 <= k < before.len() && before[k] == x;
                        assert(self.written@[k] == x);
                    }
                    if x == index {
                        assert(self.written@[before.len() as int] == index);
                    }
                    if self.written@.contains(x) {
                        let k = choose|k: int| 0 <= k < self.written@.len() && self.written@[k] == x;
                        if k < before.len() {
                            assert(before[k] == x);
                        }
                    }
                }
            }
        }
        assert(self@.written =~= old(self)@.written.insert(index));
    }

    /// The block of a piece read back from the files: `length` bytes of
    /// `piece` from `begin`, or fewer where the piece ends first.
    pub fn read_block(&self, piece: &[u8], begin: u32, length: u32) -> (r: Vec<u8>)
        requires
            begin <= piece@.len(),
        ensures
            r@ == block_spec(piece@, begin, length),
    {
        let wanted = (begin as u64) + (length as u64);
        let end = if wanted < piece.len() as u64 {
            wanted as usize
        } else {
            piece.len()
        };
        crate::bencode::copy_bytes(vstd::slice::slice_subrange(piece, begin as usize, end))
    }

    /// Whether piece `index` has been written.
    pub fn has_piece(&self, index: u32) -> (r: bool)
        ensures
            r == self@.written.contains(index),
    {
        let mut i: usize = 0;
        while i < self.written.len()
            invariant
                i <= self.written@.len(),
                forall|k: int| 0 <= k < i ==> self.written@[k] != index,
            decreases self.written@.len() - i,
        {
            if self.written[i] == index {
                assert(self.written@.contains(index));
                return true;
            }
            i = i + 1;
        }
        false
    }

    /// The path of each file below the output directory, as segments: the
    /// single file's path joined by `/`, or each file's own segments.
    pub fn file_paths(&self) -> (r: Vec<Vec<String>>)
        ensures
            r@.len() == self@.meta.info.files.len(),
            forall|k: int| 0 <= k < r@.len() ==> strings_view((#[trigger] r@[k])@) == files_spec(self@.meta)[k].0,
    {
        proof {
            use_type_invariant(self);
            let fv = self.assembler.files@.map_values(|f: PieceFileInfo| file_info_view(f));
            assert(fv.len() == self.assembler.files@.len());
            if self.assembler.files@.len() == 1 {
                assert(fv[0] == file_info_view(self.assembler.files@[0]));
                assert(files_spec(self.metainfo@)[0].0.len() == 1);
                assert(strings_view(self.assembler.files@[0].path_components@).len() == self.assembler.files@[0].path_components@.len());
            }
        }
        let r = self.assembler.file_paths();
        proof {
            let fv = self.assembler.files@.map_values(|f: PieceFileInfo| file_info_view(f));
            assert forall|k: int| 0 <= k < r@.len() implies strings_view((#[trigger] r@[k])@) == files_spec(self@.meta)[k].0 by {
                assert(fv[k] == file_info_view(self.assembler.files@[k]));
                if self.assembler.files@.len() == 1 {
                    assert(fv[0] == file_info_view(self.assembler.files@[0]));
                }
            }
        }
        r
    }
}

} // verus!
