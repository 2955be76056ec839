//! Where each piece lies in the torrent's files: the files are laid end to
//! end, piece `p` covers bytes `p * piece_length` up to the next piece or
//! the end, and that range is cut where it crosses from one file into the
//! next.

use vstd::prelude::*;

use crate::metainfo::{files_view, join_path, join_path_string, strings_view, Metainfo, MetainfoView};

verus! {

/// A part of a piece that lies in one file.
#[derive(Clone, Debug, PartialEq, Eq)]
pub struct FileSegment {
    /// The file.
    pub file_index: usize,
    /// Where the part starts in the file.
    pub file_offset: u64,
    /// Where the part starts in the piece.
    pub byte_offset: u64,
    /// How long the part is.
    pub length: u64,
}

/// Where a piece lies.
#[derive(Clone, Debug, PartialEq, Eq)]
pub struct PieceLocation {
    /// Where the piece starts in the files laid end to end.
    pub global_offset: u64,
    /// Its parts, in order.
    pub segments: Vec<FileSegment>,
}

/// A file as it is written: its path below the output directory and its
/// length.
#[derive(Clone, Debug, PartialEq, Eq)]
pub struct PieceFileInfo {
    pub path_components: Vec<String>,
    pub length: u64,
}

/// The files of a torrent and where each piece lies in them.
pub struct FileAssembler {
    pub piece_map: Vec<PieceLocation>,
    pub files: Vec<PieceFileInfo>,
}

/// Where file `i` starts: the lengths of the files before it, added up.
pub open spec fn cum_len(lens: Seq<u64>, i: int) -> nat
    decreases i,
{
    if i <= 0 {
        0
    } else {
        cum_len(lens, i - 1) + lens[i - 1] as nat
    }
}

/// The last of the first `n` files that starts at or before `cursor` (the
/// first file if none does).
pub open spec fn file_at(lens: Seq<u64>, cursor: nat, n: int) -> int
    decreases n,
{
    if n <= 1 {
        0
    } else if cum_len(lens, n - 1) <= cursor {
        n - 1
    } else {
        file_at(lens, cursor, n - 1)
    }
}

/// The parts of the `remaining` bytes from `cursor` of the files laid end
/// to end, each in one file; the first starts at `byte_off` in the piece.
pub open spec fn segments_spec(lens: Seq<u64>, cursor: nat, remaining: nat, byte_off: nat) -> Seq<
    FileSegment,
>
    decreases remaining,
{
    if remaining == 0 {
        Seq::empty()
    } else {
        let fi = file_at(lens, cursor, lens.len() as int);
        let fo = cursor - cum_len(lens, fi);
        let avail = lens[fi] - fo;
        let take = if avail < remaining {
            avail
        } else {
            remaining as int
        };
        if take <= 0 || fo < 0 {
            Seq::empty()
        } else {
            seq![
                FileSegment {
                    file_index: fi as usize,
                    file_offset: fo as u64,
                    byte_offset: byte_off as u64,
                    length: take as u64,
                },
            ] + segments_spec(lens, cursor + take as nat, (remaining - take) as nat, byte_off + take as nat)
        }
    }
}

/// The lengths of some files.
pub open spec fn file_lengths(files: Seq<PieceFileInfo>) -> Seq<u64> {
    files.map_values(|f: PieceFileInfo| f.length)
}

/// Where piece `p` starts.
pub open spec fn piece_start(m: MetainfoView, p: int) -> nat {
    (p * m.info.piece_length) as nat
}

/// How long piece `p` is: a whole piece, or what is left before the end.
pub open spec fn piece_span(m: MetainfoView, p: int) -> nat {
    let start = piece_start(m, p);
    let end = if start + m.info.piece_length < m.info.total_length {
        start + m.info.piece_length
    } else {
        m.info.total_length
    };
    (end - start) as nat
}

/// The files of a torrent as they are written: a single file under its
/// path joined by `/`, several files each under their own path.
pub open spec fn files_spec(m: MetainfoView) -> Seq<(Seq<Seq<char>>, u64)> {
    m.info.files.map_values(
        |f: crate::metainfo::FileView|
            (
                if m.info.files.len() == 1 {
                    seq![join_path(f.path)]
                } else {
                    f.path
                },
                f.length as u64,
            ),
    )
}

/// `a` lays out the files of `m` and maps its pieces onto them.
pub open spec fn layout_of(a: FileAssembler, m: MetainfoView) -> bool {
    &&& a.files@.map_values(|f: PieceFileInfo| file_info_view(f)) == files_spec(m)
    &&& a.piece_map@.len() == m.info.pieces.len()
    &&& forall|p: int|
        0 <= p < a.piece_map@.len() ==> {
            &&& (#[trigger] a.piece_map@[p]).global_offset == piece_start(m, p)
            &&& a.piece_map@[p].segments@ == segments_spec(
                file_lengths(a.files@),
                piece_start(m, p),
                piece_span(m, p),
                0,
            )
        }
}

/// What a piece file stands for: its path and length.
pub open spec fn file_info_view(f: PieceFileInfo) -> (Seq<Seq<char>>, u64) {
    (strings_view(f.path_components@), f.length)
}

proof fn lemma_cum_monotone(lens: Seq<u64>, a: int, b: int)
    requires
        a <= b,
    ensures
        cum_len(lens, a) <= cum_len(lens, b),
    decreases b - a,
{
    if a < b {
        lemma_cum_monotone(lens, a, b - 1);
    }
}

proof fn lemma_file_at(lens: Seq<u64>, cursor: nat, n: int)
    requires
        n >= 1,
    ensures
        0 <= file_at(lens, cursor, n) < n,
        file_at(lens, cursor, n) == 0 || cum_len(lens, file_at(lens, cursor, n)) <= cursor,
        forall|j: int| file_at(lens, cursor, n) < j < n ==> cum_len(lens, j) > cursor,
    decreases n,
{
    if n > 1 {
        lemma_file_at(lens, cursor, n - 1);
    }
}

/// The segments of a range of the files tile it: they are contiguous in the
/// piece, each lies inside its file, each is where the range says, and
/// their lengths add up to the range.
pub proof fn lemma_segments_tile(lens: Seq<u64>, cursor: nat, remaining: nat, byte_off: nat)
    requires
        1 <= lens.len() <= usize::MAX,
        cursor + remaining <= cum_len(lens, lens.len() as int),
        byte_off + remaining <= u64::MAX,
        cum_len(lens, lens.len() as int) <= u64::MAX,
    ensures
        ({
            let s = segments_spec(lens, cursor, remaining, byte_off);
            &&& remaining > 0 ==> s.len() > 0 && s[0].byte_offset == byte_off
            &&& forall|k: int|
                0 <= k < s.len() ==> {
                    &&& (#[trigger] s[k]).length > 0
                    &&& s[k].file_index < lens.len()
                    &&& s[k].file_offset + s[k].length <= lens[s[k].file_index as int]
                    &&& cum_len(lens, s[k].file_index as int) + s[k].file_offset == cursor + s[k].byte_offset
                        - byte_off
                    &&& s[k].byte_offset + s[k].length <= byte_off + remaining
                }
            &&& forall|k: int|
                0 <= k < s.len() - 1 ==> #[trigger] s[k + 1].byte_offset == s[k].byte_offset + s[k].length
            &&& s.len() > 0 ==> s[s.len() - 1].byte_offset + s[s.len() - 1].length == byte_off + remaining
        }),
    decreases remaining,
{
    if remaining > 0 {
        let n = lens.len() as int;
        let fi = file_at(lens, cursor, n);
        lemma_file_at(lens, cursor, n);
        lemma_cum_monotone(lens, fi, n);
        if fi + 1 < n {
            lemma_cum_monotone(lens, fi + 1, n);
        }
        let fo = cursor - cum_len(lens, fi);
        assert(fo >= 0);
        assert(cum_len(lens, fi + 1) == cum_len(lens, fi) + lens[fi]);
        assert(cum_len(lens, fi + 1) > cursor);
        let avail = lens[fi] - fo;
        let take: int = if avail < remaining {
            avail
        } else {
            remaining as int
        };
        assert(take > 0);
        let rest = segments_spec(lens, cursor + take as nat, (remaining - take) as nat, byte_off + take as nat);
        lemma_segments_tile(lens, cursor + take as nat, (remaining - take) as nat, byte_off + take as nat);
        let s = segments_spec(lens, cursor, remaining, byte_off);
        let first = FileSegment {
            file_index: fi as usize,
            file_offset: fo as u64,
            byte_offset: byte_off as u64,
            length: take as u64,
        };
        assert(s == seq![first] + rest);
        assert(first.length == take && first.file_offset == fo && first.byte_offset == byte_off);
        assert(first.file_index == fi);
        assert(s[0] == first);
        assert forall|k: int| 0 <= k < s.len() implies {
            &&& (#[trigger] s[k]).length > 0
            &&& s[k].file_index < lens.len()
            &&& s[k].file_offset + s[k].length <= lens[s[k].file_index as int]
            &&& cum_len(lens, s[k].file_index as int) + s[k].file_offset == cursor + s[k].byte_offset - byte_off
            &&& s[k].byte_offset + s[k].length <= byte_off + remaining
        } by {
            if k > 0 {
                assert(s[k] == rest[k - 1]);
            }
        }
        assert forall|k: int| 0 <= k < s.len() - 1 implies #[trigger] s[k + 1].byte_offset == s[k].byte_offset
            + s[k].length by {
            assert(s[k + 1] == rest[k]);
            if remaining - take == 0 {
                assert(rest.len() == 0);
            }
            if k > 0 {
                let j = k - 1;
                assert(0 <= j < rest.len() - 1);
                assert(rest[j + 1].byte_offset == rest[j].byte_offset + rest[j].length);
                assert(j + 1 == k);
            }
            if k > 0 {
                assert(s[k] == rest[k - 1]);
            }
        }
        if rest.len() > 0 {
            assert(s[s.len() - 1] == rest[rest.len() - 1]);
        }
    }
}

/// A copy of a list of strings.
fn clone_strings(v: &Vec<String>) -> (r: Vec<String>)
    ensures
        strings_view(r@) == strings_view(v@),
{
    let mut out: Vec<String> = Vec::new();
    let mut i: usize = 0;
    while i < v.len()
        invariant
            i <= v@.len(),
            out@.len() == i,
            forall|k: int| 0 <= k < i ==> (#[trigger] out@[k])@ == v@[k]@,
        decreases v@.len() - i,
    {
        out.push(v[i].clone());
        i = i + 1;
    }
    assert(strings_view(out@) =~= strings_view(v@));
    out
}

/// The last file that starts at or before `cursor`, given where each file
/// starts.
fn find_file(cum: &Vec<u64>, cursor: u64) -> (r: usize)
    requires
        cum@.len() >= 1,
        cum@[0] == 0,
        forall|a: int, b: int| 0 <= a <= b < cum@.len() ==> cum@[a] <= cum@[b],
    ensures
        r < cum@.len(),
        cum@[r as int] <= cursor,
        forall|j: int| r < j < cum@.len() ==> cum@[j] > cursor,
{
    let mut lo: usize = 0;
    let mut hi: usize = cum.len();
    while lo + 1 < hi
        invariant
            lo < hi <= cum@.len(),
            cum@[0] == 0,
            forall|a: int, b: int| 0 <= a <= b < cum@.len() ==> cum@[a] <= cum@[b],
            cum@[lo as int] <= cursor,
            forall|j: int| hi <= j < cum@.len() ==> cum@[j] > cursor,
        decreases hi - lo,
    {
        let mid = lo + (hi - lo) / 2;
        if cum[mid] <= cursor {
            lo = mid;
        } else {
            hi = mid;
        }
    }
    lo
}

proof fn lemma_file_at_unique(lens: Seq<u64>, cursor: nat, r: int)
    requires
        0 <= r < lens.len(),
        cum_len(lens, r) <= cursor,
        forall|j: int| r < j < lens.len() ==> cum_len(lens, j) > cursor,
    ensures
        file_at(lens, cursor, lens.len() as int) == r,
{
    let n = lens.len() as int;
    lemma_file_at(lens, cursor, n);
    let f = file_at(lens, cursor, n);
    if f < r {
        assert(cum_len(lens, r) > cursor);
    } else if f > r {
        if f != 0 {
            assert(cum_len(lens, f) > cursor);
        }
    }
}

proof fn lemma_cum_lengths(files: Seq<PieceFileInfo>, fs: Seq<crate::metainfo::FileView>, k: int)
    requires
        0 <= k <= files.len(),
        files.len() == fs.len(),
        forall|i: int| 0 <= i < files.len() ==> (#[trigger] files[i]).length == fs[i].length,
    ensures
        cum_len(file_lengths(files), k) == crate::metainfo::sum_lengths(fs.take(k)),
    decreases k,
{
    if k > 0 {
        lemma_cum_lengths(files, fs, k - 1);
        assert(fs.take(k).drop_last() =~= fs.take(k - 1));
    }
}

/// Where each piece lies in `files`, whose lengths add up to the torrent's.
fn build_piece_map(metainfo: &Metainfo, files: &[PieceFileInfo]) -> (r: Vec<PieceLocation>)
    requires
        metainfo@.wf(),
        metainfo@.info.total_length + metainfo@.info.piece_length <= u64::MAX,
        cum_len(file_lengths(files@), files@.len() as int) == metainfo@.info.total_length,
    ensures
        r@.len() == metainfo@.info.pieces.len(),
        forall|p: int|
            0 <= p < r@.len() ==> {
                &&& (#[trigger] r@[p]).global_offset == piece_start(metainfo@, p)
                &&& r@[p].segments@ == segments_spec(
                    file_lengths(files@),
                    piece_start(metainfo@, p),
                    piece_span(metainfo@, p),
                    0,
                )
            },
{
    let ghost m = metainfo@;
    let ghost lens = file_lengths(files@);
    let ghost n = files@.len() as int;
    let piece_count = metainfo.piece_count();
    let piece_length = metainfo.info.piece_length as u64;
    let total_length = metainfo.info.total_length as u64;
    let mut cum: Vec<u64> = Vec::new();
    let mut running: u64 = 0;
    let mut i: usize = 0;
    while i < files.len()
        invariant
            i <= files@.len(),
            n == files@.len(),
            lens == file_lengths(files@),
            cum_len(lens, n) == total_length,
            total_length <= u64::MAX,
            cum@.len() == i,
            forall|k: int| 0 <= k < i ==> #[trigger] cum@[k] == cum_len(lens, k),
            running == cum_len(lens, i as int),
        decreases files@.len() - i,
    {
        cum.push(running);
        proof {
            lemma_cum_monotone(lens, i + 1, n);
        }
        running = running + files[i].length;
        i = i + 1;
    }
    proof {
        assert forall|a: int, b: int| 0 <= a <= b < cum@.len() implies cum@[a] <= cum@[b] by {
            lemma_cum_monotone(lens, a, b);
        }
    }
    let mut piece_map: Vec<PieceLocation> = Vec::new();
    let mut p: usize = 0;
    while p < piece_count
        invariant
            p <= piece_count,
            piece_count == m.info.pieces.len(),
            m.wf(),
            m == metainfo@,
            piece_length == m.info.piece_length,
            total_length == m.info.total_length,
            m.info.total_length + m.info.piece_length <= u64::MAX,
            n == files@.len(),
            lens == file_lengths(files@),
            lens.len() == n,
            cum_len(lens, n) == total_length,
            cum@.len() == n,
            forall|k: int| 0 <= k < n ==> #[trigger] cum@[k] == cum_len(lens, k),
            forall|a: int, b: int| 0 <= a <= b < cum@.len() ==> cum@[a] <= cum@[b],
            piece_map@.len() == p,
            forall|q: int|
                0 <= q < p ==> {
                    &&& (#[trigger] piece_map@[q]).global_offset == piece_start(m, q)
                    &&& piece_map@[q].segments@ == segments_spec(lens, piece_start(m, q), piece_span(m, q), 0)
                },
        decreases piece_count - p,
    {
        proof {
            let count = m.info.pieces.len();
            let pl = m.info.piece_length;
            let total = m.info.total_length;
            assert(count == (total + pl - 1) as nat / pl as nat);
            assert((p + 1) * pl <= total + pl - 1) by (nonlinear_arith)
                requires
                    pl > 0,
                    p + 1 <= (total + pl - 1) as nat / pl as nat,
            ;
            assert(p * pl <= total) by (nonlinear_arith)
                requires
                    (p + 1) * pl <= total + pl - 1,
            ;
        }
        let piece_start_at = (p as u64) * piece_length;
        let piece_end = if piece_start_at + piece_length < total_length {
            piece_start_at + piece_length
        } else {
            total_length
        };
        let mut remaining = piece_end - piece_start_at;
        let mut segments: Vec<FileSegment> = Vec::new();
        let mut byte_off: u64 = 0;
        let mut cursor = piece_start_at;
        let ghost target = segments_spec(lens, piece_start(m, p as int), piece_span(m, p as int), 0);
        proof {
            assert(segments@ + segments_spec(lens, cursor as nat, remaining as nat, byte_off as nat) =~= target);
        }
        while remaining > 0
            invariant
                n == files@.len(),
                lens == file_lengths(files@),
                lens.len() == n,
                cum_len(lens, n) == total_length,
                total_length <= u64::MAX,
                cum@.len() == n,
                forall|k: int| 0 <= k < n ==> #[trigger] cum@[k] == cum_len(lens, k),
                forall|a: int, b: int| 0 <= a <= b < cum@.len() ==> cum@[a] <= cum@[b],
                cursor + remaining <= total_length,
                byte_off + remaining <= total_length,
                segments@ + segments_spec(lens, cursor as nat, remaining as nat, byte_off as nat) == target,
            decreases remaining,
        {
            proof {
                if n == 0 {
                    assert(cum_len(lens, 0) == 0);
                }
                assert(cum@[0] == cum_len(lens, 0));
            }
            let fi = find_file(&cum, cursor);
            proof {
                lemma_cum_monotone(lens, fi as int, n);
                assert forall|j: int| fi < j < lens.len() implies cum_len(lens, j) > cursor by {
                    assert(cum@[j] > cursor);
                }
                lemma_file_at_unique(lens, cursor as nat, fi as int);
                assert(cum_len(lens, fi + 1) == cum_len(lens, fi as int) + lens[fi as int]);
                if fi + 1 < n {
                    assert(cum@[fi + 1] > cursor);
                }
                assert(cum_len(lens, fi + 1) > cursor);
                assert(lens[fi as int] == files@[fi as int].length);
            }
            let file_offset = cursor - cum[fi];
            let available = files[fi].length - file_offset;
            let take = if available < remaining {
                available
            } else {
                remaining
            };
            let seg = FileSegment { file_index: fi, file_offset, byte_offset: byte_off, length: take };
            let ghost rest = segments_spec(lens, (cursor + take) as nat, (remaining - take) as nat, (byte_off + take) as nat);
            proof {
                assert(segments_spec(lens, cursor as nat, remaining as nat, byte_off as nat) == seq![seg] + rest);
                assert(segments@.push(seg) + rest =~= segments@ + (seq![seg] + rest));
            }
            segments.push(seg);
            cursor = cursor + take;
            byte_off = byte_off + take;
            remaining = remaining - take;
        }
        proof {
            assert(segments@ =~= target);
        }
        piece_map.push(PieceLocation { global_offset: piece_start_at, segments });
        p = p + 1;
    }
    piece_map
}

impl FileAssembler {
    /// Lays out the files of `metainfo` and maps its pieces onto them. The
    /// output directory is not looked at: paths are relative to it.
    pub fn new<P: ?Sized>(metainfo: &Metainfo, _output_dir: &P) -> (r: Self)
        requires
            metainfo@.wf(),
            metainfo@.info.total_length + metainfo@.info.piece_length <= u64::MAX,
        ensures
            layout_of(r, metainfo@),
    {
        let single = metainfo.is_single_file();
        let mut files: Vec<PieceFileInfo> = Vec::new();
        let mut i: usize = 0;
        while i < metainfo.info.files.len()
            invariant
                i <= metainfo@.info.files.len(),
                single == (metainfo@.info.files.len() == 1),
                files@.len() == i,
                forall|k: int| 0 <= k < i ==> file_info_view(#[trigger] files@[k]) == files_spec(metainfo@)[k],
            decreases metainfo@.info.files.len() - i,
        {
            let f = &metainfo.info.files[i];
            let path_components = if single {
                let mut v: Vec<String> = Vec::new();
                v.push(join_path_string(&f.path));
                v
            } else {
                clone_strings(&f.path)
            };
            let info = PieceFileInfo { path_components, length: f.length as u64 };
            proof {
                assert(files_view(metainfo.info.files@)[i as int] == f@);
                if single {
                    assert(strings_view(info.path_components@) =~= seq![join_path(f@.path)]);
                } else {
                    assert(strings_view(info.path_components@) =~= f@.path);
                }
            }
            files.push(info);
            i = i + 1;
        }
        proof {
            assert(files@.map_values(|f: PieceFileInfo| file_info_view(f)) =~= files_spec(metainfo@));
            let fs = metainfo@.info.files;
            assert forall|k: int| 0 <= k < files@.len() implies (#[trigger] files@[k]).length == fs[k].length by {
                assert(file_info_view(files@[k]) == files_spec(metainfo@)[k]);
            }
            lemma_cum_lengths(files@, fs, files@.len() as int);
            assert(fs.take(fs.len() as int) =~= fs);
        }
        let piece_map = build_piece_map(metainfo, files.as_slice());
        FileAssembler { piece_map, files }
    }

    /// Whether the torrent is a single file.
    pub fn is_single_file(&self) -> (r: bool)
        ensures
            r == (self.files@.len() == 1),
    {
        self.files.len() == 1
    }

    /// The path of each file below the output directory, as segments: the
    /// single file's one segment, or each file's own segments.
    pub fn file_paths(&self) -> (r: Vec<Vec<String>>)
        requires
            self.files@.len() == 1 ==> self.files@[0].path_components@.len() >= 1,
        ensures
            r@.len() == self.files@.len(),
            forall|k: int|
                0 <= k < r@.len() ==> strings_view((#[trigger] r@[k])@) == if self.files@.len() == 1 {
                    seq![strings_view(self.files@[0].path_components@)[0]]
                } else {
                    strings_view(self.files@[k].path_components@)
                },
    {
        let mut out: Vec<Vec<String>> = Vec::new();
        if self.is_single_file() {
            let mut v: Vec<String> = Vec::new();
            v.push(self.files[0].path_components[0].clone());
            proof {
                assert(strings_view(v@) =~= seq![strings_view(self.files@[0].path_components@)[0]]);
            }
            out.push(v);
        } else {
            let mut i: usize = 0;
            while i < self.files.len()
                invariant
                    i <= self.files@.len(),
                    self.files@.len() != 1,
                    out@.len() == i,
                    forall|k: int| 0 <= k < i ==> strings_view((#[trigger] out@[k])@) == strings_view(
                        self.files@[k].path_components@,
                    ),
                decreases self.files@.len() - i,
            {
                out.push(clone_strings(&self.files[i].path_components));
                i = i + 1;
            }
        }
        out
    }
}

} // verus!
