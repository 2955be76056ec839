//! Piece bookkeeping: which pieces are missing, being downloaded or done,
//! the blocks received so far, how many peers have each piece, and the
//! requests outstanding with each peer.

use vstd::prelude::*;

use crate::bencode::append_bytes;
use crate::bitfield::{Bitfield, BitfieldView};
use crate::error::BError;
use crate::extern_calls::{choose_one, sha1_digest, sha1_spec};
use crate::metainfo::{Metainfo, MetainfoView};
use crate::session::peer_map::PeerMap;
use crate::text::{decimal_string, decimal_text};
use crate::types::{same_20, PeerId, BLOCK_LEN};

verus! {

/// Where a piece stands.
pub enum PieceState {
    Pending,
    Downloading { blocks: Vec<Option<Vec<u8>>>, received: usize },
    Complete,
}

/// Where a piece stands, with the blocks as byte sequences.
pub enum PieceView {
    Pending,
    Downloading { blocks: Seq<Option<Seq<u8>>>, received: nat },
    Complete,
}

pub open spec fn block_view(b: Option<Vec<u8>>) -> Option<Seq<u8>> {
    match b {
        Some(v) => Some(v@),
        None => None,
    }
}

pub open spec fn blocks_view(bs: Seq<Option<Vec<u8>>>) -> Seq<Option<Seq<u8>>> {
    bs.map_values(|b: Option<Vec<u8>>| block_view(b))
}

impl View for PieceState {
    type V = PieceView;

    open spec fn view(&self) -> PieceView {
        match self {
            PieceState::Pending => PieceView::Pending,
            PieceState::Downloading { blocks, received } => PieceView::Downloading {
                blocks: blocks_view(blocks@),
                received: *received as nat,
            },
            PieceState::Complete => PieceView::Complete,
        }
    }
}

/// How many blocks have arrived.
pub open spec fn received_count(bs: Seq<Option<Seq<u8>>>) -> nat
    decreases bs.len(),
{
    if bs.len() == 0 {
        0
    } else {
        received_count(bs.drop_last()) + if bs.last() is Some {
            1nat
        } else {
            0nat
        }
    }
}

/// The blocks that have arrived, one after the other.
pub open spec fn flatten_blocks(bs: Seq<Option<Seq<u8>>>) -> Seq<u8>
    decreases bs.len(),
{
    if bs.len() == 0 {
        Seq::empty()
    } else {
        flatten_blocks(bs.drop_last()) + match bs.last() {
            Some(b) => b,
            None => Seq::empty(),
        }
    }
}

/// How many blocks a piece of `piece_len` bytes is requested in.
pub open spec fn block_count_for(piece_len: nat) -> nat {
    (piece_len + BLOCK_LEN - 1) as nat / (BLOCK_LEN as nat)
}

/// A piece that has just begun downloading: no block there yet.
pub open spec fn fresh_download(piece_len: nat) -> PieceView {
    PieceView::Downloading {
        blocks: Seq::new(block_count_for(piece_len), |j: int| None),
        received: 0,
    }
}

/// `a + 1`, at most `usize::MAX`.
pub open spec fn sat_inc(a: usize) -> usize {
    if a == usize::MAX {
        a
    } else {
        (a + 1) as usize
    }
}

/// `a - 1`, at least 0.
pub open spec fn sat_dec(a: usize) -> usize {
    if a == 0 {
        a
    } else {
        (a - 1) as usize
    }
}

/// The availability of piece `i` raised (`up`) or lowered by one; an index
/// past the end changes nothing.
pub open spec fn bump(avail: Seq<usize>, i: usize, up: bool) -> Seq<usize> {
    if i < avail.len() {
        avail.update(
            i as int,
            if up {
                sat_inc(avail[i as int])
            } else {
                sat_dec(avail[i as int])
            },
        )
    } else {
        avail
    }
}

/// `bump` applied for each index in turn.
pub open spec fn bump_all(avail: Seq<usize>, idx: Seq<usize>, up: bool) -> Seq<usize>
    decreases idx.len(),
{
    if idx.len() == 0 {
        avail
    } else {
        bump(bump_all(avail, idx.drop_last(), up), idx.last(), up)
    }
}

/// The requests that a list of entries stands for.
pub open spec fn inflight_set(s: Seq<(PeerId, u32, u32)>) -> Set<(Seq<u8>, u32, u32)> {
    Set::new(
        |t: (Seq<u8>, u32, u32)|
            exists|i: int| 0 <= i < s.len() && #[trigger] s[i].0.0@ == t.0 && s[i].1 == t.1 && s[i].2 == t.2,
    )
}

/// How many of the first `n` pieces are complete.
pub open spec fn complete_below(p: Seq<PieceView>, n: int) -> nat
    decreases n,
{
    if n <= 0 {
        0
    } else {
        complete_below(p, n - 1) + if p[n - 1] is Complete {
            1nat
        } else {
            0nat
        }
    }
}

/// A piece being downloaded has one slot per block and counts the blocks
/// that arrived.
pub open spec fn piece_wf(p: PieceView, piece_len: nat) -> bool {
    match p {
        PieceView::Downloading { blocks, received } => blocks.len() == block_count_for(piece_len)
            && received == received_count(blocks),
        _ => true,
    }
}

/// The content of a tracker.
#[verifier::ext_equal]
pub struct TrackerView {
    pub pieces: Seq<PieceView>,
    pub availability: Seq<usize>,
    pub meta: MetainfoView,
    pub inflight: Set<(Seq<u8>, u32, u32)>,
    pub pipeline: Map<Seq<u8>, usize>,
}

impl TrackerView {
    /// One state and one availability per piece of a well-formed torrent
    /// whose piece indexes and lengths fit in 32 bits.
    pub open spec fn wf(self) -> bool {
        &&& self.meta.wf()
        &&& self.pieces.len() == self.meta.info.pieces.len()
        &&& self.availability.len() == self.pieces.len()
        &&& self.pieces.len() <= u32::MAX
        &&& self.meta.info.piece_length + BLOCK_LEN <= u32::MAX
        &&& forall|i: int|
            0 <= i < self.pieces.len() ==> piece_wf(#[trigger] self.pieces[i], self.meta.piece_length_for(i))
    }

    /// The requests outstanding with `peer`.
    pub open spec fn pipeline_count(self, peer: Seq<u8>) -> usize {
        if self.pipeline.contains_key(peer) {
            self.pipeline[peer]
        } else {
            0
        }
    }

    /// Piece `i` may be asked of a peer with bitfield `peer`: the peer has
    /// it and it has not begun downloading.
    pub open spec fn candidate(self, peer: BitfieldView, i: int) -> bool {
        &&& peer.has(i)
        &&& 0 <= i < self.pieces.len()
        &&& self.pieces[i] is Pending
    }

    /// The state piece `index` has once it is downloading.
    pub open spec fn started(self, index: int) -> PieceView {
        if self.pieces[index] is Pending {
            fresh_download(self.meta.piece_length_for(index))
        } else {
            self.pieces[index]
        }
    }

    /// After `increase_availability` (`up`) or `decrease_availability`.
    pub open spec fn bumped(self, idx: Seq<usize>, up: bool) -> TrackerView {
        TrackerView { availability: bump_all(self.availability, idx, up), ..self }
    }

    /// After `ensure_downloading`.
    pub open spec fn begun(self, index: int) -> TrackerView {
        TrackerView { pieces: self.pieces.update(index, self.started(index)), ..self }
    }

    /// After `store_block`: the new content, and whether the piece now has
    /// every block.
    pub open spec fn stored(self, index: int, begin: u32, data: Seq<u8>) -> (TrackerView, bool) {
        let s = self.started(index);
        let b = (begin / BLOCK_LEN) as int;
        match s {
            PieceView::Downloading { blocks, received } => if b < blocks.len() && blocks[b] is None {
                (
                    TrackerView {
                        pieces: self.pieces.update(
                            index,
                            PieceView::Downloading {
                                blocks: blocks.update(b, Some(data)),
                                received: received + 1,
                            },
                        ),
                        ..self
                    },
                    received + 1 == blocks.len(),
                )
            } else {
                (TrackerView { pieces: self.pieces.update(index, s), ..self }, false)
            },
            _ => (self, false),
        }
    }

    /// After `mark_complete`.
    pub open spec fn completed(self, index: int) -> TrackerView {
        TrackerView { pieces: self.pieces.update(index, PieceView::Complete), ..self }
    }

    /// After `mark_inflight`.
    pub open spec fn requested(self, peer: Seq<u8>, index: u32, begin: u32) -> TrackerView {
        TrackerView {
            inflight: self.inflight.insert((peer, index, begin)),
            pipeline: self.pipeline.insert(peer, (self.pipeline_count(peer) + 1) as usize),
            ..self
        }
    }

    /// After `clear_inflight`.
    pub open spec fn cleared(self, peer: Seq<u8>, index: u32, begin: u32) -> TrackerView {
        TrackerView {
            inflight: self.inflight.remove((peer, index, begin)),
            pipeline: if self.pipeline.contains_key(peer) {
                self.pipeline.insert(peer, sat_dec(self.pipeline[peer]))
            } else {
                self.pipeline
            },
            ..self
        }
    }

    /// After `cancel_all_inflight`.
    pub open spec fn cancelled(self, peer: Seq<u8>) -> TrackerView {
        TrackerView {
            inflight: self.inflight.filter(|k: (Seq<u8>, u32, u32)| k.0 != peer),
            pipeline: self.pipeline.remove(peer),
            ..self
        }
    }

    /// Every piece is complete.
    pub open spec fn all_complete(self) -> bool {
        forall|i: int| 0 <= i < self.pieces.len() ==> #[trigger] self.pieces[i] is Complete
    }
}

proof fn lemma_received_update(bs: Seq<Option<Seq<u8>>>, b: int, x: Seq<u8>)
    requires
        0 <= b < bs.len(),
        bs[b] is None,
    ensures
        received_count(bs.update(b, Some(x))) == received_count(bs) + 1,
    decreases bs.len(),
{
    let u = bs.update(b, Some(x));
    if b == bs.len() - 1 {
        assert(u.drop_last() =~= bs.drop_last());
    } else {
        lemma_received_update(bs.drop_last(), b, x);
        assert(u.drop_last() =~= bs.drop_last().update(b, Some(x)));
    }
}

proof fn lemma_received_bound(bs: Seq<Option<Seq<u8>>>)
    ensures
        received_count(bs) <= bs.len(),
        received_count(bs) == bs.len() <==> forall|i: int| 0 <= i < bs.len() ==> #[trigger] bs[i] is Some,
    decreases bs.len(),
{
    if bs.len() > 0 {
        lemma_received_bound(bs.drop_last());
        if received_count(bs) == bs.len() {
            assert forall|i: int| 0 <= i < bs.len() implies #[trigger] bs[i] is Some by {
                if i < bs.len() - 1 {
                    assert(bs.drop_last()[i] == bs[i]);
                }
            }
        }
        if forall|i: int| 0 <= i < bs.len() ==> #[trigger] bs[i] is Some {
            assert forall|i: int| 0 <= i < bs.drop_last().len() implies #[trigger] bs.drop_last()[i] is Some by {
                assert(bs[i] is Some);
            }
        }
    }
}

proof fn lemma_received_none(n: nat)
    ensures
        received_count(Seq::new(n, |j: int| None::<Seq<u8>>)) == 0,
    decreases n,
{
    if n > 0 {
        let s = Seq::new(n, |j: int| None::<Seq<u8>>);
        lemma_received_none((n - 1) as nat);
        assert(s.drop_last() =~= Seq::new((n - 1) as nat, |j: int| None::<Seq<u8>>));
    }
}

/// Changing availabilities keeps one per piece.
pub proof fn lemma_bump_all_len(avail: Seq<usize>, idx: Seq<usize>, up: bool)
    ensures
        bump_all(avail, idx, up).len() == avail.len(),
    decreases idx.len(),
{
    if idx.len() > 0 {
        lemma_bump_all_len(avail, idx.drop_last(), up);
    }
}

/// The identity of a request entry.
pub open spec fn request_key(e: (PeerId, u32, u32)) -> (Seq<u8>, u32, u32) {
    (e.0.0@, e.1, e.2)
}

/// The entries of `s` whose identity satisfies `q`, in order.
pub open spec fn keep_where(s: Seq<(PeerId, u32, u32)>, q: spec_fn((Seq<u8>, u32, u32)) -> bool) -> Seq<
    (PeerId, u32, u32),
>
    decreases s.len(),
{
    if s.len() == 0 {
        s
    } else if q(request_key(s.last())) {
        keep_where(s.drop_last(), q).push(s.last())
    } else {
        keep_where(s.drop_last(), q)
    }
}

proof fn lemma_inflight_push(s: Seq<(PeerId, u32, u32)>, e: (PeerId, u32, u32))
    ensures
        inflight_set(s.push(e)) == inflight_set(s).insert(request_key(e)),
{
    let n = s.push(e);
    assert forall|t: (Seq<u8>, u32, u32)| #[trigger]
        inflight_set(n).contains(t) == inflight_set(s).insert(request_key(e)).contains(t) by {
        if inflight_set(n).contains(t) {
            let i = choose|i: int|
                0 <= i < n.len() && #[trigger] n[i].0.0@ == t.0 && n[i].1 == t.1 && n[i].2 == t.2;
            if i < s.len() {
                assert(s[i] == n[i]);
            }
        }
        if inflight_set(s).contains(t) {
            let i = choose|i: int|
                0 <= i < s.len() && #[trigger] s[i].0.0@ == t.0 && s[i].1 == t.1 && s[i].2 == t.2;
            assert(n[i] == s[i]);
        }
        if t == request_key(e) {
            assert(n[s.len() as int] == e);
        }
    }
    assert(inflight_set(n) =~= inflight_set(s).insert(request_key(e)));
}

proof fn lemma_inflight_empty(s: Seq<(PeerId, u32, u32)>)
    requires
        s.len() == 0,
    ensures
        inflight_set(s) == Set::<(Seq<u8>, u32, u32)>::empty(),
{
    assert(inflight_set(s) =~= Set::<(Seq<u8>, u32, u32)>::empty());
}

proof fn lemma_keep_where(s: Seq<(PeerId, u32, u32)>, q: spec_fn((Seq<u8>, u32, u32)) -> bool)
    ensures
        inflight_set(keep_where(s, q)) == inflight_set(s).filter(q),
    decreases s.len(),
{
    if s.len() == 0 {
        lemma_inflight_empty(s);
        assert(inflight_set(s).filter(q) =~= Set::<(Seq<u8>, u32, u32)>::empty());
    } else {
        let d = s.drop_last();
        let e = s.last();
        lemma_keep_where(d, q);
        assert(d.push(e) =~= s);
        lemma_inflight_push(d, e);
        if q(request_key(e)) {
            lemma_inflight_push(keep_where(d, q), e);
            assert(inflight_set(s).filter(q) =~= inflight_set(d).filter(q).insert(request_key(e)));
        } else {
            assert(inflight_set(s).filter(q) =~= inflight_set(d).filter(q));
        }
    }
}

proof fn lemma_complete_below_bound(p: Seq<PieceView>, n: int)
    requires
        0 <= n <= p.len(),
    ensures
        complete_below(p, n) <= n,
    decreases n,
{
    if n > 0 {
        lemma_complete_below_bound(p, n - 1);
    }
}

/// Forgetting a request takes back what sending it added: the peer's count
/// of outstanding requests is what it was, and a request that was not
/// outstanding before is no longer.
pub proof fn lemma_request_then_clear(t: TrackerView, peer: Seq<u8>, index: u32, begin: u32)
    requires
        t.pipeline_count(peer) < usize::MAX,
    ensures
        t.requested(peer, index, begin).cleared(peer, index, begin).pipeline_count(peer) == t.pipeline_count(peer),
        !t.inflight.contains((peer, index, begin)) ==> t.requested(peer, index, begin).cleared(
            peer,
            index,
            begin,
        ).inflight == t.inflight,
{
    let r = t.requested(peer, index, begin);
    assert(r.pipeline.contains_key(peer));
    if !t.inflight.contains((peer, index, begin)) {
        assert(r.cleared(peer, index, begin).inflight =~= t.inflight);
    }
}

/// Which pieces are missing, downloading and complete; how many peers have
/// each; and which block requests are outstanding with which peer.
pub struct PieceTracker {
    pieces: Vec<PieceState>,
    metainfo: Metainfo,
    piece_availability: Vec<usize>,
    inflight: Vec<(PeerId, u32, u32)>,
    peer_pipeline: PeerMap<usize>,
}

impl View for PieceTracker {
    type V = TrackerView;

    closed spec fn view(&self) -> TrackerView {
        TrackerView {
            pieces: self.pieces@.map_values(|p: PieceState| p@),
            availability: self.piece_availability@,
            meta: self.metainfo@,
            inflight: inflight_set(self.inflight@),
            pipeline: self.peer_pipeline@,
        }
    }
}

impl PieceTracker {
    /// A tracker in which every piece is missing and no peer has any.
    pub fn new(metainfo: Metainfo) -> (r: Self)
        requires
            metainfo@.wf(),
            metainfo@.info.pieces.len() <= u32::MAX,
            metainfo@.info.piece_length + BLOCK_LEN <= u32::MAX,
        ensures
            r@.wf(),
            r@.meta == metainfo@,
            r@.pieces == Seq::new(metainfo@.info.pieces.len(), |i: int| PieceView::Pending),
            r@.availability == Seq::new(metainfo@.info.pieces.len(), |i: int| 0usize),
            r@.inflight == Set::<(Seq<u8>, u32, u32)>::empty(),
            r@.pipeline == Map::<Seq<u8>, usize>::empty(),
    {
        let count = metainfo.piece_count();
        let mut pieces: Vec<PieceState> = Vec::new();
        let mut avail: Vec<usize> = Vec::new();
        let mut i: usize = 0;
        while i < count
            invariant
                i <= count,
                pieces@.len() == i,
                avail@.len() == i,
                forall|j: int| 0 <= j < i ==> #[trigger] pieces@[j] is Pending,
                forall|j: int| 0 <= j < i ==> #[trigger] avail@[j] == 0,
            decreases count - i,
        {
            pieces.push(PieceState::Pending);
            avail.push(0);
            i = i + 1;
        }
        let r = PieceTracker {
            pieces,
            metainfo,
            piece_availability: avail,
            inflight: Vec::new(),
            peer_pipeline: PeerMap::new(),
        };
        assert(r@.pieces =~= Seq::new(count as nat, |i: int| PieceView::Pending));
        assert(r@.availability =~= Seq::new(count as nat, |i: int| 0usize));
        assert(r@.inflight =~= Set::<(Seq<u8>, u32, u32)>::empty());
        r
    }

    /// Whether every piece is complete.
    pub fn is_complete(&self) -> (r: bool)
        ensures
            r == self@.all_complete(),
    {
        let mut i: usize = 0;
        while i < self.pieces.len()
            invariant
                i <= self.pieces@.len(),
                forall|j: int| 0 <= j < i ==> #[trigger] self@.pieces[j] is Complete,
            decreases self.pieces@.len() - i,
        {
            if !matches!(self.pieces[i], PieceState::Complete) {
                assert(!(self@.pieces[i as int] is Complete));
                return false;
            }
            i = i + 1;
        }
        true
    }

    /// How many pieces are complete.
    pub fn completed_count(&self) -> (r: usize)
        ensures
            r == complete_below(self@.pieces, self@.pieces.len() as int),
    {
        let mut n: usize = 0;
        let mut i: usize = 0;
        while i < self.pieces.len()
            invariant
                i <= self.pieces@.len(),
                n == complete_below(self@.pieces, i as int),
            decreases self.pieces@.len() - i,
        {
            proof {
                lemma_complete_below_bound(self@.pieces, i as int);
            }
            if matches!(self.pieces[i], PieceState::Complete) {
                n = n + 1;
            }
            i = i + 1;
        }
        n
    }

    /// Marks every piece complete.
    pub fn set_all_complete(&mut self)
        requires
            old(self)@.wf(),
        ensures
            final(self)@ == (TrackerView {
                pieces: Seq::new(old(self)@.pieces.len(), |i: int| PieceView::Complete),
                ..old(self)@
            }),
            final(self)@.wf(),
    {
        let n = self.pieces.len();
        let mut i: usize = 0;
        while i < n
            invariant
                i <= n,
                n == self.pieces@.len(),
                old(self)@.wf(),
                n == old(self)@.pieces.len(),
                self.metainfo == old(self).metainfo,
                self.piece_availability == old(self).piece_availability,
                self.inflight == old(self).inflight,
                self.peer_pipeline == old(self).peer_pipeline,
                forall|j: int| 0 <= j < i ==> #[trigger] self.pieces@[j] is Complete,
            decreases n - i,
        {
            self.pieces.set(i, PieceState::Complete);
            i = i + 1;
        }
        assert(self@.pieces =~= Seq::new(old(self)@.pieces.len(), |i: int| PieceView::Complete));
        assert forall|i: int| 0 <= i < self@.pieces.len() implies piece_wf(
            #[trigger] self@.pieces[i],
            self@.meta.piece_length_for(i),
        ) by {
            assert(self@.pieces[i] is Complete);
        }
    }

    /// Raises by one (at most to `usize::MAX`) the availability of each
    /// piece listed; indexes past the last piece are passed over.
    pub fn increase_availability(&mut self, indexes: &[usize])
        requires
            old(self)@.wf(),
        ensures
            final(self)@ == old(self)@.bumped(indexes@, true),
            final(self)@.wf(),
    {
        self.change_availability(indexes, true);
    }

    /// Lowers by one (at least to 0) the availability of each piece listed;
    /// indexes past the last piece are passed over.
    pub fn decrease_availability(&mut self, indexes: &[usize])
        requires
            old(self)@.wf(),
        ensures
            final(self)@ == old(self)@.bumped(indexes@, false),
            final(self)@.wf(),
    {
        self.change_availability(indexes, false);
    }

    fn change_availability(&mut self, indexes: &[usize], up: bool)
        requires
            old(self)@.wf(),
        ensures
            final(self)@ == old(self)@.bumped(indexes@, up),
            final(self)@.wf(),
    {
        let mut k: usize = 0;
        while k < indexes.len()
            invariant
                k <= indexes@.len(),
                old(self)@.wf(),
                self.pieces == old(self).pieces,
                self.metainfo == old(self).metainfo,
                self.inflight == old(self).inflight,
                self.peer_pipeline == old(self).peer_pipeline,
                self.piece_availability@ == bump_all(
                    old(self)@.availability,
                    indexes@.take(k as int),
                    up,
                ),
            decreases indexes@.len() - k,
        {
            assert(indexes@.take(k + 1).drop_last() =~= indexes@.take(k as int));
            let i = indexes[k];
            if i < self.piece_availability.len() {
                let a = self.piece_availability[i];
                let b = if up {
                    if a == usize::MAX {
                        a
                    } else {
                        a + 1
                    }
                } else {
                    if a == 0 {
                        a
                    } else {
                        a - 1
                    }
                };
                self.piece_availability.set(i, b);
            }
            k = k + 1;
        }
        assert(indexes@.take(k as int) =~= indexes@);
        proof {
            lemma_bump_all_len(old(self)@.availability, indexes@, up);
        }
    }

    /// A piece to ask of a peer with bitfield `peer_bitfield`: one that the
    /// peer has and that has not begun downloading, among those that the
    /// fewest peers have, picked at random; `None` if there is no such piece.
    pub fn pick_rarest(&self, peer_bitfield: &Bitfield) -> (r: Option<u32>)
        requires
            self@.wf(),
            forall|i: int| #[trigger] peer_bitfield@.has(i) ==> i < self@.pieces.len(),
        ensures
            r is None <==> !exists|i: int| self@.candidate(peer_bitfield@, i),
            r matches Some(x) ==> self@.candidate(peer_bitfield@, x as int) && forall|j: int|
                self@.candidate(peer_bitfield@, j) ==> self@.availability[x as int]
                    <= #[trigger] self@.availability[j],
    {
        let total = if peer_bitfield.total_pieces() < self.pieces.len() {
            peer_bitfield.total_pieces()
        } else {
            self.pieces.len()
        };
        let mut best: usize = 0;
        let mut found = false;
        let mut rarest: Vec<u32> = Vec::new();
        let mut i: usize = 0;
        while i < total
            invariant
                self@.wf(),
                i <= total,
                total <= peer_bitfield@.total,
                total <= self@.pieces.len(),
                total == peer_bitfield@.total || total == self@.pieces.len(),
                !found ==> forall|j: int| 0 <= j < i ==> !self@.candidate(peer_bitfield@, j),
                found ==> rarest@.len() > 0,
                found ==> forall|j: int|
                    0 <= j < i && self@.candidate(peer_bitfield@, j) ==> best <= #[trigger] self@.availability[j],
                forall|k: int|
                    0 <= k < rarest@.len() ==> self@.candidate(peer_bitfield@, #[trigger] rarest@[k] as int)
                        && self@.availability[rarest@[k] as int] == best,
            decreases total - i,
        {
            if peer_bitfield.has(i) && matches!(self.pieces[i], PieceState::Pending) {
                assert(self@.candidate(peer_bitfield@, i as int));
                let a = self.piece_availability[i];
                if !found || a < best {
                    best = a;
                    found = true;
                    rarest = Vec::new();
                    rarest.push(i as u32);
                } else if a == best {
                    rarest.push(i as u32);
                }
            } else {
                assert(!self@.candidate(peer_bitfield@, i as int));
            }
            i = i + 1;
        }
        let r = choose_one(rarest.as_slice());
        proof {
            if let Some(x) = r {
                let k = choose|k: int| 0 <= k < rarest@.len() && rarest@[k] == x;
                assert(self@.candidate(peer_bitfield@, rarest@[k] as int));
            } else {
                assert forall|j: int| !self@.candidate(peer_bitfield@, j) by {
                    if self@.candidate(peer_bitfield@, j) {
                        assert(0 <= j < total);
                    }
                }
            }
        }
        r
    }

    /// Where the next block of piece `index` to request starts: 0 for a
    /// piece not yet begun, the first missing block of one that is
    /// downloading, none for a complete piece or one with every block in.
    #[verifier::loop_isolation(false)]
    pub fn pick_next_block(&self, piece_index: u32) -> (r: Option<u32>)
        requires
            self@.wf(),
            piece_index < self@.pieces.len(),
        ensures
            match self@.pieces[piece_index as int] {
                PieceView::Pending => r == Some(0u32),
                PieceView::Downloading { blocks, .. } => match r {
                    Some(b) => b % BLOCK_LEN == 0 && (b / BLOCK_LEN) < blocks.len()
                        && blocks[(b / BLOCK_LEN) as int] is None
                        && forall|j: int| 0 <= j < b / BLOCK_LEN ==> #[trigger] blocks[j] is Some,
                    None => forall|j: int| 0 <= j < blocks.len() ==> #[trigger] blocks[j] is Some,
                },
                PieceView::Complete => r is None,
            },
    {
        let idx = piece_index as usize;
        assert(piece_wf(self@.pieces[idx as int], self@.meta.piece_length_for(idx as int)));
        match &self.pieces[idx] {
            PieceState::Pending => Some(0),
            PieceState::Downloading { blocks, .. } => {
                let ghost plen = self@.meta.piece_length_for(idx as int);
                assert(plen <= self@.meta.info.piece_length);
                let mut j: usize = 0;
                while j < blocks.len()
                    invariant
                        j <= blocks@.len(),
                        blocks@.len() == block_count_for(plen),
                        plen + BLOCK_LEN <= u32::MAX,
                        forall|t: int| 0 <= t < j ==> #[trigger] blocks@[t] is Some,
                    decreases blocks@.len() - j,
                {
                    if blocks[j].is_none() {
                        assert(j * 16384 <= plen + 16383 - 16384) by (nonlinear_arith)
                            requires
                                j < (plen + 16383) / 16384,
                        ;
                        let b = (j as u32) * BLOCK_LEN;
                        assert(b / BLOCK_LEN == j && b % BLOCK_LEN == 0) by (nonlinear_arith)
                            requires
                                b == j * 16384,
                        ;
                        proof {
                            assert forall|t: int| 0 <= t < j implies #[trigger] blocks_view(blocks@)[t] is Some by {
                                assert(blocks@[t] is Some);
                            }
                        }
                        return Some(b);
                    }
                    j = j + 1;
                }
                proof {
                    assert forall|t: int| 0 <= t < blocks@.len() implies #[trigger] blocks_view(blocks@)[t] is Some by {
                        assert(blocks@[t] is Some);
                    }
                }
                None
            },
            PieceState::Complete => None,
        }
    }

    /// Starts downloading piece `index` if it is still missing.
    pub fn ensure_downloading(&mut self, piece_index: u32)
        requires
            old(self)@.wf(),
            piece_index < old(self)@.pieces.len(),
        ensures
            final(self)@ == old(self)@.begun(piece_index as int),
            final(self)@.wf(),
    {
        let idx = piece_index as usize;
        if matches!(self.pieces[idx], PieceState::Pending) {
            let piece_len = self.metainfo.piece_length_for(idx);
            let ghost plen = piece_len as nat;
            assert(plen <= self@.meta.info.piece_length);
            assert(piece_len <= u32::MAX);
            let block_count = ((piece_len as u32 + BLOCK_LEN - 1) / BLOCK_LEN) as usize;
            let mut blocks: Vec<Option<Vec<u8>>> = Vec::new();
            let mut j: usize = 0;
            while j < block_count
                invariant
                    j <= block_count,
                    blocks@.len() == j,
                    forall|t: int| 0 <= t < j ==> #[trigger] blocks@[t] is None,
                decreases block_count - j,
            {
                blocks.push(None);
                j = j + 1;
            }
            let ghost old_pieces = self.pieces@;
            self.pieces.set(idx, PieceState::Downloading { blocks, received: 0 });
            proof {
                assert(blocks_view(blocks@) =~= Seq::new(block_count_for(plen), |j: int| None));
                lemma_received_none(block_count_for(plen));
                assert(self@.pieces =~= old(self)@.pieces.update(
                    piece_index as int,
                    old(self)@.started(piece_index as int),
                ));
            }
        } else {
            assert(old(self)@.pieces.update(piece_index as int, old(self)@.started(piece_index as int))
                =~= old(self)@.pieces);
        }
    }

    /// Stores a received block: begins the piece if it was missing, then
    /// keeps the data if its block was still missing. True exactly when
    /// this block was the last one the piece lacked.
    pub fn store_block(&mut self, index: u32, begin: u32, data: Vec<u8>) -> (r: bool)
        requires
            old(self)@.wf(),
            index < old(self)@.pieces.len(),
        ensures
            final(self)@.wf(),
            (final(self)@, r) == old(self)@.stored(index as int, begin, data@),
            r ==> (final(self)@.pieces[index as int] matches PieceView::Downloading { blocks, .. }
                && forall|i: int| 0 <= i < blocks.len() ==> #[trigger] blocks[i] is Some),
    {
        self.ensure_downloading(index);
        let idx = index as usize;
        let ghost mid = self@;
        if !matches!(self.pieces[idx], PieceState::Downloading { .. }) {
            assert(mid.pieces =~= old(self)@.pieces);
            return false;
        }
        let ghost raw = self.pieces@;
        let state = self.pieces.remove(idx);
        match state {
            PieceState::Downloading { mut blocks, received } => {
                assert(piece_wf(mid.pieces[idx as int], mid.meta.piece_length_for(idx as int)));
                proof {
                    lemma_received_bound(blocks_view(blocks@));
                }
                let block_idx = (begin / BLOCK_LEN) as usize;
                if block_idx < blocks.len() && blocks[block_idx].is_none() {
                    let ghost bv = blocks_view(blocks@);
                    blocks.set(block_idx, Some(data));
                    let n = received + 1;
                    let done = n == blocks.len();
                    proof {
                        assert(blocks_view(blocks@) =~= bv.update(block_idx as int, Some(data@)));
                        lemma_received_update(bv, block_idx as int, data@);
                        lemma_received_bound(blocks_view(blocks@));
                    }
                    self.pieces.insert(idx, PieceState::Downloading { blocks, received: n });
                    proof {
                        assert(self.pieces@ =~= raw.update(idx as int, self.pieces@[idx as int]));
                        assert(self@.pieces =~= mid.pieces.update(idx as int, self.pieces@[idx as int]@));
                        assert(self@.pieces =~= old(self)@.stored(index as int, begin, data@).0.pieces);
                    }
                    done
                } else {
                    self.pieces.insert(idx, PieceState::Downloading { blocks, received });
                    proof {
                        assert(self.pieces@ =~= raw);
                        assert(self@.pieces =~= mid.pieces);
                    }
                    false
                }
            },
            _ => {
                self.pieces.insert(idx, state);
                proof {
                    assert(self.pieces@ =~= raw);
                }
                false
            },
        }
    }

    /// The blocks of piece `index` that have arrived, one after the other;
    /// nothing for a piece that is not downloading.
    pub fn assemble(&self, index: u32) -> (r: Vec<u8>)
        requires
            self@.wf(),
            index < self@.pieces.len(),
        ensures
            r@ == match self@.pieces[index as int] {
                PieceView::Downloading { blocks, .. } => flatten_blocks(blocks),
                _ => Seq::empty(),
            },
    {
        match &self.pieces[index as usize] {
            PieceState::Downloading { blocks, .. } => {
                let ghost bv = blocks_view(blocks@);
                let mut data: Vec<u8> = Vec::new();
                let mut j: usize = 0;
                while j < blocks.len()
                    invariant
                        j <= blocks@.len(),
                        bv == blocks_view(blocks@),
                        data@ == flatten_blocks(bv.take(j as int)),
                    decreases blocks@.len() - j,
                {
                    assert(bv.take(j + 1).drop_last() =~= bv.take(j as int));
                    assert(bv.take(j + 1).last() == block_view(blocks@[j as int]));
                    match &blocks[j] {
                        Some(b) => append_bytes(&mut data, b.as_slice()),
                        None => {
                            assert(data@ =~= data@ + Seq::<u8>::empty());
                        },
                    }
                    j = j + 1;
                }
                assert(bv.take(j as int) =~= bv);
                data
            },
            _ => Vec::new(),
        }
    }

    /// Checks `data` against the digest of piece `index`.
    pub fn verify(&self, index: u32, data: &[u8]) -> (r: Result<(), BError>)
        ensures
            r is Ok <==> (index < self@.meta.info.pieces.len() && sha1_spec(data@)
                == self@.meta.info.pieces[index as int]),
            r matches Err(e) ==> e matches BError::Session(s) && s@ == if index
                < self@.meta.info.pieces.len() {
                "SHA1 mismatch for piece "@ + decimal_text(index as nat)
            } else {
                "no hash for piece "@ + decimal_text(index as nat)
            },
    {
        let expected = match self.metainfo.piece_hash(index as usize) {
            Some(h) => h,
            None => {
                return Err(
                    BError::Session(
                        "no hash for piece ".to_string().concat(decimal_string(index as u64).as_str()),
                    ),
                );
            },
        };
        let actual = sha1_digest(data);
        if !same_20(&actual, expected) {
            return Err(
                BError::Session(
                    "SHA1 mismatch for piece ".to_string().concat(decimal_string(index as u64).as_str()),
                ),
            );
        }
        Ok(())
    }

    /// Marks piece `index` complete.
    pub fn mark_complete(&mut self, index: u32)
        requires
            old(self)@.wf(),
            index < old(self)@.pieces.len(),
        ensures
            final(self)@ == old(self)@.completed(index as int),
            final(self)@.wf(),
    {
        self.pieces.set(index as usize, PieceState::Complete);
        assert(self@.pieces =~= old(self)@.pieces.update(index as int, PieceView::Complete));
    }

    /// Records a request sent to `peer_id`, which then has one more
    /// outstanding.
    pub fn mark_inflight(&mut self, peer_id: PeerId, index: u32, begin: u32)
        requires
            old(self)@.wf(),
            old(self)@.pipeline_count(peer_id.0@) < usize::MAX,
        ensures
            final(self)@ == old(self)@.requested(peer_id.0@, index, begin),
            final(self)@.wf(),
    {
        let mut present = false;
        let mut i: usize = 0;
        while i < self.inflight.len()
            invariant
                i <= self.inflight@.len(),
                present ==> inflight_set(self.inflight@).contains((peer_id.0@, index, begin)),
            decreases self.inflight@.len() - i,
        {
            let e = self.inflight[i];
            if e.0.same(&peer_id) && e.1 == index && e.2 == begin {
                assert(self.inflight@[i as int].0.0@ == peer_id.0@);
                present = true;
            }
            i = i + 1;
        }
        if present {
            assert(inflight_set(self.inflight@).insert((peer_id.0@, index, begin)) =~= inflight_set(
                self.inflight@,
            ));
        } else {
            let ghost before = self.inflight@;
            self.inflight.push((peer_id, index, begin));
            proof {
                lemma_inflight_push(before, (peer_id, index, begin));
            }
        }
        let c = match self.peer_pipeline.get(&peer_id) {
            Some(c) => c,
            None => 0,
        };
        self.peer_pipeline.insert(peer_id, c + 1);
    }

    /// Forgets a request answered or cancelled by `peer_id`, which then has
    /// one fewer outstanding (never fewer than none).
    pub fn clear_inflight(&mut self, peer_id: PeerId, index: u32, begin: u32)
        requires
            old(self)@.wf(),
        ensures
            final(self)@ == old(self)@.cleared(peer_id.0@, index, begin),
            final(self)@.wf(),
    {
        let ghost t = (peer_id.0@, index, begin);
        let ghost q = |k: (Seq<u8>, u32, u32)| k != t;
        self.keep_requests(Ghost(q), &peer_id, true, index, begin);
        assert(inflight_set(self.inflight@) =~= old(self)@.inflight.remove(t));
        match self.peer_pipeline.get(&peer_id) {
            Some(c) => {
                let d = if c == 0 {
                    0
                } else {
                    c - 1
                };
                self.peer_pipeline.insert(peer_id, d);
            },
            None => {},
        }
    }

    /// Forgets every request outstanding with `peer_id`.
    pub fn cancel_all_inflight(&mut self, peer_id: &PeerId)
        requires
            old(self)@.wf(),
        ensures
            final(self)@ == old(self)@.cancelled(peer_id.0@),
            final(self)@.wf(),
    {
        let ghost q = |k: (Seq<u8>, u32, u32)| k.0 != peer_id.0@;
        self.keep_requests(Ghost(q), peer_id, false, 0, 0);
        self.peer_pipeline.remove(peer_id);
    }

    fn keep_requests(
        &mut self,
        Ghost(q): Ghost<spec_fn((Seq<u8>, u32, u32)) -> bool>,
        peer_id: &PeerId,
        exact: bool,
        index: u32,
        begin: u32,
    )
        requires
            old(self)@.wf(),
            exact ==> forall|k: (Seq<u8>, u32, u32)| #[trigger] q(k) == (k != (peer_id.0@, index, begin)),
            !exact ==> forall|k: (Seq<u8>, u32, u32)| #[trigger] q(k) == (k.0 != peer_id.0@),
        ensures
            final(self)@ == (TrackerView { inflight: old(self)@.inflight.filter(q), ..old(self)@ }),
            final(self)@.wf(),
    {
        let mut kept: Vec<(PeerId, u32, u32)> = Vec::new();
        let mut i: usize = 0;
        while i < self.inflight.len()
            invariant
                i <= self.inflight@.len(),
                exact ==> forall|k: (Seq<u8>, u32, u32)| #[trigger] q(k) == (k != (peer_id.0@, index, begin)),
                !exact ==> forall|k: (Seq<u8>, u32, u32)| #[trigger] q(k) == (k.0 != peer_id.0@),
                kept@ == keep_where(self.inflight@.take(i as int), q),
            decreases self.inflight@.len() - i,
        {
            let e = self.inflight[i];
            let ghost next = self.inflight@.take(i + 1);
            assert(next.drop_last() =~= self.inflight@.take(i as int));
            assert(next.last() == e);
            let drop = if exact {
                e.0.same(peer_id) && e.1 == index && e.2 == begin
            } else {
                e.0.same(peer_id)
            };
            assert(drop == !q(request_key(e)));
            if !drop {
                kept.push(e);
            }
            i = i + 1;
        }
        assert(self.inflight@.take(i as int) =~= self.inflight@);
        proof {
            lemma_keep_where(self.inflight@, q);
        }
        self.inflight = kept;
    }

    /// The torrent whose pieces are tracked.
    pub fn metainfo(&self) -> (r: &Metainfo)
        ensures
            r@ == self@.meta,
    {
        &self.metainfo
    }

    /// How many requests are outstanding with `peer_id`.
    pub fn peer_pipeline_count(&self, peer_id: &PeerId) -> (r: usize)
        ensures
            r == self@.pipeline_count(peer_id.0@),
    {
        match self.peer_pipeline.get(peer_id) {
            Some(c) => c,
            None => 0,
        }
    }
}

} // verus!
