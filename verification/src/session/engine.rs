//! The decisions of a session, apart from the network and the disk: what
//! to do with each message from a peer, which blocks to ask for, whom to
//! choke, and what to forget when a peer leaves. Each step hands back the
//! actions that the caller is to carry out.

use vstd::prelude::*;

use crate::bitfield::{lemma_with_piece, Bitfield, BitfieldView};
use crate::error::BError;
use crate::metainfo::{Metainfo, MetainfoView};
use crate::peer::connection::{wants_from, PeerContext, PeerView};
use crate::peer::message::{Message, MessageView};
use crate::session::peer_map::PeerMap;
use crate::extern_calls::{choose_one, sha1_spec};
use crate::session::tracker::{flatten_blocks, PieceTracker, PieceView, TrackerView};
use crate::types::{PeerId, BLOCK_LEN};

verus! {

/// What the caller is to do after a step.
#[derive(Debug)]
pub enum Action {
    /// Send `msg` to `peer`.
    Send { peer: PeerId, msg: Message },
    /// Send `msg` to every connected peer.
    Broadcast(Message),
    /// Write the verified piece `index` to storage.
    WritePiece { index: u32, data: Vec<u8> },
    /// Read piece `index` and hand it to `SessionCore::serve_block`, which
    /// answers `peer`'s request for `length` bytes from `begin`.
    Serve { peer: PeerId, index: u32, begin: u32, length: u32 },
}

/// The content of an [`Action`].
pub enum ActionView {
    Send { peer: Seq<u8>, msg: MessageView },
    Broadcast(MessageView),
    WritePiece { index: u32, data: Seq<u8> },
    Serve { peer: Seq<u8>, index: u32, begin: u32, length: u32 },
}

impl View for Action {
    type V = ActionView;

    open spec fn view(&self) -> ActionView {
        match self {
            Action::Send { peer, msg } => ActionView::Send { peer: peer.0@, msg: msg@ },
            Action::Broadcast(m) => ActionView::Broadcast(m@),
            Action::WritePiece { index, data } => ActionView::WritePiece { index: *index, data: data@ },
            Action::Serve { peer, index, begin, length } => ActionView::Serve {
                peer: peer.0@,
                index: *index,
                begin: *begin,
                length: *length,
            },
        }
    }
}

pub open spec fn actions_view(a: Seq<Action>) -> Seq<ActionView> {
    a.map_values(|x: Action| x@)
}

/// The content of a session's state.
#[verifier::ext_equal]
pub struct CoreView {
    pub ours: BitfieldView,
    pub tracker: TrackerView,
    pub peers: Seq<PeerView>,
    pub uploads: Map<Seq<u8>, u64>,
    pub round: u64,
    pub is_seed: bool,
    pub pipeline_depth: usize,
    pub upload_slots: usize,
}

/// Context `i` is that of peer `id`.
pub open spec fn peer_at(peers: Seq<PeerView>, id: Seq<u8>, i: int) -> bool {
    0 <= i < peers.len() && peers[i].peer_id == id
}

/// No two contexts are of the same peer.
pub open spec fn peers_unique(peers: Seq<PeerView>) -> bool {
    forall|i: int, j: int|
        0 <= i < peers.len() && 0 <= j < peers.len() && i != j ==> #[trigger] peers[i].peer_id
            != #[trigger] peers[j].peer_id
}

/// Piece `x` may be asked of a peer with bitfield `bf`, and no other such
/// piece is had by fewer peers.
pub open spec fn rarest(t: TrackerView, bf: BitfieldView, x: int) -> bool {
    &&& t.candidate(bf, x)
    &&& forall|j: int| t.candidate(bf, j) ==> t.availability[x] <= #[trigger] t.availability[j]
}

/// The piece that a request action asks for.
pub open spec fn requested_index(a: ActionView) -> u32 {
    match a {
        ActionView::Send { msg: MessageView::Request { index, .. }, .. } => index,
        _ => 0,
    }
}

/// `a` asks peer `id` for the first block of a rarest piece that it has.
pub open spec fn is_first_block_request(t: TrackerView, bf: BitfieldView, id: Seq<u8>, a: ActionView) -> bool {
    match a {
        ActionView::Send { peer, msg: MessageView::Request { index, begin, length } } => {
            &&& peer == id
            &&& begin == 0
            &&& rarest(t, bf, index as int)
            &&& length == t.meta.block_length_for(index as int, 0)
        },
        _ => false,
    }
}

impl CoreView {
    /// The tracker and our bitfield cover the torrent's pieces, no peer is
    /// known twice, and every bitfield is well formed. A peer's bitfield is
    /// kept as it came, whatever its length.
    pub open spec fn wf(self) -> bool {
        &&& self.tracker.wf()
        &&& self.ours.total == self.tracker.pieces.len()
        &&& self.ours.wf()
        &&& peers_unique(self.peers)
        &&& forall|i: int| 0 <= i < self.peers.len() ==> (#[trigger] self.peers[i]).bitfield.wf()
    }

    /// There is a context for peer `id`.
    pub open spec fn known(self, id: Seq<u8>) -> bool {
        exists|i: int| peer_at(self.peers, id, i)
    }

    /// Where the context of peer `id` is.
    pub open spec fn index_of(self, id: Seq<u8>) -> int {
        choose|i: int| peer_at(self.peers, id, i)
    }

    /// The context of peer `id`, which must be known.
    pub open spec fn ctx(self, id: Seq<u8>) -> PeerView {
        self.peers[self.index_of(id)]
    }

    /// The context of peer `id` replaced by `c`.
    pub open spec fn with_ctx(self, id: Seq<u8>, c: PeerView) -> CoreView {
        CoreView { peers: self.peers.update(self.index_of(id), c), ..self }
    }

    /// Blocks may be asked of peer `id`: we are downloading, it does not
    /// choke us, and we want something that it has.
    pub open spec fn may_request(self, id: Seq<u8>) -> bool {
        &&& !self.is_seed
        &&& self.known(id)
        &&& !self.ctx(id).peer_choking
        &&& self.ctx(id).am_interested
    }

    /// How many requests filling the pipeline of peer `id` adds: up to the
    /// pipeline depth, if there is a piece to ask for.
    pub open spec fn fill_count(self, id: Seq<u8>) -> int {
        let t = self.tracker;
        let bf = self.ctx(id).bitfield;
        if t.pipeline_count(id) < self.pipeline_depth && exists|i: int| t.candidate(bf, i) {
            self.pipeline_depth - t.pipeline_count(id)
        } else {
            0
        }
    }

    /// After a `Choke` from `id`: it chokes us, and its requests are
    /// forgotten.
    pub open spec fn after_choke(self, id: Seq<u8>) -> CoreView {
        let v = if self.known(id) {
            self.with_ctx(id, PeerView { peer_choking: true, ..self.ctx(id) })
        } else {
            self
        };
        CoreView { tracker: self.tracker.cancelled(id), ..v }
    }

    /// After an `Unchoke` from `id`, before its pipeline is filled.
    pub open spec fn after_unchoke(self, id: Seq<u8>) -> CoreView {
        if self.known(id) {
            self.with_ctx(id, PeerView { peer_choking: false, ..self.ctx(id) })
        } else {
            self
        }
    }

    /// After `Interested` (`b`) or `NotInterested` from `id`.
    pub open spec fn after_interest(self, id: Seq<u8>, b: bool) -> CoreView {
        if self.known(id) {
            self.with_ctx(id, PeerView { peer_interested: b, ..self.ctx(id) })
        } else {
            self
        }
    }

    /// A `Have` of `index` from `id` is news: the peer is known and was
    /// not known to have the piece.
    pub open spec fn have_applies(self, id: Seq<u8>, index: u32) -> bool {
        self.known(id) && !self.ctx(id).bitfield.has(index as int)
    }

    /// After news of `Have(index)` from `id`, before its pipeline is
    /// filled: the piece is marked in its bitfield, its availability
    /// rises, and our interest is brought up to date.
    pub open spec fn after_have(self, id: Seq<u8>, index: u32) -> CoreView {
        let c = self.ctx(id);
        let bf = c.bitfield.with_piece(index as int);
        CoreView {
            tracker: self.tracker.bumped(seq![index as usize], true),
            ..self.with_ctx(id, PeerView { bitfield: bf, am_interested: wants_from(bf, self.ours), ..c })
        }
    }

    /// After a `Bitfield` from `id`: the pieces of its old bitfield count
    /// one peer fewer; if it is known, those of the new one count one peer
    /// more, it becomes its bitfield, and our interest is brought up to
    /// date.
    pub open spec fn after_bitfield(self, id: Seq<u8>, bf: BitfieldView) -> CoreView {
        let prev = if self.known(id) {
            self.ctx(id).bitfield.pieces_below(self.ctx(id).bitfield.total as int, true)
        } else {
            Seq::empty()
        };
        let t1 = self.tracker.bumped(prev, false);
        if self.known(id) {
            CoreView {
                tracker: t1.bumped(bf.pieces_below(bf.total as int, true), true),
                ..self.with_ctx(
                    id,
                    PeerView { bitfield: bf, am_interested: wants_from(bf, self.ours), ..self.ctx(id) },
                )
            }
        } else {
            CoreView { tracker: t1, ..self }
        }
    }

    /// What a `Bitfield` from `id` makes us send: interest and an unchoke,
    /// if we are downloading and want something that it has.
    pub open spec fn bitfield_acts(self, id: Seq<u8>, bf: BitfieldView) -> Seq<ActionView> {
        if self.known(id) && wants_from(bf, self.ours) && !self.is_seed {
            seq![
                ActionView::Send { peer: id, msg: MessageView::Interested },
                ActionView::Send { peer: id, msg: MessageView::Unchoke },
            ]
        } else {
            Seq::empty()
        }
    }

    /// What a `Request` from `id` makes us do: serve it if we do not choke
    /// the peer and have the piece.
    pub open spec fn request_acts(self, id: Seq<u8>, index: u32, begin: u32, length: u32) -> Seq<ActionView> {
        if self.known(id) && !self.ctx(id).am_choking && self.ours.has(index as int) {
            seq![ActionView::Serve { peer: id, index, begin, length }]
        } else {
            Seq::empty()
        }
    }

    /// After a `Piece` from `id`, before its pipeline is filled, and what
    /// it makes us do: its request is forgotten and the block stored; if
    /// that completes the piece and the piece matches its digest, the piece
    /// is complete, is ours, is written and is announced.
    pub open spec fn after_piece(self, id: Seq<u8>, index: u32, begin: u32, data: Seq<u8>) -> (
        CoreView,
        Seq<ActionView>,
    ) {
        let t1 = self.tracker.cleared(id, index, begin);
        let (t2, done) = t1.stored(index as int, begin, data);
        let assembled = match t2.pieces[index as int] {
            PieceView::Downloading { blocks, .. } => flatten_blocks(blocks),
            _ => Seq::empty(),
        };
        if done && sha1_spec(assembled) == self.tracker.meta.info.pieces[index as int] {
            (
                CoreView {
                    tracker: t2.completed(index as int),
                    ours: self.ours.with_piece(index as int),
                    ..self
                },
                seq![
                    ActionView::WritePiece { index, data: assembled },
                    ActionView::Broadcast(MessageView::Have(index)),
                ],
            )
        } else {
            (CoreView { tracker: t2, ..self }, Seq::empty())
        }
    }

    /// After peer `id` disconnects: the pieces of its bitfield count one
    /// peer fewer, its requests and its upload count are forgotten, and
    /// its context is dropped.
    pub open spec fn after_disconnect(self, id: Seq<u8>) -> CoreView {
        let prev = if self.known(id) {
            self.ctx(id).bitfield.pieces_below(self.ctx(id).bitfield.total as int, true)
        } else {
            Seq::empty()
        };
        CoreView {
            tracker: self.tracker.bumped(prev, false).cancelled(id),
            peers: if self.known(id) {
                self.peers.remove(self.index_of(id))
            } else {
                self.peers
            },
            uploads: self.uploads.remove(id),
            ..self
        }
    }

    /// How many bytes we have uploaded to peer `id`.
    pub open spec fn uploaded_to(self, id: Seq<u8>) -> u64 {
        if self.uploads.contains_key(id) {
            self.uploads[id]
        } else {
            0
        }
    }

    /// How many bytes of piece `index` count when it is read back for
    /// seeding: all of `len`, unless that runs past the end of the torrent.
    pub open spec fn seed_len(self, index: int, len: nat) -> nat {
        let left = self.tracker.meta.info.total_length - index * self.tracker.meta.info.piece_length;
        let left = if left < 0 {
            0
        } else {
            left
        };
        if len > left {
            left as nat
        } else {
            len
        }
    }

    /// The bytes uploaded to the peer of context `i`.
    pub open spec fn uploaded_at(self, i: int) -> u64 {
        self.uploaded_to(self.peers[i].peer_id)
    }

    /// Interested peer `j` comes before peer `i` in the unchoking order:
    /// more has been uploaded to it, or as much and it came first.
    pub open spec fn ranks_before(self, j: int, i: int) -> bool {
        &&& self.peers[j].peer_interested
        &&& (self.uploaded_at(j) > self.uploaded_at(i) || (self.uploaded_at(j) == self.uploaded_at(i)
            && j < i))
    }

    /// How many of the first `n` contexts come before context `i`.
    pub open spec fn rank_below(self, i: int, n: int) -> nat
        decreases n,
    {
        if n <= 0 {
            0
        } else {
            self.rank_below(i, n - 1) + if self.ranks_before(n - 1, i) {
                1nat
            } else {
                0nat
            }
        }
    }

    /// Context `i` is interested and among the first `upload_slots` in the
    /// unchoking order.
    pub open spec fn in_slots(self, i: int) -> bool {
        self.peers[i].peer_interested && self.rank_below(i, self.peers.len() as int) < self.upload_slots
    }

    /// The contexts after a round: interested peers in the slots are
    /// unchoked, the other interested peers choked.
    pub open spec fn tft_peers(self) -> Seq<PeerView> {
        Seq::new(
            self.peers.len(),
            |i: int|
                if self.peers[i].peer_interested {
                    PeerView { am_choking: !self.in_slots(i), ..self.peers[i] }
                } else {
                    self.peers[i]
                },
        )
    }

    /// The unchokes sent in a round to the first `n` contexts: to those in
    /// the slots that we choked.
    pub open spec fn unchoke_acts(self, n: int) -> Seq<ActionView>
        decreases n,
    {
        if n <= 0 {
            Seq::empty()
        } else if self.in_slots(n - 1) && self.peers[n - 1].am_choking {
            self.unchoke_acts(n - 1).push(
                ActionView::Send { peer: self.peers[n - 1].peer_id, msg: MessageView::Unchoke },
            )
        } else {
            self.unchoke_acts(n - 1)
        }
    }

    /// The chokes sent in a round to the first `n` contexts: to those
    /// interested, outside the slots and not choked.
    pub open spec fn choke_acts(self, n: int) -> Seq<ActionView>
        decreases n,
    {
        if n <= 0 {
            Seq::empty()
        } else if self.peers[n - 1].peer_interested && !self.in_slots(n - 1)
            && !self.peers[n - 1].am_choking {
            self.choke_acts(n - 1).push(
                ActionView::Send { peer: self.peers[n - 1].peer_id, msg: MessageView::Choke },
            )
        } else {
            self.choke_acts(n - 1)
        }
    }

    /// The state after the regular part of a round: the round counted and
    /// the slots applied.
    pub open spec fn tft_base(self) -> CoreView {
        CoreView {
            peers: self.tft_peers(),
            round: if self.round == u64::MAX {
                0
            } else {
                (self.round + 1) as u64
            },
            ..self
        }
    }
}

/// Context `k` once the first `i` contexts have been unchoked where they
/// are in the slots.
pub open spec fn after_unchokes(v: CoreView, k: int, i: int) -> PeerView {
    if k < i && v.in_slots(k) {
        PeerView { am_choking: false, ..v.peers[k] }
    } else {
        v.peers[k]
    }
}

/// Context `i` is of an interested peer that we choke.
pub open spec fn still_choked(v: CoreView, i: int) -> bool {
    0 <= i < v.peers.len() && v.peers[i].peer_interested && v.peers[i].am_choking
}

/// `w` and `acts` are what a round of choking gives from `v`: the round is
/// counted; interested peers are unchoked in the order of what has been
/// uploaded to them, as many as there are upload slots, and the other
/// interested peers choked, each told only of a change; every third round
/// one interested peer that is still choked, picked at random, is unchoked
/// as well.
pub open spec fn tft_done(v: CoreView, w: CoreView, acts: Seq<ActionView>) -> bool {
    let b = v.tft_base();
    let base_acts = v.unchoke_acts(v.peers.len() as int) + v.choke_acts(v.peers.len() as int);
    if b.round % 3 == 0 && exists|i: int| #[trigger] still_choked(b, i) {
        exists|i: int|
            #[trigger] still_choked(b, i) && w == (CoreView {
                peers: b.peers.update(i, PeerView { am_choking: false, ..b.peers[i] }),
                ..b
            }) && acts == base_acts.push(
                ActionView::Send { peer: b.peers[i].peer_id, msg: MessageView::Unchoke },
            )
    } else {
        w == b && acts == base_acts
    }
}

/// No piece from the torrent's `n` on is marked in `bf`.
pub open spec fn within(bf: BitfieldView, n: nat) -> bool {
    forall|i: int| #[trigger] bf.has(i) ==> i < n
}

/// The state from which message `m` from `id` has blocks asked of `id`, if
/// it does.
pub open spec fn fill_from(v: CoreView, id: Seq<u8>, m: MessageView) -> Option<CoreView> {
    match m {
        MessageView::Unchoke => Some(v.after_unchoke(id)),
        MessageView::Have(index) => if v.have_applies(id, index) {
            Some(v.after_have(id, index))
        } else {
            None
        },
        MessageView::Piece { index, begin, data } => Some(v.after_piece(id, index, begin, data).0),
        _ => None,
    }
}

/// A message that the session can take from peer `id`: a piece, if it is
/// one, is within the torrent; and where blocks are then asked of `id`, its
/// bitfield marks no piece past the torrent (picking among its pieces looks
/// each of them up among the torrent's).
pub open spec fn message_fits(v: CoreView, id: Seq<u8>, m: MessageView) -> bool {
    &&& (m matches MessageView::Piece { index, .. } ==> index < v.tracker.pieces.len())
    &&& (fill_from(v, id, m) matches Some(b) ==> (b.may_request(id) ==> within(
        b.ctx(id).bitfield,
        b.tracker.pieces.len(),
    )))
}

/// `w` and `acts` are what message `m` from peer `id` gives from `v`.
pub open spec fn handled(v: CoreView, id: Seq<u8>, m: MessageView, w: CoreView, acts: Seq<ActionView>) -> bool {
    match m {
        MessageView::Choke => w == v.after_choke(id) && acts.len() == 0,
        MessageView::Unchoke => filled(v.after_unchoke(id), w, id, acts),
        MessageView::Interested => w == v.after_interest(id, true) && acts.len() == 0,
        MessageView::NotInterested => w == v.after_interest(id, false) && acts.len() == 0,
        MessageView::Have(index) => if v.have_applies(id, index) {
            filled(v.after_have(id, index), w, id, acts)
        } else {
            w == v && acts.len() == 0
        },
        MessageView::Bitfield(bf) => w == v.after_bitfield(id, bf) && acts == v.bitfield_acts(id, bf),
        MessageView::Request { index, begin, length } => w == v && acts == v.request_acts(
            id,
            index,
            begin,
            length,
        ),
        MessageView::Piece { index, begin, data } => {
            let (mid, pre) = v.after_piece(id, index, begin, data);
            &&& pre.len() <= acts.len()
            &&& acts.take(pre.len() as int) == pre
            &&& filled(mid, w, id, acts.skip(pre.len() as int))
        },
        MessageView::Cancel { index, begin, .. } => w == (CoreView {
            tracker: v.tracker.cleared(id, index, begin),
            ..v
        }) && acts.len() == 0,
    }
}

/// The requests for first blocks that `acts` sends to peer `id`.
pub open spec fn requests_set(id: Seq<u8>, acts: Seq<ActionView>) -> Set<(Seq<u8>, u32, u32)> {
    Set::new(
        |r: (Seq<u8>, u32, u32)|
            exists|k: int| 0 <= k < acts.len() && r == (id, requested_index(#[trigger] acts[k]), 0u32),
    )
}

proof fn lemma_requests_set_push(id: Seq<u8>, acts: Seq<ActionView>, a: ActionView)
    ensures
        requests_set(id, acts.push(a)) == requests_set(id, acts).insert((id, requested_index(a), 0u32)),
{
    let n = acts.push(a);
    assert forall|r: (Seq<u8>, u32, u32)| #[trigger] requests_set(id, n).contains(r)
        == requests_set(id, acts).insert((id, requested_index(a), 0u32)).contains(r) by {
        if requests_set(id, n).contains(r) {
            let k = choose|k: int| 0 <= k < n.len() && r == (id, requested_index(#[trigger] n[k]), 0u32);
            if k < acts.len() {
                assert(n[k] == acts[k]);
            }
        }
        if requests_set(id, acts).contains(r) {
            let k = choose|k: int| 0 <= k < acts.len() && r == (id, requested_index(#[trigger] acts[k]), 0u32);
            assert(n[k] == acts[k]);
        }
        if r == (id, requested_index(a), 0u32) {
            assert(n[acts.len() as int] == a);
        }
    }
    assert(requests_set(id, n) =~= requests_set(id, acts).insert((id, requested_index(a), 0u32)));
}

/// `after` and `acts` are what filling the pipeline of peer `id` gives from
/// `before`: while fewer than `pipeline_depth` requests are outstanding
/// with it, ask it for the first block of one of the rarest pieces that it
/// has and that have not begun downloading.
pub open spec fn filled(before: CoreView, after: CoreView, id: Seq<u8>, acts: Seq<ActionView>) -> bool {
    if before.may_request(id) {
        let t = before.tracker;
        let bf = before.ctx(id).bitfield;
        let n = before.fill_count(id);
        &&& acts.len() == n
        &&& forall|k: int| 0 <= k < n ==> is_first_block_request(t, bf, id, #[trigger] acts[k])
        &&& after == (CoreView {
            tracker: TrackerView {
                inflight: t.inflight.union(requests_set(id, acts)),
                pipeline: if n > 0 {
                    t.pipeline.insert(id, before.pipeline_depth)
                } else {
                    t.pipeline
                },
                ..t
            },
            ..before
        })
    } else {
        after == before && acts.len() == 0
    }
}

/// With no peer known twice, a peer's context is the one found for it.
proof fn lemma_index_of(v: CoreView, id: Seq<u8>, i: int)
    requires
        peers_unique(v.peers),
        peer_at(v.peers, id, i),
    ensures
        v.known(id),
        v.index_of(id) == i,
        v.ctx(id) == v.peers[i],
{
    let j = v.index_of(id);
    assert(peer_at(v.peers, id, j));
    if j != i {
        assert(v.peers[i].peer_id != v.peers[j].peer_id);
    }
}

/// Replacing the context of a known peer by one of the same peer: it is
/// still known, with the new context, and no peer is known twice.
proof fn lemma_with_ctx(v: CoreView, id: Seq<u8>, c: PeerView)
    requires
        peers_unique(v.peers),
        v.known(id),
        c.peer_id == id,
    ensures
        peers_unique(v.with_ctx(id, c).peers),
        v.with_ctx(id, c).known(id),
        v.with_ctx(id, c).ctx(id) == c,
{
    let i = v.index_of(id);
    let w = v.with_ctx(id, c);
    assert(peer_at(v.peers, id, i));
    assert forall|a: int, b: int|
        0 <= a < w.peers.len() && 0 <= b < w.peers.len() && a != b implies #[trigger] w.peers[a].peer_id
        != #[trigger] w.peers[b].peer_id by {
        assert(w.peers[a].peer_id == v.peers[a].peer_id);
        assert(w.peers[b].peer_id == v.peers[b].peer_id);
    }
    assert(peer_at(w.peers, id, i));
    lemma_index_of(w, id, i);
}

/// Whether `bf` marks a piece from `n` on.
fn marks_past(bf: &Bitfield, n: usize) -> (r: bool)
    ensures
        r == !within(bf@, n as nat),
{
    let total = bf.total_pieces();
    let mut i: usize = n;
    while i < total
        invariant
            n <= i,
            total == bf@.total,
            forall|j: int| n <= j < i ==> !#[trigger] bf@.has(j),
        decreases total - i,
    {
        if bf.has(i) {
            assert(!within(bf@, n as nat)) by {
                assert(bf@.has(i as int));
            }
            return true;
        }
        i = i + 1;
    }
    assert forall|j: int| #[trigger] bf@.has(j) implies j < n by {
        if j >= n {
            assert(j < total);
        }
    }
    false
}

/// Whether `peer` has a piece that `ours` lacks.
fn wants(peer: &Bitfield, ours: &Bitfield) -> (r: bool)
    ensures
        r == wants_from(peer@, ours@),
{
    let total = peer.total_pieces();
    let mut i: usize = 0;
    while i < total
        invariant
            total == peer@.total,
            forall|j: int| 0 <= j < i ==> !(#[trigger] peer@.has(j) && !ours@.has(j)),
        decreases total - i,
    {
        if peer.has(i) && !ours.has(i) {
            assert(peer@.has(i as int) && !ours@.has(i as int));
            return true;
        }
        i = i + 1;
    }
    assert(!wants_from(peer@, ours@)) by {
        if wants_from(peer@, ours@) {
            let j = choose|j: int| #[trigger] peer@.has(j) && !ours@.has(j);
            assert(0 <= j < total);
        }
    }
    false
}

proof fn lemma_replace_view(s: Seq<PeerContext>, i: int, c: PeerContext)
    requires
        0 <= i < s.len(),
    ensures
        s.remove(i).insert(i, c).map_values(|x: PeerContext| x@) == s.map_values(|x: PeerContext| x@).update(i, c@),
{
    assert(s.remove(i).insert(i, c).map_values(|x: PeerContext| x@) =~= s.map_values(|x: PeerContext| x@).update(i, c@));
}

/// Filling a pipeline keeps no more than `pipeline_depth` requests
/// outstanding with a peer that had no more than that, and changes neither
/// the pieces nor the peers.
pub proof fn lemma_fill_bounded(before: CoreView, after: CoreView, id: Seq<u8>, acts: Seq<ActionView>)
    requires
        filled(before, after, id, acts),
        before.tracker.pipeline_count(id) <= before.pipeline_depth,
    ensures
        after.tracker.pipeline_count(id) <= before.pipeline_depth,
        after.tracker.pieces == before.tracker.pieces,
        after.tracker.availability == before.tracker.availability,
        after.peers == before.peers,
        after.ours == before.ours,
{
}

/// A `Have` that repeats one just handled, from the same peer and for a
/// piece of its torrent, changes nothing and sends nothing: the piece is
/// already marked in the sender's bitfield.
pub proof fn lemma_repeated_have(
    v: CoreView,
    id: Seq<u8>,
    index: u32,
    w: CoreView,
    acts: Seq<ActionView>,
    w2: CoreView,
    acts2: Seq<ActionView>,
)
    requires
        v.wf(),
        v.known(id),
        index < v.ctx(id).bitfield.total,
        handled(v, id, MessageView::Have(index), w, acts),
        handled(w, id, MessageView::Have(index), w2, acts2),
    ensures
        w2 == w,
        acts2.len() == 0,
{
    let i = v.index_of(id);
    assert(peer_at(v.peers, id, i));
    if v.have_applies(id, index) {
        let c = v.ctx(id);
        let bf = c.bitfield.with_piece(index as int);
        let mid = v.after_have(id, index);
        assert(c.bitfield.wf());
        lemma_with_piece(c.bitfield, index as int);
        assert(bf.has(index as int));
        assert(mid.peers[i].peer_id == id);
        assert(peers_unique(mid.peers)) by {
            assert forall|a: int, b: int|
                0 <= a < mid.peers.len() && 0 <= b < mid.peers.len() && a != b implies #[trigger] mid.peers[a].peer_id
                != #[trigger] mid.peers[b].peer_id by {
                assert(mid.peers[a].peer_id == v.peers[a].peer_id);
                assert(mid.peers[b].peer_id == v.peers[b].peer_id);
            }
        }
        assert(peer_at(mid.peers, id, i));
        lemma_index_of(mid, id, i);
        assert(w.peers == mid.peers);
        assert(peer_at(w.peers, id, i));
        assert(peers_unique(w.peers));
        lemma_index_of(w, id, i);
        assert(w.ctx(id).bitfield == bf);
        assert(!w.have_applies(id, index));
    } else {
        assert(w == v);
    }
}

/// What any message makes a session do is sound: every piece it writes
/// matches its digest, every request it serves is for a piece that it has
/// from a known peer that it does not choke, and every block it asks for
/// is asked of the sender of the message, by a session that is not seeding.
pub proof fn lemma_handled_actions_sound(v: CoreView, id: Seq<u8>, m: MessageView, w: CoreView, acts: Seq<ActionView>)
    requires
        v.wf(),
        message_fits(v, id, m),
        handled(v, id, m, w, acts),
    ensures
        forall|k: int|
            0 <= k < acts.len() ==> match #[trigger] acts[k] {
                ActionView::WritePiece { index, data } => index < v.tracker.pieces.len() && sha1_spec(data)
                    == v.tracker.meta.info.pieces[index as int],
                ActionView::Serve { peer, index, .. } => peer == id && v.ours.has(index as int) && v.known(id)
                    && !v.ctx(id).am_choking,
                ActionView::Send { peer, msg: MessageView::Request { .. } } => peer == id && !v.is_seed,
                _ => true,
            },
{
    assert forall|k: int| 0 <= k < acts.len() implies match #[trigger] acts[k] {
        ActionView::WritePiece { index, data } => index < v.tracker.pieces.len() && sha1_spec(data)
            == v.tracker.meta.info.pieces[index as int],
        ActionView::Serve { peer, index, .. } => peer == id && v.ours.has(index as int) && v.known(id)
            && !v.ctx(id).am_choking,
        ActionView::Send { peer, msg: MessageView::Request { .. } } => peer == id && !v.is_seed,
        _ => true,
    } by {
        match m {
            MessageView::Unchoke => {
                assert(is_first_block_request(v.after_unchoke(id).tracker, v.after_unchoke(id).ctx(id).bitfield, id, acts[k]));
            },
            MessageView::Have(index) => {
                if v.have_applies(id, index) {
                    let mid = v.after_have(id, index);
                    assert(is_first_block_request(mid.tracker, mid.ctx(id).bitfield, id, acts[k]));
                }
            },
            MessageView::Piece { index, begin, data } => {
                let (mid, pre) = v.after_piece(id, index, begin, data);
                if k < pre.len() {
                    assert(acts.take(pre.len() as int)[k] == acts[k]);
                } else {
                    let rest = acts.skip(pre.len() as int);
                    assert(rest[k - pre.len()] == acts[k]);
                    assert(is_first_block_request(mid.tracker, mid.ctx(id).bitfield, id, rest[k - pre.len()]));
                }
            },
            _ => {},
        }
    }
}

proof fn lemma_rank_gap(v: CoreView, i: int, j: int, m: int)
    requires
        v.ranks_before(j, i),
    ensures
        v.rank_below(i, m) >= v.rank_below(j, m) + if 0 <= j < m {
            1int
        } else {
            0int
        },
    decreases m,
{
    if m > 0 {
        lemma_rank_gap(v, i, j, m - 1);
        let k = m - 1;
        if v.ranks_before(k, j) {
            assert(v.ranks_before(k, i));
        }
    }
}

/// The peers that hold a slot in a round of choking.
pub open spec fn slot_holders(v: CoreView) -> Set<int> {
    Set::new(|i: int| 0 <= i < v.peers.len() && v.in_slots(i))
}

/// A round of choking unchokes no more interested peers by their uploads
/// than there are upload slots: no two peers share a place in the order.
pub proof fn lemma_slots_bounded(v: CoreView)
    ensures
        slot_holders(v).finite(),
        slot_holders(v).len() <= v.upload_slots,
        forall|i: int| 0 <= i < v.peers.len() ==> (#[trigger] v.tft_base().peers[i].peer_interested
            && !v.tft_base().peers[i].am_choking) == slot_holders(v).contains(i),
{
    let n = v.peers.len() as int;
    let s = slot_holders(v);
    let f = |i: int| v.rank_below(i, n) as int;
    vstd::set_lib::lemma_int_range(0, n);
    assert(s.subset_of(vstd::set_lib::set_int_range(0, n)));
    vstd::set_lib::lemma_len_subset(s, vstd::set_lib::set_int_range(0, n));
    assert(vstd::relations::injective_on(f, s)) by {
        assert forall|a: int, b: int| s.contains(a) && s.contains(b) && #[trigger] f(a) == #[trigger] f(b) implies a == b by {
            if a != b {
                if v.ranks_before(b, a) {
                    lemma_rank_gap(v, a, b, n);
                } else {
                    assert(v.ranks_before(a, b));
                    lemma_rank_gap(v, b, a, n);
                }
            }
        }
    }
    let img = s.map(f);
    vstd::set_lib::lemma_map_size(s, img, f);
    vstd::set_lib::lemma_int_range(0, v.upload_slots as int);
    assert(img.subset_of(vstd::set_lib::set_int_range(0, v.upload_slots as int))) by {
        assert forall|r: int| img.contains(r) implies vstd::set_lib::set_int_range(0, v.upload_slots as int).contains(r) by {
            let a = choose|a: int| s.contains(a) && f(a) == r;
            assert(v.in_slots(a));
        }
    }
    vstd::set_lib::lemma_len_subset(img, vstd::set_lib::set_int_range(0, v.upload_slots as int));
}

/// The state of a session, apart from connections and storage.
pub struct SessionCore {
    our_bitfield: Bitfield,
    piece_tracker: PieceTracker,
    peer_contexts: Vec<PeerContext>,
    upload_bytes: PeerMap<u64>,
    tft_round: u64,
    is_seed: bool,
    pipeline_depth: usize,
    upload_slots: usize,
}

impl View for SessionCore {
    type V = CoreView;

    closed spec fn view(&self) -> CoreView {
        CoreView {
            ours: self.our_bitfield@,
            tracker: self.piece_tracker@,
            peers: self.peer_contexts@.map_values(|c: PeerContext| c@),
            uploads: self.upload_bytes@,
            round: self.tft_round,
            is_seed: self.is_seed,
            pipeline_depth: self.pipeline_depth,
            upload_slots: self.upload_slots,
        }
    }
}

impl SessionCore {
    /// A session that has no piece yet and knows no peer.
    pub fn new(metainfo: Metainfo, pipeline_depth: usize, upload_slots: usize) -> (r: Self)
        requires
            metainfo@.wf(),
            metainfo@.info.pieces.len() <= u32::MAX,
            metainfo@.info.piece_length + BLOCK_LEN <= u32::MAX,
        ensures
            r@.wf(),
            r@.tracker.meta == metainfo@,
            r@.tracker.pieces == Seq::new(metainfo@.info.pieces.len(), |i: int| PieceView::Pending),
            r@.tracker.availability == Seq::new(metainfo@.info.pieces.len(), |i: int| 0usize),
            r@.tracker.inflight == Set::<(Seq<u8>, u32, u32)>::empty(),
            r@.tracker.pipeline == Map::<Seq<u8>, usize>::empty(),
            r@.ours.total == metainfo@.info.pieces.len(),
            forall|i: int| !#[trigger] r@.ours.has(i),
            r@.peers == Seq::<PeerView>::empty(),
            r@.uploads == Map::<Seq<u8>, u64>::empty(),
            r@.round == 0,
            !r@.is_seed,
            r@.pipeline_depth == pipeline_depth,
            r@.upload_slots == upload_slots,
    {
        let our_bitfield = Bitfield::new(metainfo.piece_count());
        proof {
            use_type_invariant(&our_bitfield);
        }
        let piece_tracker = PieceTracker::new(metainfo);
        SessionCore {
            our_bitfield,
            piece_tracker,
            peer_contexts: Vec::new(),
            upload_bytes: PeerMap::new(),
            tft_round: 0,
            is_seed: false,
            pipeline_depth,
            upload_slots,
        }
    }

    /// Where the context of `peer_id` is, if there is one.
    fn find_peer(&self, peer_id: &PeerId) -> (r: Option<usize>)
        ensures
            match r {
                Some(i) => peer_at(self@.peers, peer_id.0@, i as int),
                None => !self@.known(peer_id.0@),
            },
    {
        let mut i: usize = 0;
        while i < self.peer_contexts.len()
            invariant
                i <= self.peer_contexts@.len(),
                forall|j: int| 0 <= j < i ==> !peer_at(self@.peers, peer_id.0@, j),
            decreases self.peer_contexts@.len() - i,
        {
            if self.peer_contexts[i].peer_id.same(peer_id) {
                return Some(i);
            }
            i = i + 1;
        }
        None
    }

    /// Asks peer `peer_id` for blocks until `pipeline_depth` requests are
    /// outstanding with it or no piece is left to ask for.
    fn fill_pipeline(&mut self, peer_id: PeerId) -> (r: Vec<Action>)
        requires
            old(self)@.wf(),
            old(self)@.may_request(peer_id.0@) ==> within(
                old(self)@.ctx(peer_id.0@).bitfield,
                old(self)@.tracker.pieces.len(),
            ),
        ensures
            final(self)@.wf(),
            filled(old(self)@, final(self)@, peer_id.0@, actions_view(r@)),
    {
        let ghost id = peer_id.0@;
        let mut acts: Vec<Action> = Vec::new();
        if self.is_seed {
            return acts;
        }
        let i = match self.find_peer(&peer_id) {
            Some(i) => i,
            None => {
                return acts;
            },
        };
        proof {
            assert(self@.index_of(id) == i as int);
        }
        if self.peer_contexts[i].peer_choking || !self.peer_contexts[i].am_interested {
            return acts;
        }
        let peer_bf = self.peer_contexts[i].peer_bitfield.clone();
        let ghost before = self@;
        let ghost t = self@.tracker;
        let ghost c0 = t.pipeline_count(id);
        let ghost n = before.fill_count(id);
        let ghost bf = peer_bf@;
        while self.piece_tracker.peer_pipeline_count(&peer_id) < self.pipeline_depth
            invariant
                before.wf(),
                before.may_request(id),
                bf == peer_bf@,
                bf == before.ctx(id).bitfield,
                within(bf, t.pieces.len()),
                id == peer_id.0@,
                t == before.tracker,
                c0 == t.pipeline_count(id),
                n == before.fill_count(id),
                self.pipeline_depth == before.pipeline_depth,
                self.our_bitfield@ == before.ours,
                self@.peers == before.peers,
                self.upload_bytes@ == before.uploads,
                self.tft_round == before.round,
                self.is_seed == before.is_seed,
                self.upload_slots == before.upload_slots,
                self@.tracker.wf(),
                self@.tracker.pieces == t.pieces,
                self@.tracker.availability == t.availability,
                self@.tracker.meta == t.meta,
                self@.tracker.inflight == t.inflight.union(requests_set(id, actions_view(acts@))),
                self@.tracker.pipeline == if acts@.len() > 0 {
                    t.pipeline.insert(id, (c0 + acts@.len()) as usize)
                } else {
                    t.pipeline
                },
                self@.tracker.pipeline_count(id) == c0 + acts@.len(),
                acts@.len() > 0 ==> c0 + acts@.len() <= before.pipeline_depth,
                acts@.len() > 0 ==> n == before.pipeline_depth - c0,
                forall|k: int|
                    0 <= k < acts@.len() ==> is_first_block_request(t, bf, id, #[trigger] actions_view(acts@)[k]),
            ensures
                self@.tracker.pipeline_count(id) >= before.pipeline_depth || !exists|x: int| t.candidate(bf, x),
            decreases before.pipeline_depth - self@.tracker.pipeline_count(id),
        {
            let piece_index = match self.piece_tracker.pick_rarest(&peer_bf) {
                Some(x) => x,
                None => {
                    proof {
                        assert forall|x: int| !t.candidate(bf, x) by {
                            assert(!self.piece_tracker@.candidate(bf, x));
                        }
                    }
                    break;
                },
            };
            let begin = match self.piece_tracker.pick_next_block(piece_index) {
                Some(b) => b,
                None => {
                    break;
                },
            };
            let length = self.piece_tracker.metainfo().block_length_for(piece_index as usize, begin);
            let a = Action::Send { peer: peer_id, msg: Message::Request { index: piece_index, begin, length } };
            let ghost av = actions_view(acts@);
            proof {
                assert(is_first_block_request(t, bf, id, a@));
                lemma_requests_set_push(id, av, a@);
            }
            acts.push(a);
            self.piece_tracker.mark_inflight(peer_id, piece_index, begin);
            proof {
                assert(actions_view(acts@) =~= av.push(a@));
                assert(self@.tracker.inflight =~= t.inflight.union(requests_set(id, actions_view(acts@))));
                assert(self@.tracker.pipeline =~= t.pipeline.insert(id, (c0 + acts@.len()) as usize));
            }
        }
        proof {
            if acts@.len() > 0 && !exists|x: int| t.candidate(bf, x) {
                assert(n == 0);
            }
            assert(self@ =~= (CoreView {
                tracker: TrackerView {
                    inflight: t.inflight.union(requests_set(id, actions_view(acts@))),
                    pipeline: if n > 0 {
                        t.pipeline.insert(id, before.pipeline_depth)
                    } else {
                        t.pipeline
                    },
                    ..t
                },
                ..before
            }));
        }
        acts
    }

    /// Takes context `i` out, to be put back by `put_ctx`.
    fn take_ctx(&mut self, i: usize) -> (c: PeerContext)
        requires
            i < old(self).peer_contexts@.len(),
        ensures
            c == old(self).peer_contexts@[i as int],
            c.peer_bitfield@.wf(),
            final(self).peer_contexts@ == old(self).peer_contexts@.remove(i as int),
            final(self).our_bitfield == old(self).our_bitfield,
            final(self).piece_tracker == old(self).piece_tracker,
            final(self).upload_bytes == old(self).upload_bytes,
            final(self).tft_round == old(self).tft_round,
            final(self).is_seed == old(self).is_seed,
            final(self).pipeline_depth == old(self).pipeline_depth,
            final(self).upload_slots == old(self).upload_slots,
    {
        let c = self.peer_contexts.remove(i);
        proof {
            use_type_invariant(&c.peer_bitfield);
        }
        c
    }

    /// Puts context `c` back at `i`.
    fn put_ctx(&mut self, i: usize, c: PeerContext)
        requires
            i <= old(self).peer_contexts@.len(),
        ensures
            final(self).peer_contexts@ == old(self).peer_contexts@.insert(i as int, c),
            c.peer_bitfield@.wf(),
            final(self).our_bitfield == old(self).our_bitfield,
            final(self).piece_tracker == old(self).piece_tracker,
            final(self).upload_bytes == old(self).upload_bytes,
            final(self).tft_round == old(self).tft_round,
            final(self).is_seed == old(self).is_seed,
            final(self).pipeline_depth == old(self).pipeline_depth,
            final(self).upload_slots == old(self).upload_slots,
    {
        proof {
            use_type_invariant(&c.peer_bitfield);
        }
        self.peer_contexts.insert(i, c);
    }

    /// A `Choke` from `peer_id`.
    fn on_choke(&mut self, peer_id: PeerId)
        requires
            old(self)@.wf(),
        ensures
            final(self)@ == old(self)@.after_choke(peer_id.0@),
            final(self)@.wf(),
    {
        let ghost v = self@;
        let ghost id = peer_id.0@;
        if let Some(i) = self.find_peer(&peer_id) {
            proof {
                lemma_index_of(v, id, i as int);
            }
            let ghost raw = self.peer_contexts@;
            let mut c = self.take_ctx(i);
            c.peer_choking = true;
            let ghost cv = c@;
            self.put_ctx(i, c);
            proof {
                lemma_replace_view(raw, i as int, c);
                assert(self@.peers == v.peers.update(i as int, cv));
            }
        }
        self.piece_tracker.cancel_all_inflight(&peer_id);
        proof {
            assert(self@ =~= v.after_choke(id));
        }
    }

    /// Sets whether `peer_id` chokes us (`Unchoke` is `false`).
    fn on_unchoke(&mut self, peer_id: PeerId)
        requires
            old(self)@.wf(),
        ensures
            final(self)@ == old(self)@.after_unchoke(peer_id.0@),
            final(self)@.wf(),
    {
        let ghost v = self@;
        let ghost id = peer_id.0@;
        if let Some(i) = self.find_peer(&peer_id) {
            proof {
                lemma_index_of(v, id, i as int);
            }
            let ghost raw = self.peer_contexts@;
            let mut c = self.take_ctx(i);
            c.peer_choking = false;
            let ghost cv = c@;
            self.put_ctx(i, c);
            proof {
                lemma_replace_view(raw, i as int, c);
                assert(self@ =~= v.after_unchoke(id));
            }
        }
    }

    /// `Interested` (`b`) or `NotInterested` from `peer_id`.
    fn on_interest(&mut self, peer_id: PeerId, b: bool)
        requires
            old(self)@.wf(),
        ensures
            final(self)@ == old(self)@.after_interest(peer_id.0@, b),
            final(self)@.wf(),
    {
        let ghost v = self@;
        let ghost id = peer_id.0@;
        if let Some(i) = self.find_peer(&peer_id) {
            proof {
                lemma_index_of(v, id, i as int);
            }
            let ghost raw = self.peer_contexts@;
            let mut c = self.take_ctx(i);
            c.peer_interested = b;
            self.put_ctx(i, c);
            proof {
                lemma_replace_view(raw, i as int, c);
                assert(self@ =~= v.after_interest(id, b));
            }
        }
    }

    /// A `Have` of `index` from `peer_id`.
    fn on_have(&mut self, peer_id: PeerId, index: u32) -> (r: Vec<Action>)
        requires
            old(self)@.wf(),
            message_fits(old(self)@, peer_id.0@, MessageView::Have(index)),
        ensures
            final(self)@.wf(),
            if old(self)@.have_applies(peer_id.0@, index) {
                filled(old(self)@.after_have(peer_id.0@, index), final(self)@, peer_id.0@, actions_view(r@))
            } else {
                final(self)@ == old(self)@ && r@.len() == 0
            },
    {
        let ghost v = self@;
        let ghost id = peer_id.0@;
        if let Some(i) = self.find_peer(&peer_id) {
            proof {
                lemma_index_of(v, id, i as int);
            }
            if !self.peer_contexts[i].peer_bitfield.has(index as usize) {
                let ghost raw = self.peer_contexts@;
                let mut c = self.take_ctx(i);
                c.peer_bitfield.set(index as usize);
                let one = [index as usize];
                proof {
                    assert(one@ =~= seq![index as usize]);
                }
                self.piece_tracker.increase_availability(one.as_slice());
                c.update_interest(&self.our_bitfield);
                self.put_ctx(i, c);
                proof {
                    lemma_replace_view(raw, i as int, c);
                    assert(self@ =~= v.after_have(id, index));
                }
                return self.fill_pipeline(peer_id);
            }
        }
        Vec::new()
    }

    /// A `Bitfield` from `peer_id`.
    fn on_bitfield(&mut self, peer_id: PeerId, bf: Bitfield) -> (r: Vec<Action>)
        requires
            old(self)@.wf(),
        ensures
            final(self)@.wf(),
            final(self)@ == old(self)@.after_bitfield(peer_id.0@, bf@),
            actions_view(r@) == old(self)@.bitfield_acts(peer_id.0@, bf@),
    {
        let ghost v = self@;
        let ghost id = peer_id.0@;
        let ghost bfv = bf@;
        let found = self.find_peer(&peer_id);
        if let Some(i) = found {
            proof {
                lemma_index_of(v, id, i as int);
            }
        }
        let prev: Vec<usize> = match found {
            Some(i) => self.peer_contexts[i].peer_bitfield.complete_pieces(),
            None => Vec::new(),
        };
        self.piece_tracker.decrease_availability(prev.as_slice());
        let mut acts: Vec<Action> = Vec::new();
        match found {
            Some(i) => {
                let new_pieces = bf.complete_pieces();
                self.piece_tracker.increase_availability(new_pieces.as_slice());
                let ghost raw = self.peer_contexts@;
                let mut c = self.take_ctx(i);
                c.peer_bitfield = bf;
                c.update_interest(&self.our_bitfield);
                let interested = c.am_interested;
                self.put_ctx(i, c);
                proof {
                    lemma_replace_view(raw, i as int, c);
                }
                if interested && !self.is_seed {
                    acts.push(Action::Send { peer: peer_id, msg: Message::Interested });
                    acts.push(Action::Send { peer: peer_id, msg: Message::Unchoke });
                }
                proof {
                    assert(self@ =~= v.after_bitfield(id, bfv));
                    assert(actions_view(acts@) =~= v.bitfield_acts(id, bfv));
                }
            },
            None => {
                proof {
                    assert(prev@ =~= Seq::<usize>::empty());
                    assert(self@ =~= v.after_bitfield(id, bfv));
                    assert(actions_view(acts@) =~= v.bitfield_acts(id, bfv));
                }
            },
        }
        acts
    }

    /// A `Request` from `peer_id`.
    fn on_request(&self, peer_id: PeerId, index: u32, begin: u32, length: u32) -> (r: Vec<Action>)
        requires
            self@.wf(),
        ensures
            actions_view(r@) == self@.request_acts(peer_id.0@, index, begin, length),
    {
        let mut acts: Vec<Action> = Vec::new();
        if let Some(i) = self.find_peer(&peer_id) {
            proof {
                lemma_index_of(self@, peer_id.0@, i as int);
            }
            if !self.peer_contexts[i].am_choking && self.our_bitfield.has(index as usize) {
                acts.push(Action::Serve { peer: peer_id, index, begin, length });
            }
        }
        assert(actions_view(acts@) =~= self@.request_acts(peer_id.0@, index, begin, length));
        acts
    }

    /// A `Piece` from `peer_id`.
    fn on_piece(&mut self, peer_id: PeerId, index: u32, begin: u32, data: Vec<u8>) -> (r: Vec<Action>)
        requires
            old(self)@.wf(),
            message_fits(old(self)@, peer_id.0@, MessageView::Piece { index, begin, data: data@ }),
        ensures
            final(self)@.wf(),
            ({
                let (mid, pre) = old(self)@.after_piece(peer_id.0@, index, begin, data@);
                &&& pre.len() <= r@.len()
                &&& actions_view(r@).take(pre.len() as int) == pre
                &&& filled(mid, final(self)@, peer_id.0@, actions_view(r@).skip(pre.len() as int))
            }),
    {
        let ghost v = self@;
        let ghost id = peer_id.0@;
        let ghost dv = data@;
        self.piece_tracker.clear_inflight(peer_id, index, begin);
        let done = self.piece_tracker.store_block(index, begin, data);
        let mut acts: Vec<Action> = Vec::new();
        if done {
            let piece_data = self.piece_tracker.assemble(index);
            match self.piece_tracker.verify(index, piece_data.as_slice()) {
                Ok(()) => {
                    self.piece_tracker.mark_complete(index);
                    self.our_bitfield.set(index as usize);
                    proof {
                        use_type_invariant(&self.our_bitfield);
                    }
                    acts.push(Action::WritePiece { index, data: piece_data });
                    acts.push(Action::Broadcast(Message::Have(index)));
                },
                Err(_) => {},
            }
        }
        let ghost pre = actions_view(acts@);
        proof {
            let (mid, pre_spec) = v.after_piece(id, index, begin, dv);
            assert(pre =~= pre_spec);
            assert(self@ =~= mid);
        }
        let mut more = self.fill_pipeline(peer_id);
        let ghost mv = actions_view(more@);
        acts.append(&mut more);
        proof {
            assert(actions_view(acts@) =~= pre + mv);
            assert(actions_view(acts@).take(pre.len() as int) =~= pre);
            assert(actions_view(acts@).skip(pre.len() as int) =~= mv);
        }
        acts
    }

    /// Takes a message from peer `peer_id` and says what to do about it.
    pub fn handle_message(&mut self, peer_id: PeerId, msg: Message) -> (r: Vec<Action>)
        requires
            old(self)@.wf(),
            message_fits(old(self)@, peer_id.0@, msg@),
        ensures
            final(self)@.wf(),
            handled(old(self)@, peer_id.0@, msg@, final(self)@, actions_view(r@)),
    {
        let ghost mv = msg@;
        match msg {
            Message::Choke => {
                self.on_choke(peer_id);
                Vec::new()
            },
            Message::Unchoke => {
                self.on_unchoke(peer_id);
                self.fill_pipeline(peer_id)
            },
            Message::Interested => {
                self.on_interest(peer_id, true);
                Vec::new()
            },
            Message::NotInterested => {
                self.on_interest(peer_id, false);
                Vec::new()
            },
            Message::Have(index) => self.on_have(peer_id, index),
            Message::Bitfield(bf) => self.on_bitfield(peer_id, bf),
            Message::Request { index, begin, length } => self.on_request(peer_id, index, begin, length),
            Message::Piece { index, begin, data } => self.on_piece(peer_id, index, begin, data),
            Message::Cancel { index, begin, .. } => {
                self.piece_tracker.clear_inflight(peer_id, index, begin);
                Vec::new()
            },
        }
    }

    /// A peer whose handshake is complete; a peer already known is kept
    /// as it is.
    pub fn add_peer(&mut self, ctx: PeerContext)
        requires
            old(self)@.wf(),
        ensures
            final(self)@.wf(),
            final(self)@ == if old(self)@.known(ctx@.peer_id) {
                old(self)@
            } else {
                CoreView { peers: old(self)@.peers.push(ctx@), ..old(self)@ }
            },
    {
        let ghost v = self@;
        proof {
            use_type_invariant(&ctx.peer_bitfield);
        }
        if self.find_peer(&ctx.peer_id).is_none() {
            let ghost cv = ctx@;
            self.peer_contexts.push(ctx);
            proof {
                assert(self@.peers =~= v.peers.push(cv));
                assert forall|i: int, j: int|
                    0 <= i < self@.peers.len() && 0 <= j < self@.peers.len() && i != j implies #[trigger] self@.peers[i].peer_id
                    != #[trigger] self@.peers[j].peer_id by {
                    if i == v.peers.len() {
                        assert(!peer_at(v.peers, cv.peer_id, j));
                    }
                    if j == v.peers.len() {
                        assert(!peer_at(v.peers, cv.peer_id, i));
                    }
                }
            }
        }
    }

    /// Forgets peer `peer_id`, whose connection is gone.
    pub fn handle_disconnected(&mut self, peer_id: PeerId)
        requires
            old(self)@.wf(),
        ensures
            final(self)@.wf(),
            final(self)@ == old(self)@.after_disconnect(peer_id.0@),
    {
        let ghost v = self@;
        let ghost id = peer_id.0@;
        let found = self.find_peer(&peer_id);
        let prev: Vec<usize> = match found {
            Some(i) => {
                proof {
                    lemma_index_of(v, id, i as int);
                }
                self.peer_contexts[i].peer_bitfield.complete_pieces()
            },
            None => Vec::new(),
        };
        proof {
            if found is None {
                assert(prev@ =~= Seq::<usize>::empty());
            }
        }
        self.piece_tracker.decrease_availability(prev.as_slice());
        self.piece_tracker.cancel_all_inflight(&peer_id);
        if let Some(i) = found {
            let ghost raw = self.peer_contexts@;
            self.peer_contexts.remove(i);
            proof {
                assert(self@.peers =~= v.peers.remove(i as int));
                assert forall|a: int, b: int|
                    0 <= a < self@.peers.len() && 0 <= b < self@.peers.len() && a != b implies #[trigger] self@.peers[a].peer_id
                    != #[trigger] self@.peers[b].peer_id by {
                    let a2 = if a < i { a } else { a + 1 };
                    let b2 = if b < i { b } else { b + 1 };
                    assert(self@.peers[a] == v.peers[a2]);
                    assert(self@.peers[b] == v.peers[b2]);
                }
                assert forall|a: int| 0 <= a < self@.peers.len() implies (#[trigger] self@.peers[a]).bitfield.wf() by {
                    let a2 = if a < i { a } else { a + 1 };
                    assert(self@.peers[a] == v.peers[a2]);
                }
            }
        }
        self.upload_bytes.remove(&peer_id);
        proof {
            assert(self@ =~= v.after_disconnect(id));
        }
    }

    /// Answers a request that `handle_message` passed on as `Serve`, given
    /// the data of the piece: the requested bytes that the piece holds, if
    /// there are any, go to the peer, and count as uploaded to it (the
    /// requested length, at most `u64::MAX` in all).
    pub fn serve_block(&mut self, peer_id: PeerId, index: u32, begin: u32, length: u32, data: &[u8]) -> (r: Option<
        Action,
    >)
        requires
            begin <= data@.len(),
        ensures
            ({
                let end = if begin + length < data@.len() {
                    begin + length
                } else {
                    data@.len() as int
                };
                let block = data@.subrange(begin as int, end);
                if block.len() > 0 {
                    &&& r matches Some(a) && a@ == ActionView::Send {
                        peer: peer_id.0@,
                        msg: MessageView::Piece { index, begin, data: block },
                    }
                    &&& final(self)@ == (CoreView {
                        uploads: old(self)@.uploads.insert(
                            peer_id.0@,
                            if old(self)@.uploaded_to(peer_id.0@) + length > u64::MAX {
                                u64::MAX
                            } else {
                                (old(self)@.uploaded_to(peer_id.0@) + length) as u64
                            },
                        ),
                        ..old(self)@
                    })
                } else {
                    r is None && final(self)@ == old(self)@
                }
            }),
    {
        let offset = begin as usize;
        let wanted = (begin as u64) + (length as u64);
        let end = if wanted < data.len() as u64 {
            wanted as usize
        } else {
            data.len()
        };
        let block = crate::bencode::copy_bytes(vstd::slice::slice_subrange(data, offset, end));
        if block.len() == 0 {
            return None;
        }
        let before = match self.upload_bytes.get(&peer_id) {
            Some(u) => u,
            None => 0,
        };
        self.upload_bytes.insert(peer_id, before.saturating_add(length as u64));
        Some(Action::Send { peer: peer_id, msg: Message::Piece { index, begin, data: block } })
    }

    /// Seeding: the session has every piece and asks for none.
    pub fn set_seed(&mut self)
        ensures
            final(self)@ == (CoreView { is_seed: true, ..old(self)@ }),
    {
        self.is_seed = true;
    }

    /// Checks piece `index` read back for seeding, cut to the end of the
    /// torrent, against its digest; if it matches, the piece is complete
    /// and ours.
    pub fn seed_piece(&mut self, index: u32, data: &[u8]) -> (r: Result<(), BError>)
        requires
            old(self)@.wf(),
            index < old(self)@.tracker.pieces.len(),
        ensures
            final(self)@.wf(),
            ({
                let d = data@.subrange(0, old(self)@.seed_len(index as int, data@.len()) as int);
                if sha1_spec(d) == old(self)@.tracker.meta.info.pieces[index as int] {
                    &&& r is Ok
                    &&& final(self)@ == (CoreView {
                        tracker: old(self)@.tracker.completed(index as int),
                        ours: old(self)@.ours.with_piece(index as int),
                        ..old(self)@
                    })
                } else {
                    &&& r matches Err(e) && e is Session
                    &&& final(self)@ == old(self)@
                }
            }),
    {
        let ghost m = self@.tracker.meta;
        let total = self.piece_tracker.metainfo().info.total_length;
        let plen = self.piece_tracker.metainfo().info.piece_length;
        let i = index as usize;
        proof {
            let count = m.info.pieces.len();
            assert(count == (total + plen - 1) as nat / plen as nat);
            assert((i + 1) * plen <= total + plen - 1) by (nonlinear_arith)
                requires
                    plen > 0,
                    i + 1 <= (total + plen - 1) as nat / plen as nat,
            ;
            assert(i * plen <= total) by (nonlinear_arith)
                requires
                    (i + 1) * plen <= total + plen - 1,
            ;
        }
        let start = i * plen;
        let left = total - start;
        let len = if data.len() > left {
            left
        } else {
            data.len()
        };
        let piece = vstd::slice::slice_subrange(data, 0, len);
        match self.piece_tracker.verify(index, piece) {
            Ok(()) => {
                self.piece_tracker.mark_complete(index);
                self.our_bitfield.set(i);
                proof {
                    use_type_invariant(&self.our_bitfield);
                }
                Ok(())
            },
            Err(e) => Err(e),
        }
    }

    /// Whether the session can take `msg` from `peer_id` (see
    /// `message_fits`): where it cannot, taking it would look up a piece
    /// past the torrent.
    pub fn takes(&self, peer_id: &PeerId, msg: &Message) -> (r: bool)
        requires
            self@.wf(),
        ensures
            r == message_fits(self@, peer_id.0@, msg@),
    {
        let ghost v = self@;
        let ghost id = peer_id.0@;
        let n = self.our_bitfield.total_pieces();
        let found = self.find_peer(peer_id);
        proof {
            if let Some(i) = found {
                lemma_index_of(v, id, i as int);
                assert(v.peers[i as int] == self.peer_contexts@[i as int]@);
            }
        }
        match msg {
            Message::Piece { index, begin, data } => {
                if *index as usize >= n {
                    return false;
                }
                let ghost mid = v.after_piece(id, *index, *begin, data@).0;
                assert(mid.peers == v.peers);
                assert(mid.known(id) == v.known(id));
                match found {
                    None => true,
                    Some(i) => {
                        assert(mid.ctx(id) == v.ctx(id));
                        let c = &self.peer_contexts[i];
                        if self.is_seed || c.peer_choking || !c.am_interested {
                            true
                        } else {
                            !marks_past(&c.peer_bitfield, n)
                        }
                    },
                }
            },
            Message::Unchoke => match found {
                None => true,
                Some(i) => {
                    let c = &self.peer_contexts[i];
                    proof {
                        lemma_with_ctx(v, id, PeerView { peer_choking: false, ..v.ctx(id) });
                    }
                    if self.is_seed || !c.am_interested {
                        true
                    } else {
                        !marks_past(&c.peer_bitfield, n)
                    }
                },
            },
            Message::Have(index) => match found {
                None => true,
                Some(i) => {
                    let c = &self.peer_contexts[i];
                    if c.peer_bitfield.has(*index as usize) {
                        true
                    } else {
                        let mut bf = c.peer_bitfield.clone();
                        bf.set(*index as usize);
                        let interested = wants(&bf, &self.our_bitfield);
                        proof {
                            lemma_with_ctx(
                                v,
                                id,
                                PeerView { bitfield: bf@, am_interested: interested, ..v.ctx(id) },
                            );
                        }
                        if self.is_seed || c.peer_choking || !interested {
                            true
                        } else {
                            !marks_past(&bf, n)
                        }
                    }
                },
            },
            _ => true,
        }
    }

    /// Our bitfield.
    pub fn our_bitfield(&self) -> (r: &Bitfield)
        ensures
            r@ == self@.ours,
    {
        &self.our_bitfield
    }

    /// The torrent.
    pub fn metainfo(&self) -> (r: &Metainfo)
        ensures
            r@ == self@.tracker.meta,
    {
        self.piece_tracker.metainfo()
    }

    /// The piece bookkeeping.
    pub fn tracker(&self) -> (r: &PieceTracker)
        ensures
            r@ == self@.tracker,
    {
        &self.piece_tracker
    }

    /// Whether every piece is complete.
    pub fn is_complete(&self) -> (r: bool)
        ensures
            r == self@.tracker.all_complete(),
    {
        self.piece_tracker.is_complete()
    }

    /// Whether this session is seeding.
    pub fn is_seed(&self) -> (r: bool)
        ensures
            r == self@.is_seed,
    {
        self.is_seed
    }

    /// Sets whether we choke the peer of context `i`.
    fn set_choking(&mut self, i: usize, choking: bool)
        requires
            old(self)@.wf(),
            i < old(self)@.peers.len(),
        ensures
            final(self)@ == (CoreView {
                peers: old(self)@.peers.update(i as int, PeerView { am_choking: choking, ..old(self)@.peers[i as int] }),
                ..old(self)@
            }),
            final(self)@.wf(),
    {
        let ghost v = self@;
        let ghost raw = self.peer_contexts@;
        let mut c = self.take_ctx(i);
        c.am_choking = choking;
        self.put_ctx(i, c);
        proof {
            lemma_replace_view(raw, i as int, c);
            assert(self@ =~= (CoreView {
                peers: v.peers.update(i as int, PeerView { am_choking: choking, ..v.peers[i as int] }),
                ..v
            }));
        }
    }

    /// A round of choking: unchokes the interested peers to which the most
    /// has been uploaded, as many as there are upload slots, chokes the
    /// other interested peers, and every third round also unchokes one more
    /// interested peer, picked at random.
    pub fn run_tit_for_tat(&mut self) -> (r: Vec<Action>)
        requires
            old(self)@.wf(),
        ensures
            final(self)@.wf(),
            tft_done(old(self)@, final(self)@, actions_view(r@)),
    {
        let ghost v = self@;
        let ghost b = v.tft_base();
        self.tft_round = if self.tft_round == u64::MAX {
            0
        } else {
            self.tft_round + 1
        };
        let n = self.peer_contexts.len();
        let mut ups: Vec<u64> = Vec::new();
        let mut i: usize = 0;
        while i < n
            invariant
                i <= n,
                n == v.peers.len(),
                b == v.tft_base(),
                self@ == (CoreView { peers: v.peers, ..b }),
                ups@.len() == i,
                forall|k: int| 0 <= k < i ==> #[trigger] ups@[k] == v.uploaded_at(k),
            decreases n - i,
        {
            let u = match self.upload_bytes.get(&self.peer_contexts[i].peer_id) {
                Some(u) => u,
                None => 0,
            };
            proof {
                assert(self@.peers[i as int] == self.peer_contexts@[i as int]@);
                assert(u == v.uploaded_at(i as int));
            }
            ups.push(u);
            i = i + 1;
        }
        let mut slot: Vec<bool> = Vec::new();
        i = 0;
        while i < n
            invariant
                i <= n,
                n == v.peers.len(),
                b == v.tft_base(),
                self@ == (CoreView { peers: v.peers, ..b }),
                ups@.len() == n,
                forall|k: int| 0 <= k < n ==> #[trigger] ups@[k] == v.uploaded_at(k),
                slot@.len() == i,
                forall|k: int| 0 <= k < i ==> #[trigger] slot@[k] == v.in_slots(k),
            decreases n - i,
        {
            let mut cnt: usize = 0;
            let mut j: usize = 0;
            while j < n
                invariant
                    j <= n,
                    i < n,
                    n == v.peers.len(),
                    b == v.tft_base(),
                b == v.tft_base(),
                    self@ == (CoreView { peers: v.peers, ..b }),
                    ups@.len() == n,
                    forall|k: int| 0 <= k < n ==> #[trigger] ups@[k] == v.uploaded_at(k),
                    cnt == v.rank_below(i as int, j as int),
                    cnt <= j,
                decreases n - j,
            {
                proof {
                    assert(self@.peers[j as int] == self.peer_contexts@[j as int]@);
                }
                if self.peer_contexts[j].peer_interested && (ups[j] > ups[i] || (ups[j] == ups[i] && j < i)) {
                    cnt = cnt + 1;
                }
                j = j + 1;
            }
            proof {
                assert(self@.peers[i as int] == self.peer_contexts@[i as int]@);
            }
            slot.push(self.peer_contexts[i].peer_interested && cnt < self.upload_slots);
            i = i + 1;
        }
        let mut acts: Vec<Action> = Vec::new();
        i = 0;
        while i < n
            invariant
                i <= n,
                n == v.peers.len(),
                b == v.tft_base(),
                v.wf(),
                self@.wf(),
                self@ == (CoreView { peers: self@.peers, ..b }),
                self@.peers.len() == n,
                forall|k: int| 0 <= k < n ==> #[trigger] self@.peers[k] == after_unchokes(v, k, i as int),
                slot@.len() == n,
                forall|k: int| 0 <= k < n ==> #[trigger] slot@[k] == v.in_slots(k),
                actions_view(acts@) == v.unchoke_acts(i as int),
            decreases n - i,
        {
            let ghost before = actions_view(acts@);
            proof {
                assert(self@.peers[i as int] == self.peer_contexts@[i as int]@);
                assert(self@.peers[i as int] == after_unchokes(v, i as int, i as int));
            }
            if slot[i] && self.peer_contexts[i].am_choking {
                let id = self.peer_contexts[i].peer_id;
                self.set_choking(i, false);
                acts.push(Action::Send { peer: id, msg: Message::Unchoke });
                proof {
                    assert(actions_view(acts@) =~= before.push(actions_view(acts@).last()));
                }
            }
            proof {
                assert(actions_view(acts@) =~= v.unchoke_acts(i + 1));
                assert forall|k: int| 0 <= k < n implies #[trigger] self@.peers[k] == after_unchokes(v, k, i + 1) by {
                    if k == i {
                        assert(v.in_slots(k) ==> self@.peers[k] == PeerView { am_choking: false, ..v.peers[k] });
                    }
                }
            }
            i = i + 1;
        }
        i = 0;
        while i < n
            invariant
                i <= n,
                n == v.peers.len(),
                b == v.tft_base(),
                v.wf(),
                self@.wf(),
                self@ == (CoreView { peers: self@.peers, ..b }),
                self@.peers.len() == n,
                forall|k: int| 0 <= k < i ==> #[trigger] self@.peers[k] == b.peers[k],
                forall|k: int| i <= k < n ==> #[trigger] self@.peers[k] == after_unchokes(v, k, n as int),
                slot@.len() == n,
                forall|k: int| 0 <= k < n ==> #[trigger] slot@[k] == v.in_slots(k),
                actions_view(acts@) == v.unchoke_acts(n as int) + v.choke_acts(i as int),
            decreases n - i,
        {
            let ghost before = actions_view(acts@);
            proof {
                assert(self@.peers[i as int] == self.peer_contexts@[i as int]@);
                assert(self@.peers[i as int] == after_unchokes(v, i as int, n as int));
                assert(b.peers.len() == n);
            }
            if self.peer_contexts[i].peer_interested && !slot[i] && !self.peer_contexts[i].am_choking {
                let id = self.peer_contexts[i].peer_id;
                self.set_choking(i, true);
                acts.push(Action::Send { peer: id, msg: Message::Choke });
                proof {
                    assert(actions_view(acts@) =~= before.push(actions_view(acts@).last()));
                }
            }
            proof {
                assert(self@.peers[i as int] == b.peers[i as int]);
                assert(actions_view(acts@) =~= v.unchoke_acts(n as int) + v.choke_acts(i + 1));
            }
            i = i + 1;
        }
        proof {
            assert(self@.peers =~= b.peers);
        }
        let ghost base_acts = actions_view(acts@);
        if self.tft_round % 3 == 0 {
            let mut choked: Vec<usize> = Vec::new();
            i = 0;
            while i < n
                invariant
                    i <= n,
                    n == b.peers.len(),
                    b == v.tft_base(),
                    self@ == b,
                    forall|k: int| 0 <= k < choked@.len() ==> #[trigger] still_choked(b, choked@[k] as int),
                    forall|k: int| 0 <= k < i && #[trigger] still_choked(b, k) ==> choked@.contains(k as usize),
                decreases n - i,
            {
                proof {
                    assert(self@.peers[i as int] == self.peer_contexts@[i as int]@);
                }
                let ghost old_choked = choked@;
                if self.peer_contexts[i].peer_interested && self.peer_contexts[i].am_choking {
                    proof {
                        assert(still_choked(b, i as int));
                    }
                    choked.push(i);
                    proof {
                        assert(choked@[choked@.len() - 1] == i);
                        assert forall|k: int| 0 <= k < i && #[trigger] still_choked(b, k) implies choked@.contains(
                            k as usize,
                        ) by {
                            let t = choose|t: int| 0 <= t < old_choked.len() && old_choked[t] == k as usize;
                            assert(choked@[t] == old_choked[t]);
                        }
                    }
                }
                i = i + 1;
            }
            match choose_one(choked.as_slice()) {
                Some(k) => {
                    proof {
                        let t = choose|t: int| 0 <= t < choked@.len() && choked@[t] == k;
                        assert(still_choked(b, choked@[t] as int));
                    }
                    let id = self.peer_contexts[k].peer_id;
                    self.set_choking(k, false);
                    acts.push(Action::Send { peer: id, msg: Message::Unchoke });
                    proof {
                        assert(actions_view(acts@) =~= base_acts.push(
                            ActionView::Send { peer: b.peers[k as int].peer_id, msg: MessageView::Unchoke },
                        ));
                    }
                },
                None => {
                    proof {
                        assert forall|k: int| !#[trigger] still_choked(b, k) by {
                            if still_choked(b, k) {
                                assert(choked@.contains(k as usize));
                            }
                        }
                    }
                },
            }
        }
        acts
    }
}

} // verus!
