//! The availability of each piece is the number of known peers that have
//! it: every step of a session keeps this so, as long as each peer's
//! bitfield covers the whole torrent.

use vstd::prelude::*;

use crate::bitfield::{
    lemma_pieces_ascending, lemma_pieces_below_bound, lemma_pieces_partition, lemma_with_piece, BitfieldView,
};
use crate::peer::connection::PeerView;
use crate::peer::message::MessageView;
use crate::session::engine::{filled, handled, message_fits, peer_at, ActionView, CoreView};
use crate::session::tracker::{bump, bump_all, lemma_bump_all_len, sat_dec, sat_inc};

verus! {

/// How many of `peers` have piece `i`.
pub open spec fn holders(peers: Seq<PeerView>, i: int) -> nat
    decreases peers.len(),
{
    if peers.len() == 0 {
        0
    } else {
        holders(peers.drop_last(), i) + if peers.last().bitfield.has(i) {
            1nat
        } else {
            0nat
        }
    }
}

/// The availability of every piece is the number of known peers that have
/// it.
pub open spec fn availability_exact(v: CoreView) -> bool {
    forall|i: int| 0 <= i < v.tracker.pieces.len() ==> #[trigger] v.tracker.availability[i] == holders(v.peers, i)
}

/// Every known peer's bitfield is well formed and covers the whole torrent.
pub open spec fn bitfields_whole(v: CoreView) -> bool {
    forall|k: int|
        0 <= k < v.peers.len() ==> (#[trigger] v.peers[k]).bitfield.wf() && v.peers[k].bitfield.total
            == v.tracker.pieces.len()
}

/// `1` if `b`, else `0`.
pub open spec fn one_if(b: bool) -> int {
    if b {
        1
    } else {
        0
    }
}

proof fn lemma_holders_update(peers: Seq<PeerView>, j: int, p: PeerView, i: int)
    requires
        0 <= j < peers.len(),
    ensures
        holders(peers.update(j, p), i) + one_if(peers[j].bitfield.has(i)) == holders(peers, i) + one_if(
            p.bitfield.has(i),
        ),
    decreases peers.len(),
{
    let u = peers.update(j, p);
    if j == peers.len() - 1 {
        assert(u.drop_last() =~= peers.drop_last());
    } else {
        lemma_holders_update(peers.drop_last(), j, p, i);
        assert(u.drop_last() =~= peers.drop_last().update(j, p));
    }
}

proof fn lemma_holders_remove(peers: Seq<PeerView>, j: int, i: int)
    requires
        0 <= j < peers.len(),
    ensures
        holders(peers.remove(j), i) + one_if(peers[j].bitfield.has(i)) == holders(peers, i),
    decreases peers.len(),
{
    let r = peers.remove(j);
    if j == peers.len() - 1 {
        assert(r =~= peers.drop_last());
    } else {
        lemma_holders_remove(peers.drop_last(), j, i);
        assert(r.drop_last() =~= peers.drop_last().remove(j));
        assert(r.last() == peers.last());
    }
}

proof fn lemma_holders_bound(peers: Seq<PeerView>, i: int, j: int)
    requires
        0 <= j < peers.len(),
    ensures
        holders(peers, i) <= peers.len(),
        peers[j].bitfield.has(i) ==> holders(peers, i) >= 1,
        !peers[j].bitfield.has(i) ==> holders(peers, i) <= peers.len() - 1,
    decreases peers.len(),
{
    if j == peers.len() - 1 {
        lemma_holders_len(peers.drop_last(), i);
    } else {
        lemma_holders_bound(peers.drop_last(), i, j);
    }
}

proof fn lemma_holders_len(peers: Seq<PeerView>, i: int)
    ensures
        holders(peers, i) <= peers.len(),
    decreases peers.len(),
{
    if peers.len() > 0 {
        lemma_holders_len(peers.drop_last(), i);
    }
}

proof fn lemma_holders_same(peers: Seq<PeerView>, other: Seq<PeerView>, i: int)
    requires
        peers.len() == other.len(),
        forall|k: int| 0 <= k < peers.len() ==> (#[trigger] peers[k]).bitfield == other[k].bitfield,
    ensures
        holders(peers, i) == holders(other, i),
    decreases peers.len(),
{
    if peers.len() > 0 {
        lemma_holders_same(peers.drop_last(), other.drop_last(), i);
    }
}

/// Changing the availability of the pieces of an ascending list changes
/// each listed piece once and no other.
proof fn lemma_bump_listed(a: Seq<usize>, l: Seq<usize>, up: bool, i: int)
    requires
        0 <= i < a.len(),
        a.len() <= usize::MAX,
        forall|x: int, y: int| 0 <= x < y < l.len() ==> #[trigger] l[x] < #[trigger] l[y],
    ensures
        bump_all(a, l, up).len() == a.len(),
        bump_all(a, l, up)[i] == if l.contains(i as usize) {
            if up {
                sat_inc(a[i])
            } else {
                sat_dec(a[i])
            }
        } else {
            a[i]
        },
    decreases l.len(),
{
    lemma_bump_all_len(a, l, up);
    if l.len() > 0 {
        let d = l.drop_last();
        lemma_bump_listed(a, d, up, i);
        lemma_bump_all_len(a, d, up);
        let b = bump_all(a, d, up);
        assert(bump_all(a, l, up) == bump(b, l.last(), up));
        if l.last() != i as usize {
            assert(bump(b, l.last(), up)[i] == b[i]);
        }
        if l.last() == i as usize {
            if d.contains(i as usize) {
                let x = choose|x: int| 0 <= x < d.len() && d[x] == i as usize;
                assert(l[x] < l[l.len() - 1]);
            }
        } else {
            if l.contains(i as usize) {
                let x = choose|x: int| 0 <= x < l.len() && l[x] == i as usize;
                assert(d[x] == i as usize);
            }
            if d.contains(i as usize) {
                let x = choose|x: int| 0 <= x < d.len() && d[x] == i as usize;
                assert(l[x] == i as usize);
            }
        }
    }
}

/// The list of pieces that `bf` has: ascending, holding exactly them.
proof fn lemma_listed(bf: BitfieldView, i: int)
    requires
        bf.total <= usize::MAX,
        0 <= i,
    ensures
        forall|x: int, y: int|
            0 <= x < y < bf.pieces_below(bf.total as int, true).len() ==> #[trigger] bf.pieces_below(
                bf.total as int,
                true,
            )[x] < #[trigger] bf.pieces_below(bf.total as int, true)[y],
        i < bf.total ==> (bf.pieces_below(bf.total as int, true).contains(i as usize) <==> bf.has(i)),
        i >= bf.total ==> !bf.has(i),
        i >= bf.total && i <= usize::MAX ==> !bf.pieces_below(bf.total as int, true).contains(i as usize),
{
    lemma_pieces_ascending(bf, bf.total as int, true);
    lemma_pieces_partition(bf, bf.total as int, i);
    if i >= bf.total && i <= usize::MAX {
        let l = bf.pieces_below(bf.total as int, true);
        lemma_pieces_below_bound(bf, bf.total as int, true);
        if l.contains(i as usize) {
            let x = choose|x: int| 0 <= x < l.len() && l[x] == i as usize;
            assert(l[x] < bf.total);
        }
    }
}

proof fn lemma_known_index(v: CoreView, id: Seq<u8>)
    requires
        v.known(id),
    ensures
        peer_at(v.peers, id, v.index_of(id)),
{
}

/// A step that changes no bitfield and no availability keeps both facts.
proof fn lemma_same_counts(v: CoreView, w: CoreView)
    requires
        bitfields_whole(v),
        availability_exact(v),
        w.tracker.pieces.len() == v.tracker.pieces.len(),
        w.tracker.availability == v.tracker.availability,
        w.peers.len() == v.peers.len(),
        forall|k: int| 0 <= k < v.peers.len() ==> (#[trigger] w.peers[k]).bitfield == v.peers[k].bitfield,
    ensures
        bitfields_whole(w),
        availability_exact(w),
{
    assert forall|k: int| 0 <= k < w.peers.len() implies (#[trigger] w.peers[k]).bitfield.wf() && w.peers[k].bitfield.total
        == w.tracker.pieces.len() by {
        assert(w.peers[k].bitfield == v.peers[k].bitfield);
    }
    assert forall|i: int| 0 <= i < w.tracker.pieces.len() implies #[trigger] w.tracker.availability[i] == holders(
        w.peers,
        i,
    ) by {
        lemma_holders_same(w.peers, v.peers, i);
    }
}

/// Changing a flag of a peer's context keeps both facts.
proof fn lemma_flag_update_keeps(v: CoreView, w: CoreView, id: Seq<u8>)
    requires
        bitfields_whole(v),
        availability_exact(v),
        w.tracker == v.tracker,
        !v.known(id) ==> w.peers == v.peers,
        v.known(id) ==> w.peers == v.peers.update(v.index_of(id), w.peers[v.index_of(id)]),
        v.known(id) ==> w.peers[v.index_of(id)].bitfield == v.ctx(id).bitfield,
    ensures
        bitfields_whole(w),
        availability_exact(w),
{
    if v.known(id) {
        lemma_known_index(v, id);
        assert forall|k: int| 0 <= k < v.peers.len() implies (#[trigger] w.peers[k]).bitfield == v.peers[k].bitfield by {
            if k != v.index_of(id) {
                assert(w.peers[k] == v.peers[k]);
            }
        }
    }
    lemma_same_counts(v, w);
}

/// Filling a pipeline keeps both facts.
proof fn lemma_filled_keeps(before: CoreView, after: CoreView, id: Seq<u8>, acts: Seq<ActionView>)
    requires
        filled(before, after, id, acts),
        bitfields_whole(before),
        availability_exact(before),
    ensures
        bitfields_whole(after),
        availability_exact(after),
{
    lemma_same_counts(before, after);
}

/// News of a piece keeps both facts: the peer now has it, and it counts one
/// more peer.
proof fn lemma_have_keeps(v: CoreView, id: Seq<u8>, index: u32)
    requires
        v.wf(),
        bitfields_whole(v),
        availability_exact(v),
        v.have_applies(id, index),
        v.peers.len() < usize::MAX,
    ensures
        bitfields_whole(v.after_have(id, index)),
        availability_exact(v.after_have(id, index)),
{
    let w = v.after_have(id, index);
    let j = v.index_of(id);
    lemma_known_index(v, id);
    let old_bf = v.peers[j].bitfield;
    lemma_with_piece(old_bf, index as int);
    let n = v.tracker.pieces.len() as int;
    assert forall|k: int| 0 <= k < w.peers.len() implies (#[trigger] w.peers[k]).bitfield.wf() && w.peers[k].bitfield.total
        == w.tracker.pieces.len() by {
        if k != j {
            assert(w.peers[k] == v.peers[k]);
        }
    }
    assert forall|i: int| 0 <= i < n implies #[trigger] w.tracker.availability[i] == holders(w.peers, i) by {
        lemma_holders_update(v.peers, j, w.peers[j], i);
        assert(w.peers == v.peers.update(j, w.peers[j]));
        lemma_holders_bound(v.peers, i, j);
        lemma_bump_listed(v.tracker.availability, seq![index as usize], true, i);
        if seq![index as usize].contains(i as usize) {
            assert(i == index);
        }
        if i == index {
            assert(seq![index as usize][0] == i as usize);
        }
    }
}

/// A new bitfield keeps both facts: the pieces of the old one count one
/// peer fewer and those of the new one one peer more.
proof fn lemma_bitfield_keeps(v: CoreView, id: Seq<u8>, bf: BitfieldView)
    requires
        v.wf(),
        bitfields_whole(v),
        availability_exact(v),
        bf.wf(),
        bf.total == v.tracker.pieces.len(),
        v.peers.len() < usize::MAX,
    ensures
        bitfields_whole(v.after_bitfield(id, bf)),
        availability_exact(v.after_bitfield(id, bf)),
{
    let w = v.after_bitfield(id, bf);
    let n = v.tracker.pieces.len() as int;
    let a = v.tracker.availability;
    if !v.known(id) {
        assert(bump_all(a, Seq::<usize>::empty(), false) == a);
        lemma_same_counts(v, w);
    } else {
        let j = v.index_of(id);
        lemma_known_index(v, id);
        let old_bf = v.peers[j].bitfield;
        let prev = old_bf.pieces_below(old_bf.total as int, true);
        let next = bf.pieces_below(bf.total as int, true);
        let a1 = bump_all(a, prev, false);
        assert forall|k: int| 0 <= k < w.peers.len() implies (#[trigger] w.peers[k]).bitfield.wf() && w.peers[k].bitfield.total
            == w.tracker.pieces.len() by {
            if k != j {
                assert(w.peers[k] == v.peers[k]);
            }
        }
        assert forall|i: int| 0 <= i < n implies #[trigger] w.tracker.availability[i] == holders(w.peers, i) by {
            lemma_listed(old_bf, i);
            lemma_listed(bf, i);
            lemma_bump_listed(a, prev, false, i);
            lemma_bump_listed(a1, next, true, i);
            lemma_holders_update(v.peers, j, w.peers[j], i);
            assert(w.peers == v.peers.update(j, w.peers[j]));
            lemma_holders_bound(v.peers, i, j);
        }
    }
}

/// A peer that has just connected knows of no piece: counting it keeps
/// both facts.
pub proof fn lemma_add_peer_keeps_availability(v: CoreView, c: PeerView)
    requires
        bitfields_whole(v),
        availability_exact(v),
        c.bitfield.wf(),
        c.bitfield.total == v.tracker.pieces.len(),
        forall|i: int| !#[trigger] c.bitfield.has(i),
    ensures
        bitfields_whole(CoreView { peers: v.peers.push(c), ..v }),
        availability_exact(CoreView { peers: v.peers.push(c), ..v }),
{
    let w = CoreView { peers: v.peers.push(c), ..v };
    assert forall|k: int| 0 <= k < w.peers.len() implies (#[trigger] w.peers[k]).bitfield.wf() && w.peers[k].bitfield.total
        == w.tracker.pieces.len() by {
        if k < v.peers.len() {
            assert(w.peers[k] == v.peers[k]);
        }
    }
    assert forall|i: int| 0 <= i < w.tracker.pieces.len() implies #[trigger] w.tracker.availability[i] == holders(
        w.peers,
        i,
    ) by {
        assert(w.peers.drop_last() =~= v.peers);
    }
}

/// A peer that leaves takes its pieces with it: forgetting it keeps both
/// facts.
pub proof fn lemma_disconnect_keeps_availability(v: CoreView, id: Seq<u8>)
    requires
        v.wf(),
        bitfields_whole(v),
        availability_exact(v),
    ensures
        bitfields_whole(v.after_disconnect(id)),
        availability_exact(v.after_disconnect(id)),
{
    let w = v.after_disconnect(id);
    let n = v.tracker.pieces.len() as int;
    let a = v.tracker.availability;
    if !v.known(id) {
        assert(bump_all(a, Seq::<usize>::empty(), false) == a);
        lemma_same_counts(v, w);
    } else {
        let j = v.index_of(id);
        lemma_known_index(v, id);
        let old_bf = v.peers[j].bitfield;
        let prev = old_bf.pieces_below(old_bf.total as int, true);
        assert forall|k: int| 0 <= k < w.peers.len() implies (#[trigger] w.peers[k]).bitfield.wf() && w.peers[k].bitfield.total
            == w.tracker.pieces.len() by {
            if k < j {
                assert(w.peers[k] == v.peers[k]);
            } else {
                assert(w.peers[k] == v.peers[k + 1]);
            }
        }
        assert forall|i: int| 0 <= i < n implies #[trigger] w.tracker.availability[i] == holders(w.peers, i) by {
            lemma_listed(old_bf, i);
            lemma_bump_listed(a, prev, false, i);
            lemma_holders_remove(v.peers, j, i);
            lemma_holders_bound(v.peers, i, j);
        }
    }
}

/// Messages keep availabilities exact, as long as every bitfield covers the
/// whole torrent: a piece's availability is the number of known peers that
/// have it. (A `Bitfield` message read from the wire has no pieces, since
/// the wire does not say how many there are; after one, a `Have` from the
/// same peer counts a piece that its bitfield does not record.)
pub proof fn lemma_handled_keeps_availability(
    v: CoreView,
    id: Seq<u8>,
    m: MessageView,
    w: CoreView,
    acts: Seq<ActionView>,
)
    requires
        v.wf(),
        message_fits(v, id, m),
        handled(v, id, m, w, acts),
        bitfields_whole(v),
        availability_exact(v),
        v.peers.len() < usize::MAX,
        m is Bitfield ==> m->Bitfield_0.wf() && m->Bitfield_0.total == v.tracker.pieces.len(),
    ensures
        bitfields_whole(w),
        availability_exact(w),
{
    let n = v.tracker.pieces.len() as int;
    match m {
        MessageView::Choke => {
            if v.known(id) {
                lemma_known_index(v, id);
            }
            let w2 = v.after_choke(id);
            assert forall|i: int| 0 <= i < n implies #[trigger] w2.tracker.availability[i] == holders(w2.peers, i) by {
                if v.known(id) {
                    lemma_holders_same(w2.peers, v.peers, i);
                }
            }
        },
        MessageView::Unchoke => {
            let mid = v.after_unchoke(id);
            lemma_flag_update_keeps(v, mid, id);
            lemma_filled_keeps(mid, w, id, acts);
        },
        MessageView::Interested => {
            lemma_flag_update_keeps(v, w, id);
        },
        MessageView::NotInterested => {
            lemma_flag_update_keeps(v, w, id);
        },
        MessageView::Have(index) => {
            if v.have_applies(id, index) {
                let mid = v.after_have(id, index);
                lemma_have_keeps(v, id, index);
                lemma_filled_keeps(mid, w, id, acts);
            }
        },
        MessageView::Bitfield(bf) => {
            lemma_bitfield_keeps(v, id, bf);
        },
        MessageView::Request { .. } => {},
        MessageView::Piece { index, begin, data } => {
            let (mid, pre) = v.after_piece(id, index, begin, data);
            assert(mid.tracker.availability == v.tracker.availability);
            assert(mid.peers == v.peers);
            assert(mid.tracker.pieces.len() == v.tracker.pieces.len());
            lemma_filled_keeps(mid, w, id, acts.skip(pre.len() as int));
        },
        MessageView::Cancel { .. } => {},
    }
}

} // verus!
