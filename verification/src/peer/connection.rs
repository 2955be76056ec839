//! What is known of a connected peer.

use vstd::prelude::*;

use crate::bitfield::{Bitfield, BitfieldView};
use crate::types::{InfoHash, PeerId};

verus! {

/// Where a connection stands.
#[derive(Clone, Copy, PartialEq, Eq, Debug, Structural)]
pub enum PeerState {
    Handshaking,
    Connected,
    Disconnected,
}

/// A connected peer: who it is, what it has, and who chokes and wants whom.
#[derive(Debug)]
pub struct PeerContext {
    pub peer_id: PeerId,
    pub info_hash: InfoHash,
    pub peer_bitfield: Bitfield,
    pub state: PeerState,
    pub am_choking: bool,
    pub peer_choking: bool,
    pub am_interested: bool,
    pub peer_interested: bool,
}

/// The content of a [`PeerContext`].
pub struct PeerView {
    pub peer_id: Seq<u8>,
    pub info_hash: Seq<u8>,
    pub bitfield: BitfieldView,
    pub state: PeerState,
    pub am_choking: bool,
    pub peer_choking: bool,
    pub am_interested: bool,
    pub peer_interested: bool,
}

impl View for PeerContext {
    type V = PeerView;

    open spec fn view(&self) -> PeerView {
        PeerView {
            peer_id: self.peer_id.0@,
            info_hash: self.info_hash.0@,
            bitfield: self.peer_bitfield@,
            state: self.state,
            am_choking: self.am_choking,
            peer_choking: self.peer_choking,
            am_interested: self.am_interested,
            peer_interested: self.peer_interested,
        }
    }
}

/// The peer has a piece that we lack.
pub open spec fn wants_from(peer: BitfieldView, ours: BitfieldView) -> bool {
    exists|i: int| #[trigger] peer.has(i) && !ours.has(i)
}

impl PeerContext {
    /// A freshly connected peer: known to have nothing, choked both ways,
    /// interested neither way.
    pub fn new(peer_id: PeerId, info_hash: InfoHash, total_pieces: usize) -> (r: Self)
        ensures
            r.peer_id == peer_id,
            r.info_hash == info_hash,
            r.peer_bitfield@.total == total_pieces,
            forall|i: int| !#[trigger] r.peer_bitfield@.has(i),
            r.state == PeerState::Connected,
            r.am_choking,
            r.peer_choking,
            !r.am_interested,
            !r.peer_interested,
    {
        Self {
            peer_id,
            info_hash,
            peer_bitfield: Bitfield::new(total_pieces),
            state: PeerState::Connected,
            am_choking: true,
            peer_choking: true,
            am_interested: false,
            peer_interested: false,
        }
    }

    /// We are interested exactly when the peer has a piece that we lack.
    pub fn update_interest(&mut self, our_bitfield: &Bitfield)
        ensures
            final(self).am_interested == wants_from(old(self).peer_bitfield@, our_bitfield@),
            final(self).peer_id == old(self).peer_id,
            final(self).info_hash == old(self).info_hash,
            final(self).peer_bitfield@ == old(self).peer_bitfield@,
            final(self).state == old(self).state,
            final(self).am_choking == old(self).am_choking,
            final(self).peer_choking == old(self).peer_choking,
            final(self).peer_interested == old(self).peer_interested,
    {
        let total = self.peer_bitfield.total_pieces();
        let mut i: usize = 0;
        let mut found = false;
        while i < total
            invariant
                i <= total,
                total == self.peer_bitfield@.total,
                found == exists|j: int| 0 <= j < i && #[trigger] self.peer_bitfield@.has(j) && !our_bitfield@.has(j),
            decreases total - i,
        {
            if self.peer_bitfield.has(i) && !our_bitfield.has(i) {
                found = true;
            }
            i = i + 1;
        }
        assert(found == wants_from(self.peer_bitfield@, our_bitfield@)) by {
            if wants_from(self.peer_bitfield@, our_bitfield@) {
                let j = choose|j: int| #[trigger] self.peer_bitfield@.has(j) && !our_bitfield@.has(j);
                assert(0 <= j < total);
            }
        }
        self.am_interested = found;
    }
}

} // verus!
