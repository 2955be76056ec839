//! The bookkeeping of a connection manager: which peers are connected at
//! which addresses, how many more may connect, and who is turned away.

use vstd::prelude::*;

use crate::session::peer_map::{entries_map, entries_without, lemma_entries_map_get, lemma_entries_without};
use crate::types::{addr_key, PeerAddr, PeerId};

verus! {

/// How many peers a manager keeps, and how long it waits for a connection.
#[derive(Clone, Debug)]
pub struct ConnectionManagerConfig {
    pub max_peers: usize,
    pub connect_timeout_secs: u64,
}

impl Default for ConnectionManagerConfig {
    /// 50 peers at most; 10 seconds to connect.
    fn default() -> (r: Self)
        ensures
            r.max_peers == 50,
            r.connect_timeout_secs == 10,
    {
        ConnectionManagerConfig { max_peers: 50, connect_timeout_secs: 10 }
    }
}

/// No two entries are of the same peer.
pub open spec fn keys_unique(s: Seq<(PeerId, PeerAddr)>) -> bool {
    forall|i: int, j: int|
        0 <= i < s.len() && 0 <= j < s.len() && i != j ==> #[trigger] s[i].0.0@ != #[trigger] s[j].0.0@
}

proof fn lemma_unique_len(s: Seq<(PeerId, PeerAddr)>)
    requires
        keys_unique(s),
    ensures
        entries_map(s).dom().finite(),
        entries_map(s).dom().len() == s.len(),
    decreases s.len(),
{
    if s.len() > 0 {
        let d = s.drop_last();
        assert(keys_unique(d)) by {
            assert forall|i: int, j: int|
                0 <= i < d.len() && 0 <= j < d.len() && i != j implies #[trigger] d[i].0.0@ != #[trigger] d[j].0.0@ by {
                assert(d[i] == s[i] && d[j] == s[j]);
            }
        }
        lemma_unique_len(d);
        lemma_entries_map_get(d, s.last().0.0@, -1);
    }
}

/// The connected peers and their addresses.
pub struct PeerTable {
    entries: Vec<(PeerId, PeerAddr)>,
    max_peers: usize,
}

impl View for PeerTable {
    type V = Map<Seq<u8>, PeerAddr>;

    closed spec fn view(&self) -> Map<Seq<u8>, PeerAddr> {
        entries_map(self.entries@)
    }
}

impl PeerTable {
    #[verifier::type_invariant]
    spec fn unique(self) -> bool {
        keys_unique(self.entries@)
    }

    /// The most peers that may be connected.
    pub closed spec fn limit(self) -> usize {
        self.max_peers
    }

    /// No peer yet, and room for `max_peers`.
    pub fn new(max_peers: usize) -> (r: Self)
        ensures
            r@ == Map::<Seq<u8>, PeerAddr>::empty(),
            r.limit() == max_peers,
    {
        let r = PeerTable { entries: Vec::new(), max_peers };
        assert(r@ =~= Map::<Seq<u8>, PeerAddr>::empty());
        r
    }

    /// How many peers are connected.
    pub fn peer_count(&self) -> (r: usize)
        ensures
            r == self@.dom().len(),
            self@.dom().finite(),
    {
        proof {
            use_type_invariant(self);
            lemma_unique_len(self.entries@);
        }
        self.entries.len()
    }

    /// How many more peers may connect: the limit less those connected, or
    /// none.
    pub fn available(&self) -> (r: usize)
        ensures
            r == if self@.dom().len() < self.limit() {
                (self.limit() - self@.dom().len()) as usize
            } else {
                0
            },
    {
        let n = self.peer_count();
        if n < self.max_peers {
            self.max_peers - n
        } else {
            0
        }
    }

    /// Whether as many peers are connected as may be: a peer that arrives
    /// then is turned away.
    pub fn is_full(&self) -> (r: bool)
        ensures
            r == (self@.dom().len() >= self.limit()),
    {
        self.peer_count() >= self.max_peers
    }

    /// The peer connected at `addr`, if one is.
    pub fn find_by_addr(&self, addr: &PeerAddr) -> (r: Option<PeerId>)
        ensures
            r matches Some(id) ==> self@.contains_key(id.0@) && addr_key(self@[id.0@]) == addr_key(*addr),
            r is None ==> forall|k: Seq<u8>| #[trigger] self@.contains_key(k) ==> addr_key(self@[k]) != addr_key(*addr),
    {
        proof {
            use_type_invariant(self);
        }
        let mut i: usize = 0;
        while i < self.entries.len()
            invariant
                i <= self.entries@.len(),
                keys_unique(self.entries@),
                forall|j: int| 0 <= j < i ==> addr_key(#[trigger] self.entries@[j].1) != addr_key(*addr),
            decreases self.entries@.len() - i,
        {
            if self.entries[i].1.same(addr) {
                proof {
                    let s = self.entries@;
                    let k = s[i as int].0.0@;
                    assert forall|t: int| i < t < s.len() implies #[trigger] s[t].0.0@ != k by {
                        assert(s[t].0.0@ != s[i as int].0.0@);
                    }
                    lemma_entries_map_get(s, k, i as int);
                }
                return Some(self.entries[i].0);
            }
            i = i + 1;
        }
        proof {
            assert forall|k: Seq<u8>| #[trigger] self@.contains_key(k) implies addr_key(self@[k]) != addr_key(*addr) by {
                let s = self.entries@;
                if exists|j: int| 0 <= j < s.len() && s[j].0.0@ == k {
                    let j = choose|j: int| 0 <= j < s.len() && s[j].0.0@ == k;
                    assert forall|t: int| j < t < s.len() implies #[trigger] s[t].0.0@ != k by {
                        assert(s[t].0.0@ != s[j].0.0@);
                    }
                    lemma_entries_map_get(s, k, j);
                    assert(addr_key(s[j].1) != addr_key(*addr));
                } else {
                    lemma_entries_map_get(s, k, -1);
                }
            }
        }
        None
    }

    /// Whether a peer is connected at `addr`.
    pub fn is_duplicate_addr(&self, addr: &PeerAddr) -> (r: bool)
        ensures
            r == exists|k: Seq<u8>| #[trigger] self@.contains_key(k) && addr_key(self@[k]) == addr_key(*addr),
    {
        match self.find_by_addr(addr) {
            Some(id) => {
                assert(self@.contains_key(id.0@));
                true
            },
            None => false,
        }
    }

    /// Records that `peer_id` is connected at `addr`.
    pub fn insert(&mut self, peer_id: PeerId, addr: PeerAddr)
        ensures
            final(self)@ == old(self)@.insert(peer_id.0@, addr),
            final(self).limit() == old(self).limit(),
    {
        proof {
            use_type_invariant(&*self);
        }
        let ghost before = self.entries@;
        let mut kept = self.without(&peer_id);
        let ghost k = kept@;
        kept.push((peer_id, addr));
        proof {
            assert(kept@.drop_last() =~= k);
            lemma_entries_without(before, peer_id.0@);
            assert forall|i: int, j: int|
                0 <= i < kept@.len() && 0 <= j < kept@.len() && i != j implies #[trigger] kept@[i].0.0@
                != #[trigger] kept@[j].0.0@ by {
                if i == k.len() {
                    assert(!entries_map(k).contains_key(peer_id.0@));
                    lemma_entries_map_get(k, kept@[j].0.0@, j);
                    assert forall|t: int| j < t < k.len() implies #[trigger] k[t].0.0@ != kept@[j].0.0@ by {
                        assert(k[t] == kept@[t]);
                    }
                }
                if j == k.len() {
                    assert(!entries_map(k).contains_key(peer_id.0@));
                    assert forall|t: int| i < t < k.len() implies #[trigger] k[t].0.0@ != kept@[i].0.0@ by {
                        assert(k[t] == kept@[t]);
                    }
                    lemma_entries_map_get(k, kept@[i].0.0@, i);
                }
            }
        }
        self.entries = kept;
    }

    /// Forgets `peer_id`.
    pub fn remove(&mut self, peer_id: &PeerId)
        ensures
            final(self)@ == old(self)@.remove(peer_id.0@),
            final(self).limit() == old(self).limit(),
    {
        proof {
            use_type_invariant(&*self);
        }
        let ghost before = self.entries@;
        let kept = self.without(peer_id);
        proof {
            lemma_entries_without(before, peer_id.0@);
        }
        self.entries = kept;
    }

    /// The entries of every peer but `peer_id`, in order.
    fn without(&self, peer_id: &PeerId) -> (r: Vec<(PeerId, PeerAddr)>)
        ensures
            r@ == entries_without(self.entries@, peer_id.0@),
            keys_unique(r@),
    {
        proof {
            use_type_invariant(self);
        }
        let ghost k = peer_id.0@;
        let mut kept: Vec<(PeerId, PeerAddr)> = Vec::new();
        let mut i: usize = 0;
        while i < self.entries.len()
            invariant
                i <= self.entries@.len(),
                k == peer_id.0@,
                keys_unique(self.entries@),
                kept@ == entries_without(self.entries@.take(i as int), k),
                forall|a: int| 0 <= a < kept@.len() ==> exists|b: int| 0 <= b < i && #[trigger] kept@[a] == self.entries@[b],
                keys_unique(kept@),
            decreases self.entries@.len() - i,
        {
            let e = self.entries[i];
            let ghost next = self.entries@.take(i + 1);
            assert(next.drop_last() =~= self.entries@.take(i as int));
            assert(next.last() == e);
            if !e.0.same(peer_id) {
                let ghost before = kept@;
                kept.push(e);
                proof {
                    assert forall|a: int| 0 <= a < kept@.len() implies exists|b: int| 0 <= b < i + 1 && #[trigger] kept@[a] == self.entries@[b] by {
                        if a < before.len() {
                            assert(kept@[a] == before[a]);
                        } else {
                            assert(kept@[a] == self.entries@[i as int]);
                        }
                    }
                    assert forall|a: int, c: int|
                        0 <= a < kept@.len() && 0 <= c < kept@.len() && a != c implies #[trigger] kept@[a].0.0@
                        != #[trigger] kept@[c].0.0@ by {
                        if a == before.len() {
                            let b = choose|b: int| 0 <= b < i && #[trigger] kept@[c] == self.entries@[b];
                            assert(kept@[c] == before[c]);
                        } else if c == before.len() {
                            let b = choose|b: int| 0 <= b < i && #[trigger] kept@[a] == self.entries@[b];
                            assert(kept@[a] == before[a]);
                        } else {
                            assert(kept@[a] == before[a] && kept@[c] == before[c]);
                        }
                    }
                }
            }
            i = i + 1;
        }
        assert(self.entries@.take(i as int) =~= self.entries@);
        kept
    }

    /// The connected peers, each once.
    pub fn ids(&self) -> (r: Vec<PeerId>)
        ensures
            forall|k: Seq<u8>| self@.contains_key(k) <==> exists|i: int| 0 <= i < r@.len() && #[trigger] r@[i].0@ == k,
            r@.len() == self@.dom().len(),
    {
        proof {
            use_type_invariant(self);
            lemma_unique_len(self.entries@);
        }
        let mut out: Vec<PeerId> = Vec::new();
        let mut i: usize = 0;
        while i < self.entries.len()
            invariant
                i <= self.entries@.len(),
                out@.len() == i,
                forall|j: int| 0 <= j < i ==> #[trigger] out@[j] == self.entries@[j].0,
            decreases self.entries@.len() - i,
        {
            out.push(self.entries[i].0);
            i = i + 1;
        }
        proof {
            let s = self.entries@;
            assert forall|k: Seq<u8>| self@.contains_key(k) <==> exists|i: int| 0 <= i < out@.len() && #[trigger] out@[i].0@ == k by {
                if exists|j: int| 0 <= j < s.len() && s[j].0.0@ == k {
                    let j = choose|j: int| 0 <= j < s.len() && s[j].0.0@ == k;
                    assert forall|t: int| j < t < s.len() implies #[trigger] s[t].0.0@ != k by {
                        assert(s[t].0.0@ != s[j].0.0@);
                    }
                    lemma_entries_map_get(s, k, j);
                    assert(out@[j].0@ == k);
                } else {
                    lemma_entries_map_get(s, k, -1);
                    if exists|i: int| 0 <= i < out@.len() && #[trigger] out@[i].0@ == k {
                        let i = choose|i: int| 0 <= i < out@.len() && #[trigger] out@[i].0@ == k;
                        assert(s[i].0.0@ == k);
                    }
                }
            }
        }
        out
    }
}

} // verus!
