//! A small map from peer ids to values, kept as a list of entries in which
//! the last entry for an id is the one that counts.

use vstd::prelude::*;

use crate::types::PeerId;

verus! {

/// The map that a list of entries stands for: later entries override
/// earlier ones.
pub open spec fn entries_map<V>(s: Seq<(PeerId, V)>) -> Map<Seq<u8>, V>
    decreases s.len(),
{
    if s.len() == 0 {
        Map::empty()
    } else {
        entries_map(s.drop_last()).insert(s.last().0.0@, s.last().1)
    }
}

/// The entries of `s` whose id is not `k`, in order.
pub open spec fn entries_without<V>(s: Seq<(PeerId, V)>, k: Seq<u8>) -> Seq<(PeerId, V)>
    decreases s.len(),
{
    if s.len() == 0 {
        s
    } else if s.last().0.0@ == k {
        entries_without(s.drop_last(), k)
    } else {
        entries_without(s.drop_last(), k).push(s.last())
    }
}

/// Leaving out the entries of one id removes that id from the map.
pub proof fn lemma_entries_without<V>(s: Seq<(PeerId, V)>, k: Seq<u8>)
    ensures
        entries_map(entries_without(s, k)) == entries_map(s).remove(k),
    decreases s.len(),
{
    if s.len() > 0 {
        lemma_entries_without(s.drop_last(), k);
        let e = s.last();
        if e.0.0@ == k {
            assert(entries_map(s).remove(k) =~= entries_map(s.drop_last()).remove(k));
        } else {
            let w = entries_without(s.drop_last(), k);
            assert(w.push(e).drop_last() =~= w);
            assert(entries_map(s).remove(k) =~= entries_map(s.drop_last()).remove(k).insert(
                e.0.0@,
                e.1,
            ));
        }
    }
}

/// The value of `k` is that of its last entry; without an entry it is
/// absent.
pub proof fn lemma_entries_map_get<V>(s: Seq<(PeerId, V)>, k: Seq<u8>, j: int)
    requires
        -1 <= j < s.len(),
        forall|t: int| j < t < s.len() ==> #[trigger] s[t].0.0@ != k,
        j >= 0 ==> s[j].0.0@ == k,
    ensures
        j >= 0 ==> entries_map(s).contains_key(k) && entries_map(s)[k] == s[j].1,
        j < 0 ==> !entries_map(s).contains_key(k),
    decreases s.len(),
{
    if s.len() > 0 {
        if j == s.len() - 1 {
        } else {
            assert(s.last().0.0@ != k);
            lemma_entries_map_get(s.drop_last(), k, j);
        }
    }
}

/// A map from peer ids to values.
pub struct PeerMap<V> {
    entries: Vec<(PeerId, V)>,
}

impl<V> View for PeerMap<V> {
    type V = Map<Seq<u8>, V>;

    closed spec fn view(&self) -> Map<Seq<u8>, V> {
        entries_map(self.entries@)
    }
}

impl<V: Copy> PeerMap<V> {
    /// An empty map.
    pub fn new() -> (r: Self)
        ensures
            r@ == Map::<Seq<u8>, V>::empty(),
    {
        let r = PeerMap { entries: Vec::new() };
        assert(r@ =~= Map::<Seq<u8>, V>::empty());
        r
    }

    /// The value of `id`, if it has one.
    pub fn get(&self, id: &PeerId) -> (r: Option<V>)
        ensures
            r is Some <==> self@.contains_key(id.0@),
            r matches Some(v) ==> v == self@[id.0@],
    {
        let mut i = self.entries.len();
        while i > 0
            invariant
                i <= self.entries@.len(),
                forall|t: int| i <= t < self.entries@.len() ==> #[trigger] self.entries@[t].0.0@ != id.0@,
            decreases i,
        {
            let e = &self.entries[i - 1];
            if e.0.same(id) {
                proof {
                    lemma_entries_map_get(self.entries@, id.0@, i - 1);
                }
                return Some(e.1);
            }
            i = i - 1;
        }
        proof {
            lemma_entries_map_get(self.entries@, id.0@, -1);
        }
        None
    }

    /// Sets the value of `id`.
    pub fn insert(&mut self, id: PeerId, v: V)
        ensures
            final(self)@ == old(self)@.insert(id.0@, v),
    {
        self.remove(&id);
        let ghost before = self.entries@;
        self.entries.push((id, v));
        assert(self.entries@.drop_last() =~= before);
    }

    /// Removes `id` and its value.
    pub fn remove(&mut self, id: &PeerId)
        ensures
            final(self)@ == old(self)@.remove(id.0@),
    {
        let ghost k = id.0@;
        let mut kept: Vec<(PeerId, V)> = Vec::new();
        let mut i: usize = 0;
        while i < self.entries.len()
            invariant
                i <= self.entries@.len(),
                k == id.0@,
                kept@ == entries_without(self.entries@.take(i as int), k),
            decreases self.entries@.len() - i,
        {
            let e = self.entries[i];
            let ghost next = self.entries@.take(i + 1);
            assert(next.drop_last() =~= self.entries@.take(i as int));
            assert(next.last() == e);
            if !e.0.same(id) {
                kept.push(e);
            }
            i = i + 1;
        }
        assert(self.entries@.take(i as int) =~= self.entries@);
        proof {
            lemma_entries_without(self.entries@, k);
        }
        self.entries = kept;
    }
}

} // verus!
