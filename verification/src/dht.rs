//! What the DHT sidecar's answer to a peer lookup yields.

use vstd::prelude::*;

use crate::types::{PeerAddr, PeerIp};

verus! {

/// The peers in an answer: none unless the lookup found the torrent;
/// otherwise each peer whose address could be read and whose port is a
/// port other than 0, in order.
pub open spec fn reply_peers(found: bool, peers: Seq<(Option<PeerIp>, u32)>) -> Seq<PeerAddr>
    decreases peers.len(),
{
    if !found || peers.len() == 0 {
        Seq::empty()
    } else {
        let rest = reply_peers(found, peers.drop_last());
        let (ip, port) = peers.last();
        match ip {
            Some(a) => if port == 0 || port > 65535 {
                rest
            } else {
                rest.push(PeerAddr { ip: a, port: port as u16 })
            },
            None => rest,
        }
    }
}

/// The peers of the DHT's answer to a lookup, given whether it found the
/// torrent and each peer's address (`None` where the text is not an
/// address) and port.
pub fn peers_from_reply(found: bool, peers: &[(Option<PeerIp>, u32)]) -> (r: Vec<PeerAddr>)
    ensures
        r@ == reply_peers(found, peers@),
{
    let mut out: Vec<PeerAddr> = Vec::new();
    if !found {
        return out;
    }
    let mut i: usize = 0;
    while i < peers.len()
        invariant
            found,
            i <= peers@.len(),
            out@ == reply_peers(found, peers@.take(i as int)),
        decreases peers@.len() - i,
    {
        let (ip, port) = peers[i];
        let ghost next = peers@.take(i + 1);
        assert(next.drop_last() =~= peers@.take(i as int));
        assert(next.last() == (ip, port));
        match PeerAddr::from_dht_peer(ip, port) {
            Some(a) => out.push(a),
            None => {},
        }
        i = i + 1;
    }
    assert(peers@.take(i as int) =~= peers@);
    out
}

} // verus!
