//! What a connection does with the bytes it has read: every whole message
//! at the front of its buffer is taken out, until one is still arriving or
//! the bytes are not a message.

use vstd::prelude::*;

use crate::bitfield::from_bytes_spec;
use crate::peer::message::{
    decode_spec, encodable, encode_spec, lemma_message_roundtrip, payload_spec, Message, MessageFailure,
    MessageView,
};

verus! {

/// The messages at the front of `buf` (keep-alives left out), how many
/// bytes they take, and whether they are followed by bytes that are not a
/// message.
pub open spec fn drain_spec(buf: Seq<u8>) -> (Seq<MessageView>, int, bool)
    decreases buf.len(),
{
    match decode_spec(buf) {
        Ok((m, c)) => if 0 < c <= buf.len() {
            let rest = drain_spec(buf.skip(c));
            (
                match m {
                    Some(x) => seq![x] + rest.0,
                    None => rest.0,
                },
                c + rest.1,
                rest.2,
            )
        } else {
            (Seq::empty(), 0, false)
        },
        Err(MessageFailure::Incomplete) => (Seq::empty(), 0, false),
        Err(MessageFailure::Invalid) => (Seq::empty(), 0, true),
    }
}

/// The bytes of messages written one after another.
pub open spec fn wire_stream(ms: Seq<MessageView>) -> Seq<u8>
    decreases ms.len(),
{
    if ms.len() == 0 {
        Seq::empty()
    } else {
        encode_spec(ms[0]) + wire_stream(ms.drop_first())
    }
}

/// A message that comes back as it was sent: its length fits the wire, and
/// a bitfield carries no pieces (the wire does not say how many there are).
pub open spec fn round_trips(m: MessageView) -> bool {
    &&& encodable(m)
    &&& payload_spec(m).len() + 1 <= u32::MAX
    &&& m is Bitfield ==> m->Bitfield_0 == from_bytes_spec(m->Bitfield_0.bytes, 0)
}

/// Messages written one after another are read back one after another,
/// whole, taking every byte written.
pub proof fn lemma_drain_stream(ms: Seq<Message>)
    requires
        forall|i: int| 0 <= i < ms.len() ==> round_trips(#[trigger] ms[i]@),
    ensures
        drain_spec(wire_stream(ms.map_values(|m: Message| m@))) == (
            ms.map_values(|m: Message| m@),
            wire_stream(ms.map_values(|m: Message| m@)).len() as int,
            false,
        ),
    decreases ms.len(),
{
    let vs = ms.map_values(|m: Message| m@);
    if ms.len() == 0 {
        assert(vs =~= Seq::<MessageView>::empty());
    } else {
        let m = ms[0];
        let rest = ms.drop_first();
        let rv = rest.map_values(|m: Message| m@);
        assert(vs.drop_first() =~= rv);
        assert(round_trips(ms[0]@));
        assert forall|i: int| 0 <= i < rest.len() implies round_trips(#[trigger] rest[i]@) by {
            assert(rest[i] == ms[i + 1]);
        }
        lemma_message_roundtrip(m, wire_stream(rv));
        lemma_drain_stream(rest);
        let buf = wire_stream(vs);
        assert(buf == encode_spec(m@) + wire_stream(rv));
        assert(buf.skip(encode_spec(m@).len() as int) =~= wire_stream(rv));
        assert(vs =~= seq![m@] + rv);
    }
}

/// Takes every whole message from the front of `buf`: the messages (a
/// keep-alive gives none), how many bytes they take, and whether the bytes
/// after them are not a message, which ends the connection.
pub fn drain_messages(buf: &[u8]) -> (r: (Vec<Message>, usize, bool))
    ensures
        r.0@.map_values(|m: Message| m@) == drain_spec(buf@).0,
        r.1 == drain_spec(buf@).1,
        r.2 == drain_spec(buf@).2,
{
    let mut msgs: Vec<Message> = Vec::new();
    let mut pos: usize = 0;
    assert(buf@.skip(0) =~= buf@);
    assert(msgs@.map_values(|m: Message| m@) + drain_spec(buf@).0 =~= drain_spec(buf@).0);
    loop
        invariant
            pos <= buf@.len(),
            drain_spec(buf@).0 == msgs@.map_values(|m: Message| m@) + drain_spec(buf@.skip(pos as int)).0,
            drain_spec(buf@).1 == pos + drain_spec(buf@.skip(pos as int)).1,
            drain_spec(buf@).2 == drain_spec(buf@.skip(pos as int)).2,
        ensures
            drain_spec(buf@.skip(pos as int)).0 == Seq::<MessageView>::empty(),
            drain_spec(buf@.skip(pos as int)).1 == 0,
            !drain_spec(buf@.skip(pos as int)).2,
        decreases buf@.len() - pos,
    {
        let rest = vstd::slice::slice_subrange(buf, pos, buf.len());
        assert(rest@ =~= buf@.skip(pos as int));
        let ghost before = msgs@.map_values(|m: Message| m@);
        match Message::decode_inner(rest) {
            Ok((Some(m), c)) => {
                let ghost mv = m@;
                assert(rest@.skip(c as int) =~= buf@.skip(pos + c));
                msgs.push(m);
                assert(msgs@.map_values(|m: Message| m@) =~= before.push(mv));
                assert(before.push(mv) + drain_spec(buf@.skip(pos + c)).0 =~= before + (seq![mv]
                    + drain_spec(buf@.skip(pos + c)).0));
                pos = pos + c;
            },
            Ok((None, c)) => {
                assert(rest@.skip(c as int) =~= buf@.skip(pos + c));
                pos = pos + c;
            },
            Err(MessageFailure::Incomplete) => {
                break;
            },
            Err(MessageFailure::Invalid) => {
                assert(msgs@.map_values(|m: Message| m@) + Seq::<MessageView>::empty() =~= msgs@.map_values(|m: Message| m@));
                return (msgs, pos, true);
            },
        }
    }
    assert(msgs@.map_values(|m: Message| m@) + Seq::<MessageView>::empty() =~= msgs@.map_values(|m: Message| m@));
    (msgs, pos, false)
}

} // verus!
