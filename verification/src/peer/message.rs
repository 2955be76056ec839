//! Peer wire messages: a four-byte big-endian length, then an id byte and
//! a payload of that length minus one. A length of zero is a keep-alive.

use vstd::prelude::*;

use crate::bitfield::{from_bytes_spec, Bitfield, BitfieldView};
use crate::error::BError;
use crate::text::{decimal_string, decimal_text};
use crate::extern_calls::{
    be32, be32_value, bytes_mut_contents, bytes_mut_new, bytes_mut_put_slice, bytes_mut_put_u32,
    bytes_mut_put_u8, bytes_mut_to_vec, get_u32_at, lemma_be32_roundtrip,
};

verus! {

/// A peer wire message.
#[derive(Clone, Debug, PartialEq, Eq)]
pub enum Message {
    /// The sender will not answer requests.
    Choke,
    /// The sender will answer requests.
    Unchoke,
    /// The sender wants pieces that the receiver has.
    Interested,
    /// The sender wants nothing that the receiver has.
    NotInterested,
    /// The sender now has this piece.
    Have(u32),
    /// The pieces that the sender has.
    Bitfield(Bitfield),
    /// Asks for a block.
    Request { index: u32, begin: u32, length: u32 },
    /// Carries a block.
    Piece { index: u32, begin: u32, data: Vec<u8> },
    /// Withdraws a request.
    Cancel { index: u32, begin: u32, length: u32 },
}

/// The content of a [`Message`].
pub enum MessageView {
    Choke,
    Unchoke,
    Interested,
    NotInterested,
    Have(u32),
    Bitfield(BitfieldView),
    Request { index: u32, begin: u32, length: u32 },
    Piece { index: u32, begin: u32, data: Seq<u8> },
    Cancel { index: u32, begin: u32, length: u32 },
}

impl View for Message {
    type V = MessageView;

    open spec fn view(&self) -> MessageView {
        match *self {
            Message::Choke => MessageView::Choke,
            Message::Unchoke => MessageView::Unchoke,
            Message::Interested => MessageView::Interested,
            Message::NotInterested => MessageView::NotInterested,
            Message::Have(i) => MessageView::Have(i),
            Message::Bitfield(bf) => MessageView::Bitfield(bf@),
            Message::Request { index, begin, length } => MessageView::Request { index, begin, length },
            Message::Piece { index, begin, data } => MessageView::Piece { index, begin, data: data@ },
            Message::Cancel { index, begin, length } => MessageView::Cancel { index, begin, length },
        }
    }
}

/// The id byte of each kind of message.
pub open spec fn id_spec(m: MessageView) -> u8 {
    match m {
        MessageView::Choke => 0,
        MessageView::Unchoke => 1,
        MessageView::Interested => 2,
        MessageView::NotInterested => 3,
        MessageView::Have(_) => 4,
        MessageView::Bitfield(_) => 5,
        MessageView::Request { .. } => 6,
        MessageView::Piece { .. } => 7,
        MessageView::Cancel { .. } => 8,
    }
}

/// The payload after the id byte.
pub open spec fn payload_spec(m: MessageView) -> Seq<u8> {
    match m {
        MessageView::Have(i) => be32(i),
        MessageView::Bitfield(bf) => bf.bytes,
        MessageView::Request { index, begin, length } => be32(index) + be32(begin) + be32(length),
        MessageView::Piece { index, begin, data } => be32(index) + be32(begin) + data,
        MessageView::Cancel { index, begin, length } => be32(index) + be32(begin) + be32(length),
        _ => Seq::empty(),
    }
}

/// The wire form: the length of id and payload, cut to 32 bits, then the
/// id and the payload.
pub open spec fn encode_spec(m: MessageView) -> Seq<u8> {
    be32((payload_spec(m).len() + 1) as u32) + seq![id_spec(m)] + payload_spec(m)
}

/// Why bytes do not hold a message.
pub enum MessageFailure {
    /// Not all of the message has arrived yet.
    Incomplete,
    /// The bytes are not a message.
    Invalid,
}

/// The message at the start of `buf` (`None` for a keep-alive) and the
/// number of bytes that it takes.
pub open spec fn decode_spec(buf: Seq<u8>) -> Result<(Option<MessageView>, int), MessageFailure> {
    if buf.len() < 4 {
        Err(MessageFailure::Incomplete)
    } else {
        let length = be32_value(buf.subrange(0, 4)) as int;
        if length == 0 {
            Ok((None, 4))
        } else if buf.len() < length + 4 {
            Err(MessageFailure::Incomplete)
        } else {
            let id = buf[4];
            let p = buf.subrange(5, length + 4);
            let m = if id == 0 {
                Some(MessageView::Choke)
            } else if id == 1 {
                Some(MessageView::Unchoke)
            } else if id == 2 {
                Some(MessageView::Interested)
            } else if id == 3 {
                Some(MessageView::NotInterested)
            } else if id == 4 {
                if p.len() == 4 {
                    Some(MessageView::Have(be32_value(p)))
                } else {
                    None
                }
            } else if id == 5 {
                Some(MessageView::Bitfield(from_bytes_spec(p, 0)))
            } else if id == 6 || id == 8 {
                if p.len() == 12 {
                    let index = be32_value(p.subrange(0, 4));
                    let begin = be32_value(p.subrange(4, 8));
                    let length = be32_value(p.subrange(8, 12));
                    if id == 6 {
                        Some(MessageView::Request { index, begin, length })
                    } else {
                        Some(MessageView::Cancel { index, begin, length })
                    }
                } else {
                    None
                }
            } else if id == 7 {
                if p.len() >= 8 {
                    Some(
                        MessageView::Piece {
                            index: be32_value(p.subrange(0, 4)),
                            begin: be32_value(p.subrange(4, 8)),
                            data: p.subrange(8, p.len() as int),
                        },
                    )
                } else {
                    None
                }
            } else {
                None
            };
            match m {
                Some(m) => Ok((Some(m), length + 4)),
                None => Err(MessageFailure::Invalid),
            }
        }
    }
}

/// The text of the error that the decoder reports for `buf`, where the bytes
/// do not hold a message: why not, and for a message that has not fully
/// arrived, how many bytes it needs and how many there are.
pub open spec fn failure_text(buf: Seq<u8>) -> Seq<char> {
    if buf.len() < 4 {
        "incomplete: need 4 bytes for length prefix"@
    } else {
        let length = be32_value(buf.subrange(0, 4)) as int;
        if buf.len() < length + 4 {
            "incomplete: need "@ + decimal_text((length + 4) as nat) + " bytes, have "@
                + decimal_text(buf.len())
        } else {
            let id = buf[4];
            if id == 4 {
                "Have payload must be 4 bytes"@
            } else if id == 6 {
                "Request payload must be 12 bytes"@
            } else if id == 7 {
                "Piece payload must be at least 8 bytes"@
            } else if id == 8 {
                "Cancel payload must be 12 bytes"@
            } else {
                "unknown message id: "@ + decimal_text(id as nat)
            }
        }
    }
}

/// `e` is the error that the decoder reports for `buf`.
pub open spec fn reports_message(e: BError, buf: Seq<u8>) -> bool {
    e matches BError::InvalidMessage(s) && s@ == failure_text(buf)
}

/// The text of a failure starts with "incomplete" exactly where the message
/// has not fully arrived: then, and only then, more bytes may still make a
/// message of it.
pub proof fn lemma_failure_text_prefix(buf: Seq<u8>)
    requires
        decode_spec(buf) is Err,
    ensures
        failure_text(buf).len() >= 10,
        (failure_text(buf).take(10) == "incomplete"@) <==> decode_spec(buf) == Err::<
            (Option<MessageView>, int),
            MessageFailure,
        >(MessageFailure::Incomplete),
{
    reveal_strlit("incomplete");
    reveal_strlit("incomplete: need 4 bytes for length prefix");
    reveal_strlit("incomplete: need ");
    reveal_strlit("Have payload must be 4 bytes");
    reveal_strlit("Request payload must be 12 bytes");
    reveal_strlit("Piece payload must be at least 8 bytes");
    reveal_strlit("Cancel payload must be 12 bytes");
    reveal_strlit("unknown message id: ");
    let t = failure_text(buf);
    if buf.len() < 4 {
        assert(t.take(10) =~= "incomplete"@);
    } else {
        let length = be32_value(buf.subrange(0, 4)) as int;
        if buf.len() < length + 4 {
            let head = "incomplete: need "@;
            assert(t.take(10) =~= head.take(10));
            assert(t.take(10) =~= "incomplete"@);
        } else {
            assert(t[0] != 'i');
            assert("incomplete"@[0] == 'i');
            if t.take(10) == "incomplete"@ {
                assert(t.take(10)[0] == t[0]);
            }
        }
    }
}

/// The message fits the wire format without its length being cut to 32
/// bits, and without the encoder's buffer outgrowing `isize::MAX` bytes.
pub open spec fn encodable(m: MessageView) -> bool {
    payload_spec(m).len() + 5 <= isize::MAX
}

/// The error that the decoder reports for `buf`, given why it fails.
fn failure_error(buf: &[u8], f: MessageFailure) -> (e: BError)
    requires
        decode_spec(buf@) == Err::<(Option<MessageView>, int), MessageFailure>(f),
    ensures
        reports_message(e, buf@),
{
    if buf.len() < 4 {
        return BError::InvalidMessage("incomplete: need 4 bytes for length prefix".to_string());
    }
    let length = get_u32_at(buf, 0) as u64;
    if (buf.len() as u64) < length + 4 {
        let mut text = "incomplete: need ".to_string();
        text.append(decimal_string(length + 4).as_str());
        text.append(" bytes, have ");
        text.append(decimal_string(buf.len() as u64).as_str());
        return BError::InvalidMessage(text);
    }
    let id = buf[4];
    let text = if id == 4 {
        "Have payload must be 4 bytes".to_string()
    } else if id == 6 {
        "Request payload must be 12 bytes".to_string()
    } else if id == 7 {
        "Piece payload must be at least 8 bytes".to_string()
    } else if id == 8 {
        "Cancel payload must be 12 bytes".to_string()
    } else {
        "unknown message id: ".to_string().concat(decimal_string(id as u64).as_str())
    };
    BError::InvalidMessage(text)
}

impl Message {
    pub fn id(&self) -> (r: u8)
        ensures
            r == id_spec(self@),
    {
        match self {
            Message::Choke => 0,
            Message::Unchoke => 1,
            Message::Interested => 2,
            Message::NotInterested => 3,
            Message::Have(_) => 4,
            Message::Bitfield(_) => 5,
            Message::Request { .. } => 6,
            Message::Piece { .. } => 7,
            Message::Cancel { .. } => 8,
        }
    }

    /// The wire form of this message.
    pub fn encode(&self) -> (r: Vec<u8>)
        requires
            encodable(self@),
        ensures
            r@ == encode_spec(self@),
    {
        let mut buf = bytes_mut_new();
        match self {
            Message::Choke | Message::Unchoke | Message::Interested | Message::NotInterested => {
                bytes_mut_put_u32(&mut buf, 1);
                bytes_mut_put_u8(&mut buf, self.id());
            },
            Message::Have(index) => {
                bytes_mut_put_u32(&mut buf, 5);
                bytes_mut_put_u8(&mut buf, self.id());
                bytes_mut_put_u32(&mut buf, *index);
            },
            Message::Bitfield(bf) => {
                let payload = bf.as_bytes();
                bytes_mut_put_u32(&mut buf, (payload.len() + 1) as u32);
                bytes_mut_put_u8(&mut buf, self.id());
                bytes_mut_put_slice(&mut buf, payload);
            },
            Message::Request { index, begin, length } | Message::Cancel { index, begin, length } => {
                bytes_mut_put_u32(&mut buf, 13);
                bytes_mut_put_u8(&mut buf, self.id());
                bytes_mut_put_u32(&mut buf, *index);
                bytes_mut_put_u32(&mut buf, *begin);
                bytes_mut_put_u32(&mut buf, *length);
            },
            Message::Piece { index, begin, data } => {
                bytes_mut_put_u32(&mut buf, (data.len() + 9) as u32);
                bytes_mut_put_u8(&mut buf, self.id());
                bytes_mut_put_u32(&mut buf, *index);
                bytes_mut_put_u32(&mut buf, *begin);
                bytes_mut_put_slice(&mut buf, data.as_slice());
            },
        }
        let r = bytes_mut_to_vec(&buf);
        assert(r@ =~= encode_spec(self@));
        r
    }

    pub(crate) fn decode_inner(buf: &[u8]) -> (r: Result<(Option<Message>, usize), MessageFailure>)
        ensures
            match decode_spec(buf@) {
                Ok((m, n)) => r matches Ok((x, k)) && k == n && match m {
                    Some(mv) => x matches Some(y) && y@ == mv,
                    None => x is None,
                },
                Err(f) => r matches Err(g) && g == f,
            },
    {
        if buf.len() < 4 {
            return Err(MessageFailure::Incomplete);
        }
        let length = get_u32_at(buf, 0) as usize;
        if length == 0 {
            return Ok((None, 4));
        }
        if buf.len() - 4 < length {
            return Err(MessageFailure::Incomplete);
        }
        let id = buf[4];
        let end = length + 4;
        let plen = length - 1;
        let msg = if id == 0 {
            Message::Choke
        } else if id == 1 {
            Message::Unchoke
        } else if id == 2 {
            Message::Interested
        } else if id == 3 {
            Message::NotInterested
        } else if id == 4 {
            if plen != 4 {
                return Err(MessageFailure::Invalid);
            }
            let index = get_u32_at(buf, 5);
            assert(buf@.subrange(5, 9) =~= buf@.subrange(5, end as int));
            Message::Have(index)
        } else if id == 5 {
            let payload = vstd::slice::slice_to_vec(&buf[5..end]);
            Message::Bitfield(Bitfield::from_bytes(payload, 0))
        } else if id == 6 || id == 8 {
            if plen != 12 {
                return Err(MessageFailure::Invalid);
            }
            let index = get_u32_at(buf, 5);
            let begin = get_u32_at(buf, 9);
            let length = get_u32_at(buf, 13);
            proof {
                let p = buf@.subrange(5, end as int);
                assert(p.subrange(0, 4) =~= buf@.subrange(5, 9));
                assert(p.subrange(4, 8) =~= buf@.subrange(9, 13));
                assert(p.subrange(8, 12) =~= buf@.subrange(13, 17));
            }
            if id == 6 {
                Message::Request { index, begin, length }
            } else {
                Message::Cancel { index, begin, length }
            }
        } else if id == 7 {
            if plen < 8 {
                return Err(MessageFailure::Invalid);
            }
            let index = get_u32_at(buf, 5);
            let begin = get_u32_at(buf, 9);
            let data = vstd::slice::slice_to_vec(&buf[13..end]);
            proof {
                let p = buf@.subrange(5, end as int);
                assert(p.subrange(0, 4) =~= buf@.subrange(5, 9));
                assert(p.subrange(4, 8) =~= buf@.subrange(9, 13));
                assert(p.subrange(8, p.len() as int) =~= buf@.subrange(13, end as int));
            }
            Message::Piece { index, begin, data }
        } else {
            return Err(MessageFailure::Invalid);
        };
        Ok((Some(msg), end))
    }

    /// Reads the message at the start of `buf`: `None` for a keep-alive, and
    /// the number of bytes that the message takes. A bitfield message gives
    /// a bitfield of no pieces, since the number of pieces is not on the wire.
    pub fn decode(buf: &[u8]) -> (r: Result<(Option<Message>, usize), BError>)
        ensures
            match decode_spec(buf@) {
                Ok((m, n)) => r matches Ok((x, k)) && k == n && match m {
                    Some(mv) => x matches Some(y) && y@ == mv,
                    None => x is None,
                },
                Err(_) => r matches Err(e) && reports_message(e, buf@),
            },
    {
        match Self::decode_inner(buf) {
            Ok(ok) => Ok(ok),
            Err(f) => Err(failure_error(buf, f)),
        }
    }
}

/// Decoding gives back what encoding wrote, whatever bytes follow, for
/// every message but a bitfield of one or more pieces: the wire does not
/// carry the number of pieces, so a bitfield comes back empty.
pub proof fn lemma_message_roundtrip(m: Message, rest: Seq<u8>)
    requires
        encodable(m@),
        payload_spec(m@).len() + 1 <= u32::MAX,
        m@ is Bitfield ==> m@->Bitfield_0 == from_bytes_spec(m@->Bitfield_0.bytes, 0),
    ensures
        decode_spec(encode_spec(m@) + rest) == Ok::<(Option<MessageView>, int), MessageFailure>(
            (Some(m@), encode_spec(m@).len() as int),
        ),
{
    let p = payload_spec(m@);
    let e = encode_spec(m@);
    let s = e + rest;
    lemma_be32_roundtrip((p.len() + 1) as u32);
    assert(s.subrange(0, 4) =~= be32((p.len() + 1) as u32));
    assert(s.subrange(5, p.len() + 5int) =~= p);
    match m@ {
        MessageView::Have(i) => {
            lemma_be32_roundtrip(i);
        },
        MessageView::Request { index, begin, length } | MessageView::Cancel {
            index,
            begin,
            length,
        } => {
            lemma_be32_roundtrip(index);
            lemma_be32_roundtrip(begin);
            lemma_be32_roundtrip(length);
            assert(p.subrange(0, 4) =~= be32(index));
            assert(p.subrange(4, 8) =~= be32(begin));
            assert(p.subrange(8, 12) =~= be32(length));
        },
        MessageView::Piece { index, begin, data } => {
            lemma_be32_roundtrip(index);
            lemma_be32_roundtrip(begin);
            assert(p.subrange(0, 4) =~= be32(index));
            assert(p.subrange(4, 8) =~= be32(begin));
            assert(p.subrange(8, p.len() as int) =~= data);
        },
        _ => {},
    }
}

} // verus!
