//! Peer wire messages: a four-byte big-endian length, then an id byte and
//! the payload.
//!
//! Ids: 0 choke, 1 unchoke, 2 interested, 3 not interested, 4 have,
//! 5 bitfield, 6 request, 7 piece, 8 cancel.

use vstd::prelude::*;
use vstd::slice::slice_to_vec;

use crate::client::wire::{be_u32, get_u32, lemma_be_u32_of_bytes, put_u32, u32_be};

verus! {

/// A message this client sends or understands.
#[derive(Debug)]
pub enum Message {
    KeepAlive,
    Choke,
    Unchoke,
    Interested,
    NotInterested,
    Bitfield(Vec<u8>),
    Request { index: u32, begin: u32, length: u32 },
    Piece { index: u32, begin: u32, data: Vec<u8> },
}

/// A message, with its byte payloads as sequences.
pub enum SpecMessage {
    KeepAlive,
    Choke,
    Unchoke,
    Interested,
    NotInterested,
    Bitfield(Seq<u8>),
    Request { index: u32, begin: u32, length: u32 },
    Piece { index: u32, begin: u32, data: Seq<u8> },
}

impl View for Message {
    type V = SpecMessage;

    open spec fn view(&self) -> SpecMessage {
        match self {
            Message::KeepAlive => SpecMessage::KeepAlive,
            Message::Choke => SpecMessage::Choke,
            Message::Unchoke => SpecMessage::Unchoke,
            Message::Interested => SpecMessage::Interested,
            Message::NotInterested => SpecMessage::NotInterested,
            Message::Bitfield(d) => SpecMessage::Bitfield(d@),
            Message::Request { index, begin, length } => SpecMessage::Request {
                index: *index,
                begin: *begin,
                length: *length,
            },
            Message::Piece { index, begin, data } => SpecMessage::Piece {
                index: *index,
                begin: *begin,
                data: data@,
            },
        }
    }
}

/// A length prefix announced a message whose payload cannot be what its id
/// needs.
#[derive(Debug)]
pub enum MessageError {
    Malformed,
}

/// Whether a message's length prefix fits in four bytes.
pub open spec fn encodable(m: SpecMessage) -> bool {
    match m {
        SpecMessage::Bitfield(d) => d.len() + 1 <= u32::MAX,
        SpecMessage::Piece { data, .. } => data.len() + 9 <= u32::MAX,
        _ => true,
    }
}

/// The bytes a message is sent as.
pub open spec fn message_bytes(m: SpecMessage) -> Seq<u8> {
    match m {
        SpecMessage::KeepAlive => u32_be(0),
        SpecMessage::Choke => u32_be(1) + seq![0u8],
        SpecMessage::Unchoke => u32_be(1) + seq![1u8],
        SpecMessage::Interested => u32_be(1) + seq![2u8],
        SpecMessage::NotInterested => u32_be(1) + seq![3u8],
        SpecMessage::Bitfield(d) => u32_be((1 + d.len()) as u32) + seq![5u8] + d,
        SpecMessage::Request { index, begin, length } => u32_be(13) + seq![6u8] + u32_be(index)
            + u32_be(begin) + u32_be(length),
        SpecMessage::Piece { index, begin, data } => u32_be((9 + data.len()) as u32) + seq![7u8]
            + u32_be(index) + u32_be(begin) + data,
    }
}

/// What reading the front of `buf` gives, and how many bytes it consumes.
///
/// Nothing is consumed until a whole message has arrived. Messages with an
/// id this client does not handle are consumed and give nothing. A request
/// reads its twelve payload bytes whatever length it announced; a request
/// without them, or a piece announcing fewer than nine bytes, is malformed.
pub open spec fn spec_decode(buf: Seq<u8>) -> (Result<Option<SpecMessage>, MessageError>, nat) {
    if buf.len() < 4 {
        (Ok(None), 0)
    } else {
        let length = be_u32(buf) as nat;
        if buf.len() < 4 + length {
            (Ok(None), 0)
        } else if length == 0 {
            (Ok(Some(SpecMessage::KeepAlive)), 4)
        } else {
            let id = buf[4];
            if id == 0 {
                (Ok(Some(SpecMessage::Choke)), 5)
            } else if id == 1 {
                (Ok(Some(SpecMessage::Unchoke)), 5)
            } else if id == 2 {
                (Ok(Some(SpecMessage::Interested)), 5)
            } else if id == 3 {
                (Ok(Some(SpecMessage::NotInterested)), 5)
            } else if id == 5 {
                (Ok(Some(SpecMessage::Bitfield(buf.subrange(5, 4 + length as int)))), 4 + length)
            } else if id == 6 {
                if buf.len() < 17 {
                    (Err(MessageError::Malformed), 0)
                } else {
                    (
                        Ok(
                            Some(
                                SpecMessage::Request {
                                    index: be_u32(buf.skip(5)),
                                    begin: be_u32(buf.skip(9)),
                                    length: be_u32(buf.skip(13)),
                                },
                            ),
                        ),
                        17,
                    )
                }
            } else if id == 7 {
                if length < 9 {
                    (Err(MessageError::Malformed), 0)
                } else {
                    (
                        Ok(
                            Some(
                                SpecMessage::Piece {
                                    index: be_u32(buf.skip(5)),
                                    begin: be_u32(buf.skip(9)),
                                    data: buf.subrange(13, 4 + length as int),
                                },
                            ),
                        ),
                        4 + length,
                    )
                }
            } else {
                (Ok(None), 4 + length)
            }
        }
    }
}

/// The view of a decode result.
pub open spec fn decoded_view(r: Result<Option<Message>, MessageError>) -> Result<
    Option<SpecMessage>,
    MessageError,
> {
    match r {
        Ok(Some(m)) => Ok(Some(m@)),
        Ok(None) => Ok(None),
        Err(e) => Err(e),
    }
}

/// Remove the first `k` bytes of `buf` and return them.
fn take_front(buf: &mut Vec<u8>, k: usize) -> (head: Vec<u8>)
    requires
        k <= old(buf)@.len(),
    ensures
        head@ == old(buf)@.take(k as int),
        final(buf)@ == old(buf)@.skip(k as int),
{
    let mut rest = buf.split_off(k);
    std::mem::swap(buf, &mut rest);
    rest
}

impl Message {
    /// The bytes to send for this message.
    pub fn encode(&self) -> (r: Vec<u8>)
        requires
            encodable(self@),
        ensures
            r@ == message_bytes(self@),
    {
        let mut buf: Vec<u8> = Vec::new();
        match self {
            Message::KeepAlive => put_u32(&mut buf, 0),
            Message::Choke => {
                put_u32(&mut buf, 1);
                buf.push(0);
            },
            Message::Unchoke => {
                put_u32(&mut buf, 1);
                buf.push(1);
            },
            Message::Interested => {
                put_u32(&mut buf, 1);
                buf.push(2);
            },
            Message::NotInterested => {
                put_u32(&mut buf, 1);
                buf.push(3);
            },
            Message::Bitfield(data) => {
                put_u32(&mut buf, 1 + data.len() as u32);
                buf.push(5);
                buf.extend_from_slice(data.as_slice());
            },
            Message::Request { index, begin, length } => {
                put_u32(&mut buf, 13);
                buf.push(6);
                put_u32(&mut buf, *index);
                put_u32(&mut buf, *begin);
                put_u32(&mut buf, *length);
            },
            Message::Piece { index, begin, data } => {
                put_u32(&mut buf, 9 + data.len() as u32);
                buf.push(7);
                put_u32(&mut buf, *index);
                put_u32(&mut buf, *begin);
                buf.extend_from_slice(data.as_slice());
            },
        }
        assert(buf@ =~= message_bytes(self@));
        buf
    }

    /// Read one message off the front of `buf`.
    ///
    /// `Ok(None)` means either that the message has not fully arrived (and
    /// nothing was consumed) or that it had an id this client ignores (and
    /// it was consumed).
    pub fn decode(buf: &mut Vec<u8>) -> (r: Result<Option<Message>, MessageError>)
        ensures
            decoded_view(r) == spec_decode(old(buf)@).0,
            final(buf)@ == old(buf)@.skip(spec_decode(old(buf)@).1 as int),
    {
        let ghost b = buf@;
        if buf.len() < 4 {
            assert(buf@.skip(0) =~= buf@);
            return Ok(None);
        }
        let length = get_u32(buf.as_slice(), 0);
        assert(b.skip(0) =~= b);
        if (buf.len() as u64) < 4 + length as u64 {
            assert(buf@.skip(0) =~= buf@);
            return Ok(None);
        }
        let total: usize = 4 + length as usize;
        if length == 0 {
            take_front(buf, 4);
            return Ok(Some(Message::KeepAlive));
        }
        let id = buf[4];
        if id == 0 {
            take_front(buf, 5);
            Ok(Some(Message::Choke))
        } else if id == 1 {
            take_front(buf, 5);
            Ok(Some(Message::Unchoke))
        } else if id == 2 {
            take_front(buf, 5);
            Ok(Some(Message::Interested))
        } else if id == 3 {
            take_front(buf, 5);
            Ok(Some(Message::NotInterested))
        } else if id == 5 {
            let data = slice_to_vec(vstd::slice::slice_subrange(buf.as_slice(), 5, total));
            take_front(buf, total);
            Ok(Some(Message::Bitfield(data)))
        } else if id == 6 {
            if buf.len() < 17 {
                assert(buf@.skip(0) =~= buf@);
                return Err(MessageError::Malformed);
            }
            let index = get_u32(buf.as_slice(), 5);
            let begin = get_u32(buf.as_slice(), 9);
            let len = get_u32(buf.as_slice(), 13);
            take_front(buf, 17);
            Ok(Some(Message::Request { index, begin, length: len }))
        } else if id == 7 {
            if length < 9 {
                assert(buf@.skip(0) =~= buf@);
                return Err(MessageError::Malformed);
            }
            let index = get_u32(buf.as_slice(), 5);
            let begin = get_u32(buf.as_slice(), 9);
            let data = slice_to_vec(vstd::slice::slice_subrange(buf.as_slice(), 13, total));
            take_front(buf, total);
            Ok(Some(Message::Piece { index, begin, data }))
        } else {
            take_front(buf, total);
            Ok(None)
        }
    }
}

/// Reading back what [`Message::encode`] wrote gives the message again and
/// consumes exactly its bytes, whatever follows them.
pub proof fn law_decode_inverts_encode(m: SpecMessage, rest: Seq<u8>)
    requires
        encodable(m),
    ensures
        spec_decode(message_bytes(m) + rest) == (
        Ok::<Option<SpecMessage>, MessageError>(Some(m)),
        message_bytes(m).len(),
        ),
{
    let bytes = message_bytes(m);
    let buf = bytes + rest;
    match m {
        SpecMessage::KeepAlive => {
            lemma_be_u32_of_bytes(0, rest);
        },
        SpecMessage::Choke | SpecMessage::Unchoke | SpecMessage::Interested
        | SpecMessage::NotInterested => {
            let tail = bytes.skip(4) + rest;
            assert(buf =~= u32_be(1) + tail);
            lemma_be_u32_of_bytes(1, tail);
        },
        SpecMessage::Bitfield(d) => {
            let n = (1 + d.len()) as u32;
            let tail = seq![5u8] + d + rest;
            assert(buf =~= u32_be(n) + tail);
            lemma_be_u32_of_bytes(n, tail);
            assert(buf.subrange(5, 4 + n) =~= d);
        },
        SpecMessage::Piece { index, begin, data } => {
            let n = (9 + data.len()) as u32;
            let tail = seq![7u8] + u32_be(index) + u32_be(begin) + data + rest;
            assert(buf =~= u32_be(n) + tail);
            lemma_be_u32_of_bytes(n, tail);
            let t1 = u32_be(begin) + data + rest;
            assert(buf.skip(5) =~= u32_be(index) + t1);
            lemma_be_u32_of_bytes(index, t1);
            let t2 = data + rest;
            assert(buf.skip(9) =~= u32_be(begin) + t2);
            lemma_be_u32_of_bytes(begin, t2);
            assert(buf.subrange(13, 4 + n) =~= data);
        },
        SpecMessage::Request { index, begin, length } => {
            let tail = seq![6u8] + u32_be(index) + u32_be(begin) + u32_be(length) + rest;
            assert(buf =~= u32_be(13) + tail);
            lemma_be_u32_of_bytes(13, tail);
            let t1 = u32_be(begin) + u32_be(length) + rest;
            assert(buf.skip(5) =~= u32_be(index) + t1);
            lemma_be_u32_of_bytes(index, t1);
            let t2 = u32_be(length) + rest;
            assert(buf.skip(9) =~= u32_be(begin) + t2);
            lemma_be_u32_of_bytes(begin, t2);
            assert(buf.skip(13) =~= u32_be(length) + rest);
            lemma_be_u32_of_bytes(length, rest);
        },
    }
}

/// The number that the four bytes of `b` from `at` spell, high byte first.
pub open spec fn big_endian_at(b: Seq<u8>, at: int) -> int {
    b[at] * 0x100_0000 + b[at + 1] * 0x1_0000 + b[at + 2] * 0x100 + b[at + 3]
}

/// The id byte a message is sent with; a keep-alive has none.
pub open spec fn message_id(m: SpecMessage) -> Option<u8> {
    match m {
        SpecMessage::KeepAlive => None,
        SpecMessage::Choke => Some(0u8),
        SpecMessage::Unchoke => Some(1u8),
        SpecMessage::Interested => Some(2u8),
        SpecMessage::NotInterested => Some(3u8),
        SpecMessage::Bitfield(_) => Some(5u8),
        SpecMessage::Request { .. } => Some(6u8),
        SpecMessage::Piece { .. } => Some(7u8),
    }
}

proof fn lemma_big_endian_at(b: Seq<u8>, k: int, v: u32)
    requires
        0 <= k,
        k + 4 <= b.len(),
        b.subrange(k, k + 4) == u32_be(v),
    ensures
        big_endian_at(b, k) == v,
{
    let t = b.skip(k);
    assert(t =~= u32_be(v) + b.skip(k + 4)) by {
        assert forall|i: int| 0 <= i < t.len() implies t[i] == (u32_be(v) + b.skip(k + 4))[i] by {
            if i < 4 {
                assert(t[i] == b.subrange(k, k + 4)[i]);
            }
        }
    }
    lemma_be_u32_of_bytes(v, b.skip(k + 4));
    assert(t[0] == b[k] && t[1] == b[k + 1] && t[2] == b[k + 2] && t[3] == b[k + 3]);
}

/// The length prefix and id of a message whose payload is `rest`.
proof fn lemma_prefix(b: Seq<u8>, n: u32, id: u8, rest: Seq<u8>)
    requires
        b == u32_be(n) + seq![id] + rest,
        n == 1 + rest.len(),
    ensures
        b.len() >= 5,
        big_endian_at(b, 0) == b.len() - 4,
        b[4] == id,
        b.skip(5) == rest,
{
    assert(b.subrange(0, 4) =~= u32_be(n));
    lemma_big_endian_at(b, 0, n);
    assert(b.skip(5) =~= rest);
}

proof fn lemma_request_frame(index: u32, begin: u32, length: u32)
    ensures
        ({
            let b = message_bytes(SpecMessage::Request { index, begin, length });
            &&& b.len() == 17
            &&& big_endian_at(b, 0) == 13
            &&& b[4] == 6u8
            &&& big_endian_at(b, 5) == index
            &&& big_endian_at(b, 9) == begin
            &&& big_endian_at(b, 13) == length
        }),
{
    let b = message_bytes(SpecMessage::Request { index, begin, length });
    assert(b.subrange(0, 4) =~= u32_be(13));
    assert(b.subrange(5, 9) =~= u32_be(index));
    assert(b.subrange(9, 13) =~= u32_be(begin));
    assert(b.subrange(13, 17) =~= u32_be(length));
    lemma_big_endian_at(b, 0, 13);
    lemma_big_endian_at(b, 5, index);
    lemma_big_endian_at(b, 9, begin);
    lemma_big_endian_at(b, 13, length);
}

proof fn lemma_piece_frame(index: u32, begin: u32, data: Seq<u8>)
    requires
        data.len() + 9 <= u32::MAX,
    ensures
        ({
            let b = message_bytes(SpecMessage::Piece { index, begin, data });
            &&& b.len() >= 13
            &&& big_endian_at(b, 0) == b.len() - 4
            &&& b[4] == 7u8
            &&& big_endian_at(b, 5) == index
            &&& big_endian_at(b, 9) == begin
            &&& b.skip(13) == data
        }),
{
    let b = message_bytes(SpecMessage::Piece { index, begin, data });
    let rest = u32_be(index) + u32_be(begin) + data;
    assert(b =~= u32_be((9 + data.len()) as u32) + seq![7u8] + rest);
    lemma_prefix(b, (9 + data.len()) as u32, 7u8, rest);
    assert(b.subrange(5, 9) =~= u32_be(index));
    assert(b.subrange(9, 13) =~= u32_be(begin));
    lemma_big_endian_at(b, 5, index);
    lemma_big_endian_at(b, 9, begin);
    assert(b.skip(13) =~= data);
}

/// How a message is framed on the wire: four bytes, high byte first, give
/// the length of what follows; then the message's id (none for a
/// keep-alive), then its payload: a bitfield's bytes; a request's index,
/// begin and length as four-byte numbers; a piece's index and begin, then
/// its data.
pub proof fn law_message_framing(m: SpecMessage)
    requires
        encodable(m),
    ensures
        ({
            let b = message_bytes(m);
            &&& b.len() >= 4
            &&& big_endian_at(b, 0) == b.len() - 4
            &&& match message_id(m) {
                None => b.len() == 4,
                Some(id) => b.len() >= 5 && b[4] == id,
            }
            &&& match m {
                SpecMessage::Bitfield(d) => b.skip(5) == d,
                SpecMessage::Request { index, begin, length } => {
                    &&& b.len() == 17
                    &&& big_endian_at(b, 5) == index
                    &&& big_endian_at(b, 9) == begin
                    &&& big_endian_at(b, 13) == length
                },
                SpecMessage::Piece { index, begin, data } => {
                    &&& b.len() >= 13
                    &&& big_endian_at(b, 5) == index
                    &&& big_endian_at(b, 9) == begin
                    &&& b.skip(13) == data
                },
                SpecMessage::KeepAlive => b.len() == 4,
                _ => b.len() == 5,
            }
        }),
{
    let b = message_bytes(m);
    match m {
        SpecMessage::KeepAlive => {
            assert(b.subrange(0, 4) =~= u32_be(0));
            lemma_big_endian_at(b, 0, 0);
        },
        SpecMessage::Choke => {
            lemma_prefix(b, 1, 0u8, Seq::empty());
        },
        SpecMessage::Unchoke => {
            lemma_prefix(b, 1, 1u8, Seq::empty());
        },
        SpecMessage::Interested => {
            lemma_prefix(b, 1, 2u8, Seq::empty());
        },
        SpecMessage::NotInterested => {
            lemma_prefix(b, 1, 3u8, Seq::empty());
        },
        SpecMessage::Bitfield(d) => {
            lemma_prefix(b, (1 + d.len()) as u32, 5u8, d);
        },
        SpecMessage::Request { index, begin, length } => {
            lemma_request_frame(index, begin, length);
        },
        SpecMessage::Piece { index, begin, data } => {
            lemma_piece_frame(index, begin, data);
        },
    }
}

} // verus!
