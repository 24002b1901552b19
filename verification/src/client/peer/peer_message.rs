//! Message ids and a message as an id with its raw payload.

use vstd::prelude::*;

verus! {

/// The id byte of a peer wire message.
#[derive(Debug, Clone, Copy, PartialEq, Eq, Structural)]
pub enum Message {
    Choke,
    Unchoke,
    Interested,
    NotInterested,
    Have,
    Bitfield,
    Request,
    Piece,
    Cancel,
}

/// The id each byte 0 through 8 stands for.
pub open spec fn message_of_id(value: u8) -> Message
    recommends
        value <= 8,
{
    if value == 0 {
        Message::Choke
    } else if value == 1 {
        Message::Unchoke
    } else if value == 2 {
        Message::Interested
    } else if value == 3 {
        Message::NotInterested
    } else if value == 4 {
        Message::Have
    } else if value == 5 {
        Message::Bitfield
    } else if value == 6 {
        Message::Request
    } else if value == 7 {
        Message::Piece
    } else {
        Message::Cancel
    }
}

impl Message {
    /// The id a byte stands for. Only bytes 0 through 8 name an id.
    pub fn from(value: u8) -> (r: Message)
        requires
            value <= 8,
        ensures
            r == message_of_id(value),
    {
        match value {
            0 => Message::Choke,
            1 => Message::Unchoke,
            2 => Message::Interested,
            3 => Message::NotInterested,
            4 => Message::Have,
            5 => Message::Bitfield,
            6 => Message::Request,
            7 => Message::Piece,
            _ => Message::Cancel,
        }
    }
}

/// A message as its id and the bytes after it.
#[derive(Debug)]
pub struct PeerMessage {
    pub id: Message,
    pub payload: Vec<u8>,
}

impl PeerMessage {
    pub fn new(id: Message, payload: Vec<u8>) -> (r: Self)
        ensures
            r.id == id,
            r.payload@ == payload@,
    {
        Self { id, payload }
    }
}

} // verus!
