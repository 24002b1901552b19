//! What a peer worker does with what it hears and what it is told: each
//! message from the peer becomes an event for the engine, and each command
//! from the engine becomes a message for the peer.

use vstd::prelude::*;

use super::command::PeerCommand;
use super::message::Message;
use crate::client::engine::PeerEvent;

verus! {

/// The engine event a message from the peer stands for: choke and unchoke
/// pass on, a bitfield and a piece's block pass on with their contents,
/// and everything else (keep-alives, and interest or requests from the
/// peer, which this client does not serve) gives none.
pub fn event_for_message(message: Message) -> (r: Option<PeerEvent>)
    ensures
        match message {
            Message::Choke => r matches Some(PeerEvent::Choke),
            Message::Unchoke => r matches Some(PeerEvent::Unchoke),
            Message::Bitfield(bits) => r matches Some(PeerEvent::Bitfield(b)) && b@ == bits@,
            Message::Piece { index, begin, data } => r matches Some(PeerEvent::Block { piece_index, begin: b, data: d })
                && piece_index == index && b == begin && d@ == data@,
            _ => r is None,
        },
{
    match message {
        Message::Choke => Some(PeerEvent::Choke),
        Message::Unchoke => Some(PeerEvent::Unchoke),
        Message::Bitfield(bits) => Some(PeerEvent::Bitfield(bits)),
        Message::Piece { index, begin, data } => Some(PeerEvent::Block { piece_index: index, begin, data }),
        _ => None,
    }
}

/// The message that carries out a command from the engine.
pub fn message_for_command(command: PeerCommand) -> (m: Message)
    ensures
        match command {
            PeerCommand::Request { index, begin, length } => m matches Message::Request { index: i, begin: b, length: l }
                && i == index && b == begin && l == length,
        },
{
    match command {
        PeerCommand::Request { index, begin, length } => Message::Request { index, begin, length },
    }
}

} // verus!
