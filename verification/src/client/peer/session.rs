//! A peer worker that fetches pieces on its own: it claims a piece from
//! the shared piece manager, splits it into blocks and requests them a
//! few at a time, following the peer's choke state and bitfield.
//!
//! These are the worker's decisions; the connection, the timer and the
//! shared lock belong to the caller.

use std::collections::{HashMap, VecDeque};

use vstd::prelude::*;

use super::bitfield::{missing_pieces, Bitfield};
use crate::bittorrent::bitfield::piece_bit;
use super::message::Message;
use crate::client::engine::{populate_remaining_blocks, spec_blocks};
use crate::client::piece::{first_unclaimed, PieceManager};

verus! {

broadcast use vstd::std_specs::hash::group_hash_axioms;

/// How many requests may be outstanding at once.
pub const PIPELINE_DEPTH: usize = 8;

/// The length of piece `index`: the whole piece length, except for the
/// last piece, which holds what is left of the content (a whole piece when
/// the length divides evenly).
pub open spec fn worker_piece_len(piece_count: usize, piece_length: u64, length: u64, index: u32) -> u32 {
    if index == piece_count - 1 {
        let remainder = length % piece_length;
        if remainder == 0 {
            piece_length as u32
        } else {
            remainder as u32
        }
    } else {
        piece_length as u32
    }
}

/// The messages the worker acts on: keep-alives, choke, unchoke and a
/// bitfield that fits in memory eight times over.
pub open spec fn handled(m: Message) -> bool {
    match m {
        Message::KeepAlive | Message::Choke | Message::Unchoke => true,
        Message::Bitfield(bits) => bits@.len() <= usize::MAX / 64,
        _ => false,
    }
}

/// One peer's download state.
#[derive(Debug)]
pub struct PeerWorker {
    am_choked: bool,
    piece_count: usize,
    piece_length: u64,
    length: u64,
    peer_bitfield: Bitfield,
    remaining_blocks: VecDeque<(u32, u32)>,
    current_piece_idx: Option<u32>,
    in_flight: HashMap<u32, u32>,
}

impl PeerWorker {
    /// Whether the peer is choking us.
    pub closed spec fn choked(&self) -> bool {
        self.am_choked
    }

    /// The torrent's piece count.
    pub closed spec fn pieces(&self) -> usize {
        self.piece_count
    }

    /// The torrent's piece length.
    pub closed spec fn spec_piece_length(&self) -> u64 {
        self.piece_length
    }

    /// The torrent's content length.
    pub closed spec fn spec_length(&self) -> u64 {
        self.length
    }

    /// The pieces the peer has, bit by bit.
    pub closed spec fn peer_bits(&self) -> Seq<bool> {
        self.peer_bitfield.bits()
    }

    /// The blocks of the current piece not yet requested: offset, length.
    pub closed spec fn remaining(&self) -> Seq<(u32, u32)> {
        self.remaining_blocks@
    }

    /// The piece being fetched.
    pub closed spec fn current(&self) -> Option<u32> {
        self.current_piece_idx
    }

    /// The requests outstanding: offset to length.
    pub closed spec fn in_flight(&self) -> Map<u32, u32> {
        self.in_flight@
    }

    /// Pieces have a length, and blocks are queued only for a piece.
    pub closed spec fn wf(&self) -> bool {
        &&& self.piece_length > 0
        &&& self.remaining_blocks@.len() > 0 ==> self.current_piece_idx is Some
    }

    /// A worker for a newly connected peer: choked, knowing none of its
    /// pieces, fetching nothing.
    pub fn new(piece_count: usize, piece_length: u64, length: u64) -> (r: Self)
        requires
            piece_count <= usize::MAX / 8,
            piece_length > 0,
        ensures
            r.wf(),
            r.choked(),
            r.pieces() == piece_count,
            r.spec_piece_length() == piece_length,
            r.spec_length() == length,
            r.peer_bits() == Seq::new(piece_count as nat, |i: int| false),
            r.remaining() == Seq::<(u32, u32)>::empty(),
            r.current() is None,
            r.in_flight() == Map::<u32, u32>::empty(),
    {
        Self {
            am_choked: true,
            piece_count,
            piece_length,
            length,
            peer_bitfield: Bitfield::new(piece_count),
            remaining_blocks: VecDeque::new(),
            current_piece_idx: None,
            in_flight: HashMap::new(),
        }
    }

    /// The length of piece `index`.
    pub fn piece_len(&self, index: u32) -> (r: u32)
        requires
            self.wf(),
            self.pieces() > 0,
        ensures
            r == worker_piece_len(self.pieces(), self.spec_piece_length(), self.spec_length(), index),
    {
        if index as usize == self.piece_count - 1 {
            let remainder = self.length % self.piece_length;
            if remainder == 0 {
                self.piece_length as u32
            } else {
                remainder as u32
            }
        } else {
            self.piece_length as u32
        }
    }

    /// Whether a request may go out now: unchoked, with blocks left to ask
    /// for and room in the pipeline.
    pub fn can_request(&self) -> (r: bool)
        ensures
            r == (!self.choked() && self.remaining().len() > 0 && self.in_flight().len() < PIPELINE_DEPTH),
    {
        !self.am_choked && self.remaining_blocks.len() > 0 && self.in_flight.len() < PIPELINE_DEPTH
    }

    /// If no piece is being fetched, claim the first one the peer has that
    /// this side lacks and nobody has claimed, and queue its blocks.
    pub fn maybe_claim_piece(&mut self, piece_manager: &mut PieceManager)
        requires
            old(self).wf(),
        ensures
            final(self).wf(),
            final(self).choked() == old(self).choked(),
            final(self).pieces() == old(self).pieces(),
            final(self).spec_piece_length() == old(self).spec_piece_length(),
            final(self).spec_length() == old(self).spec_length(),
            final(self).peer_bits() == old(self).peer_bits(),
            final(piece_manager).have_bits() == old(piece_manager).have_bits(),
            final(piece_manager).have_pieces() == old(piece_manager).have_pieces(),
            final(piece_manager).spec_piece_length() == old(piece_manager).spec_piece_length(),
            final(piece_manager).spec_length() == old(piece_manager).spec_length(),
            if old(self).current() is Some {
                &&& final(self).remaining() == old(self).remaining()
                &&& final(self).current() == old(self).current()
                &&& final(self).in_flight() == old(self).in_flight()
                &&& final(piece_manager).pending() == old(piece_manager).pending()
            } else {
                match first_unclaimed(
                    missing_pieces(
                        old(piece_manager).have_bits(),
                        old(self).peer_bits(),
                        old(piece_manager).have_pieces() as nat,
                    ),
                    old(piece_manager).pending(),
                ) {
                    Some(i) => {
                        &&& final(piece_manager).pending() == old(piece_manager).pending().insert(i as u32)
                        &&& final(self).current() == Some(i as u32)
                        &&& final(self).remaining() == spec_blocks(
                            worker_piece_len(
                                old(self).pieces(),
                                old(self).spec_piece_length(),
                                old(self).spec_length(),
                                i as u32,
                            ) as nat,
                        )
                        &&& final(self).in_flight() == Map::<u32, u32>::empty()
                    },
                    None => {
                        &&& final(self).remaining() == old(self).remaining()
                        &&& final(self).current() == old(self).current()
                        &&& final(self).in_flight() == old(self).in_flight()
                        &&& final(piece_manager).pending() == old(piece_manager).pending()
                    },
                }
            },
    {
        if self.current_piece_idx.is_some() {
            return;
        }
        match piece_manager.claim_piece(&self.peer_bitfield) {
            Some(index) => {
                let piece_len = if self.piece_count == 0 {
                    self.piece_length as u32
                } else {
                    self.piece_len(index)
                };
                proof {
                    if self.piece_count == 0 {
                        assert(worker_piece_len(self.piece_count, self.piece_length, self.length, index)
                            == self.piece_length as u32) by {
                            assert(index != self.piece_count - 1);
                        }
                    }
                }
                let blocks = populate_remaining_blocks(piece_len);
                self.current_piece_idx = Some(index);
                self.remaining_blocks = blocks;
                self.in_flight.clear();
            },
            None => {},
        }
    }

    /// Act on a message from the peer: a choke or unchoke is recorded; a
    /// bitfield replaces what is known of the peer's pieces, after which a
    /// piece is claimed if none is being fetched.
    pub fn handle_message(&mut self, message: Message, piece_manager: &mut PieceManager)
        requires
            old(self).wf(),
            handled(message),
        ensures
            final(self).wf(),
            final(self).pieces() == old(self).pieces(),
            final(self).spec_piece_length() == old(self).spec_piece_length(),
            final(self).spec_length() == old(self).spec_length(),
            match message {
                Message::KeepAlive => *final(self) == *old(self) && *final(piece_manager) == *old(piece_manager),
                Message::Choke => {
                    &&& final(self).choked()
                    &&& final(self).peer_bits() == old(self).peer_bits()
                    &&& final(self).remaining() == old(self).remaining()
                    &&& final(self).current() == old(self).current()
                    &&& final(self).in_flight() == old(self).in_flight()
                    &&& *final(piece_manager) == *old(piece_manager)
                },
                Message::Unchoke => {
                    &&& !final(self).choked()
                    &&& final(self).peer_bits() == old(self).peer_bits()
                    &&& final(self).remaining() == old(self).remaining()
                    &&& final(self).current() == old(self).current()
                    &&& final(self).in_flight() == old(self).in_flight()
                    &&& *final(piece_manager) == *old(piece_manager)
                },
                Message::Bitfield(bits) => {
                    &&& final(self).choked() == old(self).choked()
                    &&& final(self).peer_bits() == Seq::new(8 * bits@.len(), |i: int| piece_bit(bits@, i))
                    &&& final(piece_manager).have_bits() == old(piece_manager).have_bits()
                    &&& final(piece_manager).have_pieces() == old(piece_manager).have_pieces()
                    &&& if old(self).current() is Some {
                        &&& final(self).remaining() == old(self).remaining()
                        &&& final(self).current() == old(self).current()
                        &&& final(self).in_flight() == old(self).in_flight()
                        &&& final(piece_manager).pending() == old(piece_manager).pending()
                    } else {
                        match first_unclaimed(
                            missing_pieces(
                                old(piece_manager).have_bits(),
                                Seq::new(8 * bits@.len(), |i: int| piece_bit(bits@, i)),
                                old(piece_manager).have_pieces() as nat,
                            ),
                            old(piece_manager).pending(),
                        ) {
                            Some(i) => {
                                &&& final(piece_manager).pending() == old(piece_manager).pending().insert(i as u32)
                                &&& final(self).current() == Some(i as u32)
                                &&& final(self).remaining() == spec_blocks(
                                    worker_piece_len(
                                        old(self).pieces(),
                                        old(self).spec_piece_length(),
                                        old(self).spec_length(),
                                        i as u32,
                                    ) as nat,
                                )
                                &&& final(self).in_flight() == Map::<u32, u32>::empty()
                            },
                            None => {
                                &&& final(self).remaining() == old(self).remaining()
                                &&& final(self).current() == old(self).current()
                                &&& final(self).in_flight() == old(self).in_flight()
                                &&& final(piece_manager).pending() == old(piece_manager).pending()
                            },
                        }
                    }
                },
                _ => true,
            },
    {
        match message {
            Message::Choke => {
                self.am_choked = true;
            },
            Message::Unchoke => {
                self.am_choked = false;
            },
            Message::Bitfield(bits) => {
                self.peer_bitfield = Bitfield::from_bytes(bits, self.piece_count);
                self.maybe_claim_piece(piece_manager);
            },
            _ => {},
        }
    }

    /// Take the next block off the queue and make the request for it,
    /// which is then outstanding; `None` when nothing is queued.
    pub fn next_request(&mut self) -> (r: Option<Message>)
        requires
            old(self).wf(),
        ensures
            final(self).wf(),
            final(self).choked() == old(self).choked(),
            final(self).pieces() == old(self).pieces(),
            final(self).spec_piece_length() == old(self).spec_piece_length(),
            final(self).spec_length() == old(self).spec_length(),
            final(self).peer_bits() == old(self).peer_bits(),
            final(self).current() == old(self).current(),
            if old(self).remaining().len() == 0 {
                &&& r is None
                &&& final(self).remaining() == old(self).remaining()
                &&& final(self).in_flight() == old(self).in_flight()
            } else {
                let (begin, length) = old(self).remaining()[0];
                &&& r == Some(Message::Request { index: old(self).current()->0, begin, length })
                &&& final(self).remaining() == old(self).remaining().drop_first()
                &&& final(self).in_flight() == old(self).in_flight().insert(begin, length)
            },
    {
        match self.remaining_blocks.pop_front() {
            Some((begin, length)) => {
                let index = match self.current_piece_idx {
                    Some(i) => i,
                    None => {
                        return None;
                    },
                };
                self.in_flight.insert(begin, length);
                assert(self.remaining_blocks@ =~= old(self).remaining().drop_first());
                Some(Message::Request { index, begin, length })
            },
            None => None,
        }
    }
}

} // verus!
