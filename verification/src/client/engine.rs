//! The engine's decisions: which piece each peer is asked for, which blocks
//! are requested and when, and what happens when a peer chokes, sends a
//! block or leaves.
//!
//! The engine holds no channels and does no I/O. Each event is handed to it
//! with the peer it came from; it updates its state and says what to do
//! next, and the caller does it: storing a block, or sending the requests
//! that [`Engine::next_request`] hands out one at a time.

use std::collections::{HashMap, HashSet, VecDeque};
use std::sync::Arc;

use vstd::prelude::*;

use crate::bittorrent::bitfield::count_set;
use crate::client::disk::{Block, DiskEvent};
use crate::client::metainfo::file_layout::layout_length;
use crate::client::metainfo::info_dictionary::{info_piece_count, info_piece_len, InfoDictionary, SpecInfo};
use crate::client::peer::bitfield::{missing_pieces, Bitfield};
use crate::client::peer::command::PeerCommand;
use crate::client::peer::state::PeerState;
use crate::client::piece::{first_unclaimed, lemma_first_unclaimed, lemma_missing_pieces, PieceManager};

verus! {

broadcast use vstd::std_specs::hash::group_hash_axioms;

/// The most requests kept outstanding with one peer.
pub const MAX_REQUEST_PIPELINE: usize = 8;

/// The size of a requested block, the last of a piece excepted.
pub const BLOCK_SIZE: u32 = 16 * 1024;

/// How many blocks a piece of `len` bytes is requested in.
pub open spec fn block_count(len: nat) -> nat {
    (len + 16383) / 16384
}

/// The blocks of a piece of `len` bytes: offset and length, in order, each
/// a full block but the last.
pub open spec fn spec_blocks(len: nat) -> Seq<(u32, u32)> {
    Seq::new(
        block_count(len),
        |k: int| ((k * 16384) as u32, (if len - k * 16384 < 16384 { len - k * 16384 } else { 16384 }) as u32),
    )
}

/// Split a piece into the blocks to request.
pub fn populate_remaining_blocks(piece_len: u32) -> (r: VecDeque<(u32, u32)>)
    ensures
        r@ == spec_blocks(piece_len as nat),
{
    let mut blocks: VecDeque<(u32, u32)> = VecDeque::new();
    let mut offset: u32 = 0;
    let ghost mut k: nat = 0;
    while offset < piece_len
        invariant
            offset <= piece_len,
            k <= block_count(piece_len as nat),
            offset == k * 16384 || (offset == piece_len && k == block_count(piece_len as nat)),
            offset < piece_len ==> offset == k * 16384,
            blocks@ == spec_blocks(piece_len as nat).take(k as int),
        decreases piece_len - offset,
    {
        let len = if piece_len - offset < BLOCK_SIZE {
            piece_len - offset
        } else {
            BLOCK_SIZE
        };
        blocks.push_back((offset, len));
        offset = offset + len;
        proof {
            assert(spec_blocks(piece_len as nat).take(k as int + 1) =~= spec_blocks(piece_len as nat).take(k as int).push(
                spec_blocks(piece_len as nat)[k as int],
            ));
            k = k + 1;
        }
    }
    assert(spec_blocks(piece_len as nat).take(k as int) =~= spec_blocks(piece_len as nat));
    blocks
}

/// The blocks of a piece tile it: each starts where the one before ended,
/// none is longer than a block or empty, and together they cover exactly
/// the piece.
pub proof fn law_blocks_tile_the_piece(len: nat)
    requires
        len <= u32::MAX,
    ensures
        forall|k: int| 0 <= k < spec_blocks(len).len() ==> {
            &&& (#[trigger] spec_blocks(len)[k]).0 == k * 16384
            &&& 0 < spec_blocks(len)[k].1 <= 16384
            &&& spec_blocks(len)[k].0 + spec_blocks(len)[k].1 <= len
        },
        spec_blocks(len).len() > 0 ==> spec_blocks(len).last().0 + spec_blocks(len).last().1 == len,
{
}

/// What one peer's event is.
#[derive(Debug)]
pub enum PeerEvent {
    Connected,
    Choke,
    Unchoke,
    Have(u32),
    Bitfield(Vec<u8>),
    Block { piece_index: u32, begin: u32, data: Vec<u8> },
    Disconnected,
}

/// What the caller does after an event: store a received block, and then
/// fill the peer's request pipeline if `populate` says so.
pub struct EngineStep {
    pub store: Option<Block>,
    pub populate: bool,
}

/// The peers' states, this side's pieces, and the torrent.
#[derive(Debug)]
pub struct Engine {
    info_dictionary: Arc<InfoDictionary>,
    peer_states: HashMap<u64, PeerState>,
    piece_manager: PieceManager,
}

/// A peer's state agrees with the torrent: its piece is a real one, and
/// every request in flight lies inside it.
pub open spec fn peer_ok(s: PeerState, info: SpecInfo) -> bool {
    s.current_piece_idx matches Some(i) ==> {
        &&& i < info_piece_count(info)
        &&& forall|b: u32| #[trigger] s.in_flight@.contains(b) ==> b <= info_piece_len(info, i)
    }
}

/// Each stale request, requeued at the front in the order given, as the
/// rest of its piece up to a block.
pub open spec fn requeue(order: Seq<u32>, info: SpecInfo, current: Option<u32>, remaining: Seq<(u32, u32)>) -> Seq<(u32, u32)>
    decreases order.len(),
{
    match current {
        None => remaining,
        Some(i) => if order.len() == 0 {
            remaining
        } else {
            let begin = order[0];
            let rest = (info_piece_len(info, i) - begin) as u32;
            let length = if rest < 16384 { rest } else { 16384u32 };
            requeue(order.drop_first(), info, current, seq![(begin, length)] + remaining)
        },
    }
}

/// Only `peer`'s state may differ between `a` and `b`, and the same peers
/// are known.
pub open spec fn only_changed(a: Map<u64, PeerState>, b: Map<u64, PeerState>, peer: u64) -> bool {
    &&& b.dom() == a.dom()
    &&& forall|p: u64| p != peer && #[trigger] a.contains_key(p) ==> b[p] == a[p]
}

/// The keys of a map, each once.
fn map_keys(m: &HashMap<u64, PeerState>) -> (r: Vec<u64>)
    ensures
        r@.no_duplicates(),
        r@.to_set() == m@.dom(),
{
    let mut out: Vec<u64> = Vec::new();
    for k in it: m.keys()
        invariant
            out@ == it.seq().take(it.index() as int).unref(),
            it.seq().unref().to_set() == m@.dom(),
            it.seq().unref().no_duplicates(),
            it.index() <= it.seq().len(),
            it.index() == it.seq().len() ==> out@ == it.seq().unref(),
    {
        assert(it.seq().take(it.index() + 1).unref() =~= it.seq().take(it.index() as int).unref().push(*k));
        out.push(*k);
    }
    assert(out@.to_set() =~= m@.dom());
    out
}

/// The elements of a set, each once, in the order iteration gives them.
fn set_elements(set: &HashSet<u32>) -> (r: Vec<u32>)
    ensures
        r@.no_duplicates(),
        r@.to_set() == set@,
{
    let mut out: Vec<u32> = Vec::new();
    for b in it: set.iter()
        invariant
            out@ == it.seq().take(it.index() as int).unref(),
            it.seq().unref().to_set() == set@,
            it.seq().unref().no_duplicates(),
            it.index() <= it.seq().len(),
            it.index() == it.seq().len() ==> out@ == it.seq().unref(),
    {
        assert(it.seq().take(it.index() + 1).unref() =~= it.seq().take(it.index() as int).unref().push(*b));
        out.push(*b);
    }
    assert(out@.to_set() =~= set@);
    out
}

/// The state after a peer connected: it starts afresh, replacing any
/// earlier state; nothing else changes.
pub open spec fn after_connected(o: Engine, f: Engine, peer: u64) -> bool {
    &&& f.manager() == o.manager()
    &&& f.peers().dom() == o.peers().dom().insert(peer)
    &&& forall|p: u64| p != peer && #[trigger] o.peers().contains_key(p) ==> f.peers()[p] == o.peers()[p]
    &&& ({
        let s = f.peers()[peer];
        &&& s.bitfield.bits() == Seq::<bool>::empty()
        &&& s.am_choked
        &&& s.current_piece_idx is None
        &&& s.in_flight@ == Set::<u32>::empty()
        &&& s.remaining_blocks@ == Seq::<(u32, u32)>::empty()
    })
}

/// The state after a peer choked us: it is marked choked, nothing is in
/// flight, and the blocks that were go back to the front of its queue.
pub open spec fn after_choke(o: Engine, f: Engine, peer: u64) -> bool {
    &&& f.manager() == o.manager()
    &&& !o.peers().contains_key(peer) ==> f.peers() == o.peers()
    &&& o.peers().contains_key(peer) ==> {
        let op = o.peers()[peer];
        let s = f.peers()[peer];
        &&& f.peers().dom() == o.peers().dom()
        &&& forall|p: u64| p != peer && #[trigger] o.peers().contains_key(p) ==> f.peers()[p] == o.peers()[p]
        &&& s.am_choked
        &&& s.bitfield == op.bitfield
        &&& s.current_piece_idx == op.current_piece_idx
        &&& s.in_flight@ == Set::<u32>::empty()
        &&& exists|order: Seq<u32>| {
            &&& order.no_duplicates()
            &&& order.to_set() == op.in_flight@
            &&& s.remaining_blocks@ == #[trigger] requeue(order, o.info(), op.current_piece_idx, op.remaining_blocks@)
        }
    }
}

/// The state after a peer unchoked us: only its choke flag clears.
pub open spec fn after_unchoke(o: Engine, f: Engine, peer: u64) -> bool {
    &&& f.manager() == o.manager()
    &&& only_changed(o.peers(), f.peers(), peer)
    &&& o.peers().contains_key(peer) ==> ({
        let op = o.peers()[peer];
        let s = f.peers()[peer];
        &&& !s.am_choked
        &&& s.bitfield == op.bitfield
        &&& s.current_piece_idx == op.current_piece_idx
        &&& s.in_flight@ == op.in_flight@
        &&& s.remaining_blocks@ == op.remaining_blocks@
    })
}

/// The state after a peer announced piece `piece_index`: its bit is set
/// when it is in range; nothing else changes.
pub open spec fn after_have(o: Engine, f: Engine, peer: u64, piece_index: u32) -> bool {
    &&& f.manager() == o.manager()
    &&& only_changed(o.peers(), f.peers(), peer)
    &&& o.peers().contains_key(peer) ==> ({
        let op = o.peers()[peer];
        let s = f.peers()[peer];
        &&& s.am_choked == op.am_choked
        &&& s.bitfield.bits() == if piece_index < op.bitfield.bits().len() {
            op.bitfield.bits().update(piece_index as int, true)
        } else {
            op.bitfield.bits()
        }
        &&& s.bitfield.pieces() == op.bitfield.pieces()
        &&& s.current_piece_idx == op.current_piece_idx
        &&& s.in_flight@ == op.in_flight@
        &&& s.remaining_blocks@ == op.remaining_blocks@
    })
}

/// The state after a peer sent its bitfield `bits`: those bytes become
/// its bitfield, for the torrent's piece count; nothing else changes.
pub open spec fn after_bitfield(o: Engine, f: Engine, peer: u64, bits: Seq<u8>) -> bool {
    &&& f.manager() == o.manager()
    &&& only_changed(o.peers(), f.peers(), peer)
    &&& o.peers().contains_key(peer) ==> ({
        let op = o.peers()[peer];
        let s = f.peers()[peer];
        &&& s.am_choked == op.am_choked
        &&& s.bitfield.raw() == bits
        &&& s.bitfield.pieces() == info_piece_count(o.info())
        &&& s.current_piece_idx == op.current_piece_idx
        &&& s.in_flight@ == op.in_flight@
        &&& s.remaining_blocks@ == op.remaining_blocks@
    })
}

/// The state after a block at `begin` arrived from a peer: it is no longer
/// in flight, and the piece is done with once nothing is in flight or
/// queued.
pub open spec fn after_block(o: Engine, f: Engine, peer: u64, begin: u32) -> bool {
    &&& f.manager() == o.manager()
    &&& only_changed(o.peers(), f.peers(), peer)
    &&& o.peers().contains_key(peer) ==> ({
        let op = o.peers()[peer];
        let s = f.peers()[peer];
        &&& s.am_choked == op.am_choked
        &&& s.bitfield == op.bitfield
        &&& s.in_flight@ == op.in_flight@.remove(begin)
        &&& s.remaining_blocks@ == op.remaining_blocks@
        &&& s.current_piece_idx == if op.in_flight@.remove(begin).is_empty() && op.remaining_blocks@.len() == 0 {
            None
        } else {
            op.current_piece_idx
        }
    })
}

/// The state after a peer went away: it is forgotten, and the piece it was
/// fetching is released unless already had.
pub open spec fn after_disconnected(o: Engine, f: Engine, peer: u64) -> bool {
    &&& f.peers() == o.peers().remove(peer)
    &&& f.manager().have_bits() == o.manager().have_bits()
    &&& f.manager().have_pieces() == o.manager().have_pieces()
    &&& f.manager().pending() == if o.peers().contains_key(peer) && o.peers()[peer].current_piece_idx is Some {
        let i = o.peers()[peer].current_piece_idx->0;
        if i < o.manager().have_bits().len() && o.manager().have_bits()[i as int] {
            o.manager().pending()
        } else {
            o.manager().pending().remove(i)
        }
    } else {
        o.manager().pending()
    }
}

impl Engine {
    /// The peers' states, by peer.
    pub closed spec fn peers(&self) -> Map<u64, PeerState> {
        self.peer_states@
    }

    /// This side's pieces and claims.
    pub closed spec fn manager(&self) -> PieceManager {
        self.piece_manager
    }

    /// The torrent.
    pub closed spec fn info(&self) -> SpecInfo {
        (*self.info_dictionary)@
    }

    /// The torrent's sizes fit in 64 bits, the piece manager has one bit
    /// per piece, and every peer's state agrees with the torrent.
    pub closed spec fn wf(&self) -> bool {
        &&& layout_length(self.info().layout) <= u64::MAX
        &&& info_piece_count(self.info()) * self.info().piece_length <= u64::MAX
        &&& info_piece_count(self.info()) <= u32::MAX
        &&& self.manager().have_pieces() == info_piece_count(self.info())
        &&& forall|p: u64| #[trigger] self.peers().contains_key(p) ==> peer_ok(self.peers()[p], self.info())
    }

    /// An engine with no peers.
    pub fn new(info_dictionary: Arc<InfoDictionary>, piece_manager: PieceManager) -> (r: Self)
        requires
            layout_length((*info_dictionary)@.layout) <= u64::MAX,
            info_piece_count((*info_dictionary)@) * (*info_dictionary)@.piece_length <= u64::MAX,
            info_piece_count((*info_dictionary)@) <= u32::MAX,
            piece_manager.have_pieces() == info_piece_count((*info_dictionary)@),
        ensures
            r.wf(),
            r.peers() == Map::<u64, PeerState>::empty(),
            r.manager() == piece_manager,
            r.info() == (*info_dictionary)@,
    {
        Self { info_dictionary, peer_states: HashMap::new(), piece_manager }
    }

    /// The length of piece `index`, which is a real piece.
    fn piece_len(&self, index: u32) -> (r: u32)
        requires
            self.wf(),
            index < info_piece_count(self.info()),
        ensures
            r == info_piece_len(self.info(), index),
    {
        proof {
            let pc = info_piece_count(self.info());
            let pl = self.info().piece_length;
            assert(index * pl <= pc * pl) by (nonlinear_arith)
                requires
                    index < pc,
            ;
        }
        self.info_dictionary.piece_len(index)
    }

    /// A peer connected: it starts afresh, replacing any earlier state.
    pub fn handle_connected(&mut self, peer: u64)
        requires
            old(self).wf(),
        ensures
            final(self).wf(),
            final(self).info() == old(self).info(),
            final(self).manager() == old(self).manager(),
            final(self).peers().dom() == old(self).peers().dom().insert(peer),
            forall|p: u64| p != peer && #[trigger] old(self).peers().contains_key(p) ==> final(self).peers()[p] == old(self).peers()[p],
            ({
                let s = final(self).peers()[peer];
                &&& s.bitfield.bits() == Seq::<bool>::empty()
                &&& s.am_choked
                &&& s.current_piece_idx is None
                &&& s.in_flight@ == Set::<u32>::empty()
                &&& s.remaining_blocks@ == Seq::<(u32, u32)>::empty()
            }),
    {
        let state = PeerState::new();
        self.peer_states.insert(peer, state);
        proof {
            assert(self.peer_states@ == old(self).peer_states@.insert(peer, state));
            assert forall|p: u64| #[trigger] self.peers().contains_key(p) implies peer_ok(self.peers()[p], self.info()) by {
                if p != peer {
                    assert(old(self).peers().contains_key(p));
                }
            }
        }
    }

    /// A peer choked us: its requests in flight will not be answered, so
    /// they go back to the front of its queue (as the rest of their piece up
    /// to a block) and nothing is in flight any more.
    pub fn handle_choke(&mut self, peer: u64)
        requires
            old(self).wf(),
        ensures
            final(self).wf(),
            final(self).info() == old(self).info(),
            final(self).manager() == old(self).manager(),
            !old(self).peers().contains_key(peer) ==> final(self).peers() == old(self).peers(),
            old(self).peers().contains_key(peer) ==> {
                let o = old(self).peers()[peer];
                let s = final(self).peers()[peer];
                &&& final(self).peers().dom() == old(self).peers().dom()
                &&& forall|p: u64| p != peer && #[trigger] old(self).peers().contains_key(p) ==> final(self).peers()[p] == old(self).peers()[p]
                &&& s.am_choked
                &&& s.bitfield == o.bitfield
                &&& s.current_piece_idx == o.current_piece_idx
                &&& s.in_flight@ == Set::<u32>::empty()
                &&& exists|order: Seq<u32>| {
                    &&& order.no_duplicates()
                    &&& order.to_set() == o.in_flight@
                    &&& s.remaining_blocks@ == #[trigger] requeue(order, old(self).info(), o.current_piece_idx, o.remaining_blocks@)
                }
            },
    {
        let mut state = match self.peer_states.remove(&peer) {
            Some(s) => s,
            None => return,
        };
        let ghost o = state;
        assert(peer_ok(o, self.info()));
        state.am_choked = true;
        let stale = set_elements(&state.in_flight);
        state.in_flight.clear();
        let ghost order = stale@;
        let mut i: usize = 0;
        assert(order.skip(0) =~= order);
        while i < stale.len()
            invariant
                self.wf(),
                order == stale@,
                order.to_set() == o.in_flight@,
                peer_ok(o, self.info()),
                i <= stale@.len(),
                state.current_piece_idx == o.current_piece_idx,
                state.in_flight@ == Set::<u32>::empty(),
                state.bitfield == o.bitfield,
                state.am_choked,
                requeue(order, self.info(), o.current_piece_idx, o.remaining_blocks@) == requeue(
                    order.skip(i as int),
                    self.info(),
                    o.current_piece_idx,
                    state.remaining_blocks@,
                ),
            decreases stale@.len() - i,
        {
            let begin = stale[i];
            let ghost rest = order.skip(i as int);
            assert(rest[0] == begin);
            assert(rest.drop_first() =~= order.skip(i + 1));
            if let Some(idx) = state.current_piece_idx {
                assert(order.to_set().contains(begin));
                let piece_len = self.piece_len(idx);
                let length = if piece_len - begin < BLOCK_SIZE {
                    piece_len - begin
                } else {
                    BLOCK_SIZE
                };
                state.remaining_blocks.push_front((begin, length));
            }
            i = i + 1;
        }
        assert(order.skip(i as int) =~= Seq::<u32>::empty());
        let ghost before = self.peer_states@;
        let ghost fin = state;
        self.peer_states.insert(peer, state);
        proof {
            assert(before == old(self).peer_states@.remove(peer));
            assert(self.peer_states@ == before.insert(peer, fin));
            assert(self.peer_states@[peer] == fin);
            assert(requeue(order, self.info(), o.current_piece_idx, o.remaining_blocks@) == fin.remaining_blocks@);
            assert(order.no_duplicates() && order.to_set() == o.in_flight@);
            assert(peer_ok(fin, self.info()));
            assert forall|p: u64| #[trigger] self.peers().contains_key(p) implies peer_ok(self.peers()[p], self.info()) by {
                if p != peer {
                    assert(old(self).peers().contains_key(p));
                }
            }
            assert(self.peers().dom() =~= old(self).peers().dom());
        }
    }
}

impl Engine {
    /// Put a peer's state back after changing it.
    fn restore(&mut self, peer: u64, state: PeerState)
        requires
            !old(self).peers().contains_key(peer),
        ensures
            final(self).peers() == old(self).peers().insert(peer, state),
            final(self).info() == old(self).info(),
            final(self).manager() == old(self).manager(),
    {
        self.peer_states.insert(peer, state);
    }

    /// Take a peer's state out to change it.
    fn take(&mut self, peer: u64) -> (r: Option<PeerState>)
        ensures
            final(self).peers() == old(self).peers().remove(peer),
            final(self).info() == old(self).info(),
            final(self).manager() == old(self).manager(),
            match r {
                Some(s) => old(self).peers().contains_key(peer) && s == old(self).peers()[peer],
                None => !old(self).peers().contains_key(peer),
            },
    {
        self.peer_states.remove(&peer)
    }

    /// A peer unchoked us: say whether to fill its pipeline (when it is
    /// known).
    pub fn handle_unchoke(&mut self, peer: u64) -> (populate: bool)
        requires
            old(self).wf(),
        ensures
            final(self).wf(),
            final(self).info() == old(self).info(),
            final(self).manager() == old(self).manager(),
            populate == old(self).peers().contains_key(peer),
            only_changed(old(self).peers(), final(self).peers(), peer),
            populate ==> ({
                let o = old(self).peers()[peer];
                let s = final(self).peers()[peer];
                &&& !s.am_choked
                &&& s.bitfield == o.bitfield
                &&& s.current_piece_idx == o.current_piece_idx
                &&& s.in_flight@ == o.in_flight@
                &&& s.remaining_blocks@ == o.remaining_blocks@
            }),
    {
        match self.take(peer) {
            None => {
                assert(self.peers() =~= old(self).peers());
                false
            },
            Some(mut s) => {
                s.am_choked = false;
                self.restore(peer, s);
                proof {
                    assert(self.peers().dom() =~= old(self).peers().dom());
                    assert forall|p: u64| #[trigger] self.peers().contains_key(p) implies peer_ok(self.peers()[p], self.info()) by {
                        assert(old(self).peers().contains_key(p));
                    }
                }
                true
            },
        }
    }

    /// A peer announced a piece: mark it in the peer's bitfield (a piece
    /// past the bitfield's end is ignored), and say whether to fill its
    /// pipeline: when it is known and has no piece in progress.
    pub fn handle_have(&mut self, peer: u64, piece_index: u32) -> (populate: bool)
        requires
            old(self).wf(),
        ensures
            final(self).wf(),
            final(self).info() == old(self).info(),
            final(self).manager() == old(self).manager(),
            only_changed(old(self).peers(), final(self).peers(), peer),
            populate == (old(self).peers().contains_key(peer) && old(self).peers()[peer].current_piece_idx is None),
            old(self).peers().contains_key(peer) ==> ({
                let o = old(self).peers()[peer];
                let s = final(self).peers()[peer];
                &&& s.am_choked == o.am_choked
                &&& s.bitfield.bits() == if piece_index < o.bitfield.bits().len() {
                    o.bitfield.bits().update(piece_index as int, true)
                } else {
                    o.bitfield.bits()
                }
                &&& s.bitfield.pieces() == o.bitfield.pieces()
                &&& s.current_piece_idx == o.current_piece_idx
                &&& s.in_flight@ == o.in_flight@
                &&& s.remaining_blocks@ == o.remaining_blocks@
            }),
    {
        match self.take(peer) {
            None => {
                assert(self.peers() =~= old(self).peers());
                false
            },
            Some(mut s) => {
                if (piece_index as usize) < s.bitfield.len() {
                    s.bitfield.set(piece_index as usize);
                }
                let populate = s.current_piece_idx.is_none();
                self.restore(peer, s);
                proof {
                    assert(self.peers().dom() =~= old(self).peers().dom());
                    assert forall|p: u64| #[trigger] self.peers().contains_key(p) implies peer_ok(self.peers()[p], self.info()) by {
                        assert(old(self).peers().contains_key(p));
                    }
                }
                populate
            },
        }
    }

    /// A peer sent its bitfield: it replaces what was known, read against
    /// the torrent's piece count; say whether to fill its pipeline (when it
    /// is known).
    pub fn handle_bitfield(&mut self, peer: u64, bits: Vec<u8>) -> (populate: bool)
        requires
            old(self).wf(),
            bits@.len() <= usize::MAX / 64,
        ensures
            final(self).wf(),
            final(self).info() == old(self).info(),
            final(self).manager() == old(self).manager(),
            only_changed(old(self).peers(), final(self).peers(), peer),
            populate == old(self).peers().contains_key(peer),
            populate ==> ({
                let o = old(self).peers()[peer];
                let s = final(self).peers()[peer];
                &&& s.am_choked == o.am_choked
                &&& s.bitfield.raw() == bits@
                &&& s.bitfield.pieces() == info_piece_count(old(self).info())
                &&& s.current_piece_idx == o.current_piece_idx
                &&& s.in_flight@ == o.in_flight@
                &&& s.remaining_blocks@ == o.remaining_blocks@
            }),
    {
        match self.take(peer) {
            None => {
                assert(self.peers() =~= old(self).peers());
                false
            },
            Some(mut s) => {
                s.bitfield = Bitfield::from_bytes(bits, self.info_dictionary.piece_count());
                self.restore(peer, s);
                proof {
                    assert(self.peers().dom() =~= old(self).peers().dom());
                    assert forall|p: u64| #[trigger] self.peers().contains_key(p) implies peer_ok(self.peers()[p], self.info()) by {
                        assert(old(self).peers().contains_key(p));
                    }
                }
                true
            },
        }
    }

    /// A block arrived: it is no longer in flight, and when nothing of the
    /// piece is in flight or left to request, the peer has no piece in
    /// progress.
    pub fn handle_block(&mut self, peer: u64, begin: u32)
        requires
            old(self).wf(),
        ensures
            final(self).wf(),
            final(self).info() == old(self).info(),
            final(self).manager() == old(self).manager(),
            only_changed(old(self).peers(), final(self).peers(), peer),
            old(self).peers().contains_key(peer) ==> ({
                let o = old(self).peers()[peer];
                let s = final(self).peers()[peer];
                &&& s.am_choked == o.am_choked
                &&& s.bitfield == o.bitfield
                &&& s.in_flight@ == o.in_flight@.remove(begin)
                &&& s.remaining_blocks@ == o.remaining_blocks@
                &&& s.current_piece_idx == if o.in_flight@.remove(begin).is_empty() && o.remaining_blocks@.len() == 0 {
                    None
                } else {
                    o.current_piece_idx
                }
            }),
    {
        match self.take(peer) {
            None => {
                assert(self.peers() =~= old(self).peers());
            },
            Some(mut s) => {
                let ghost o = s;
                s.in_flight.remove(&begin);
                if s.in_flight.is_empty() && s.remaining_blocks.len() == 0 {
                    s.current_piece_idx = None;
                }
                proof {
                    assert(peer_ok(o, self.info()));
                }
                self.restore(peer, s);
                proof {
                    assert(self.peers().dom() =~= old(self).peers().dom());
                    assert forall|p: u64| #[trigger] self.peers().contains_key(p) implies peer_ok(self.peers()[p], self.info()) by {
                        assert(old(self).peers().contains_key(p));
                    }
                }
            },
        }
    }

    /// A peer left: forget it, and release the piece it was fetching.
    pub fn handle_disconnected(&mut self, peer: u64)
        requires
            old(self).wf(),
        ensures
            final(self).wf(),
            final(self).info() == old(self).info(),
            final(self).peers() == old(self).peers().remove(peer),
            final(self).manager().have_bits() == old(self).manager().have_bits(),
            final(self).manager().have_pieces() == old(self).manager().have_pieces(),
            final(self).manager().pending() == if old(self).peers().contains_key(peer) && old(self).peers()[peer].current_piece_idx is Some {
                let i = old(self).peers()[peer].current_piece_idx->0;
                if i < old(self).manager().have_bits().len() && old(self).manager().have_bits()[i as int] {
                    old(self).manager().pending()
                } else {
                    old(self).manager().pending().remove(i)
                }
            } else {
                old(self).manager().pending()
            },
    {
        match self.take(peer) {
            None => {},
            Some(s) => {
                if let Some(idx) = s.current_piece_idx {
                    self.piece_manager.release(idx);
                }
            },
        }
        proof {
            assert forall|p: u64| #[trigger] self.peers().contains_key(p) implies peer_ok(self.peers()[p], self.info()) by {
                assert(old(self).peers().contains_key(p));
            }
        }
    }

    /// Start filling a peer's pipeline: a known, unchoked peer with no
    /// piece in progress and nothing queued is given the first piece it can
    /// supply; say whether there is anything to request.
    pub fn begin_pipeline(&mut self, peer: u64) -> (ready: bool)
        requires
            old(self).wf(),
        ensures
            final(self).wf(),
            final(self).info() == old(self).info(),
            only_changed(old(self).peers(), final(self).peers(), peer),
            final(self).manager().have_bits() == old(self).manager().have_bits(),
            final(self).manager().have_pieces() == old(self).manager().have_pieces(),
            !old(self).peers().contains_key(peer) ==> !ready && final(self).manager().pending() == old(self).manager().pending(),
            old(self).peers().contains_key(peer) ==> ({
                let o = old(self).peers()[peer];
                let s = final(self).peers()[peer];
                let claim = first_unclaimed(
                    missing_pieces(old(self).manager().have_bits(), o.bitfield.bits(), old(self).manager().have_pieces() as nat),
                    old(self).manager().pending(),
                );
                &&& s.am_choked == o.am_choked
                &&& s.bitfield == o.bitfield
                &&& if o.am_choked || o.current_piece_idx is Some || o.remaining_blocks@.len() > 0 {
                    &&& ready == !o.am_choked
                    &&& s.current_piece_idx == o.current_piece_idx
                    &&& s.in_flight@ == o.in_flight@
                    &&& s.remaining_blocks@ == o.remaining_blocks@
                    &&& final(self).manager().pending() == old(self).manager().pending()
                } else {
                    match claim {
                        Some(i) => {
                            &&& ready
                            &&& s.current_piece_idx == Some(i as u32)
                            &&& s.in_flight@ == Set::<u32>::empty()
                            &&& s.remaining_blocks@ == spec_blocks(info_piece_len(old(self).info(), i as u32) as nat)
                            &&& final(self).manager().pending() == old(self).manager().pending().insert(i as u32)
                        },
                        None => {
                            &&& !ready
                            &&& s == o
                            &&& final(self).manager().pending() == old(self).manager().pending()
                        },
                    }
                }
            }),
    {
        let mut s = match self.take(peer) {
            Some(s) => s,
            None => {
                assert(self.peers() =~= old(self).peers());
                return false;
            },
        };
        let ghost o = s;
        if s.am_choked {
            self.restore(peer, s);
            proof {
                assert(self.peers() =~= old(self).peers());
            }
            return false;
        }
        if s.current_piece_idx.is_none() && s.remaining_blocks.len() == 0 {
            let claim = self.piece_manager.claim_piece(&s.bitfield);
            match claim {
                Some(idx) => {
                    proof {
                        let cand = missing_pieces(old(self).manager().have_bits(), o.bitfield.bits(), old(self).manager().have_pieces() as nat);
                        lemma_missing_pieces(old(self).manager().have_bits(), o.bitfield.bits(), old(self).manager().have_pieces() as nat);
                        lemma_first_unclaimed(cand, old(self).manager().pending());
                        let i = first_unclaimed(cand, old(self).manager().pending())->0;
                        let k = choose|k: int| 0 <= k < cand.len() && cand[k] == i;
                        assert(cand[k] < old(self).manager().have_pieces());
                    }
                    s.in_flight.clear();
                    s.current_piece_idx = Some(idx);
                    let plen = self.piece_len(idx);
                    s.remaining_blocks = populate_remaining_blocks(plen);
                },
                None => {
                    self.restore(peer, s);
                    proof {
                        assert(self.peers() =~= old(self).peers());
                    }
                    return false;
                },
            }
        }
        self.restore(peer, s);
        proof {
            assert(self.peers().dom() =~= old(self).peers().dom());
            assert forall|p: u64| #[trigger] self.peers().contains_key(p) implies peer_ok(self.peers()[p], self.info()) by {
                assert(old(self).peers().contains_key(p));
            }
        }
        true
    }

    /// The next request for a peer's pipeline, if it has room: the front
    /// of its queue, for its current piece. A block taken from the queue
    /// when no piece is in progress is dropped.
    pub fn next_request(&mut self, peer: u64) -> (r: Option<PeerCommand>)
        requires
            old(self).wf(),
        ensures
            final(self).wf(),
            final(self).info() == old(self).info(),
            final(self).manager() == old(self).manager(),
            only_changed(old(self).peers(), final(self).peers(), peer),
            !old(self).peers().contains_key(peer) ==> r is None,
            old(self).peers().contains_key(peer) ==> ({
                let o = old(self).peers()[peer];
                let s = final(self).peers()[peer];
                &&& s.am_choked == o.am_choked
                &&& s.bitfield == o.bitfield
                &&& s.current_piece_idx == o.current_piece_idx
                &&& s.in_flight@ == o.in_flight@
                &&& if o.in_flight@.len() >= MAX_REQUEST_PIPELINE || o.remaining_blocks@.len() == 0 {
                    r is None && s.remaining_blocks@ == o.remaining_blocks@
                } else {
                    &&& s.remaining_blocks@ == o.remaining_blocks@.drop_first()
                    &&& r == match o.current_piece_idx {
                        Some(index) => Some(
                            PeerCommand::Request {
                                index,
                                begin: o.remaining_blocks@[0].0,
                                length: o.remaining_blocks@[0].1,
                            },
                        ),
                        None => None,
                    }
                }
            }),
    {
        let mut s = match self.take(peer) {
            Some(s) => s,
            None => {
                assert(self.peers() =~= old(self).peers());
                return None;
            },
        };
        let ghost o = s;
        let r = if s.in_flight.len() >= MAX_REQUEST_PIPELINE {
            None
        } else {
            match s.remaining_blocks.pop_front() {
                None => None,
                Some((begin, length)) => match s.current_piece_idx {
                    Some(index) => Some(PeerCommand::Request { index, begin, length }),
                    None => None,
                },
            }
        };
        proof {
            assert(peer_ok(o, self.info()));
            if o.remaining_blocks@.len() > 0 && o.in_flight@.len() < MAX_REQUEST_PIPELINE {
                assert(s.remaining_blocks@ =~= o.remaining_blocks@.drop_first());
            }
        }
        self.restore(peer, s);
        proof {
            assert(self.peers().dom() =~= old(self).peers().dom());
            assert forall|p: u64| #[trigger] self.peers().contains_key(p) implies peer_ok(self.peers()[p], self.info()) by {
                assert(old(self).peers().contains_key(p));
            }
        }
        r
    }

    /// A request was sent: its block is now in flight. An offset outside
    /// the peer's current piece, which [`Engine::next_request`] never hands
    /// out, is not recorded.
    pub fn request_sent(&mut self, peer: u64, begin: u32)
        requires
            old(self).wf(),
        ensures
            final(self).wf(),
            final(self).info() == old(self).info(),
            final(self).manager() == old(self).manager(),
            only_changed(old(self).peers(), final(self).peers(), peer),
            old(self).peers().contains_key(peer) ==> ({
                let o = old(self).peers()[peer];
                let s = final(self).peers()[peer];
                &&& s.am_choked == o.am_choked
                &&& s.bitfield == o.bitfield
                &&& s.current_piece_idx == o.current_piece_idx
                &&& s.remaining_blocks@ == o.remaining_blocks@
                &&& s.in_flight@ == match o.current_piece_idx {
                    Some(i) => if begin <= info_piece_len(old(self).info(), i) {
                        o.in_flight@.insert(begin)
                    } else {
                        o.in_flight@
                    },
                    None => o.in_flight@,
                }
            }),
    {
        let mut s = match self.take(peer) {
            Some(s) => s,
            None => {
                assert(self.peers() =~= old(self).peers());
                return;
            },
        };
        let ghost o = s;
        proof {
            assert(peer_ok(o, self.info()));
        }
        if let Some(i) = s.current_piece_idx {
            if begin <= self.piece_len(i) {
                s.in_flight.insert(begin);
            }
        }
        self.restore(peer, s);
        proof {
            assert(self.peers().dom() =~= old(self).peers().dom());
            assert forall|p: u64| #[trigger] self.peers().contains_key(p) implies peer_ok(self.peers()[p], self.info()) by {
                assert(old(self).peers().contains_key(p));
            }
        }
    }

    /// The disk checked a piece: a verified one is had, a failed one is
    /// released to be fetched again.
    pub fn handle_disk_event(&mut self, disk_event: DiskEvent)
        requires
            old(self).wf(),
        ensures
            final(self).wf(),
            final(self).info() == old(self).info(),
            final(self).peers() == old(self).peers(),
            final(self).manager().have_pieces() == old(self).manager().have_pieces(),
            match disk_event {
                DiskEvent::PieceVerified(i) => {
                    &&& final(self).manager().have_bits() == if i < old(self).manager().have_bits().len() {
                        old(self).manager().have_bits().update(i as int, true)
                    } else {
                        old(self).manager().have_bits()
                    }
                    &&& final(self).manager().pending() == old(self).manager().pending().remove(i)
                },
                DiskEvent::PieceFailed(i) => {
                    &&& final(self).manager().have_bits() == old(self).manager().have_bits()
                    &&& final(self).manager().pending() == if i < old(self).manager().have_bits().len() && old(self).manager().have_bits()[i as int] {
                        old(self).manager().pending()
                    } else {
                        old(self).manager().pending().remove(i)
                    }
                },
            },
    {
        match disk_event {
            DiskEvent::PieceVerified(index) => self.piece_manager.mark_have(index),
            DiskEvent::PieceFailed(index) => self.piece_manager.release(index),
        }
        proof {
            assert forall|p: u64| #[trigger] self.peers().contains_key(p) implies peer_ok(self.peers()[p], self.info()) by {
                assert(old(self).peers().contains_key(p));
            }
        }
    }

    /// Whether every piece is had: the download is done.
    pub fn is_complete(&self) -> (r: bool)
        ensures
            r == (count_set(self.manager().have_bits()) == self.manager().have_bits().len()),
    {
        self.piece_manager.is_complete()
    }

    /// Whether at most five pieces are still missing.
    pub fn is_endgame(&self) -> (r: bool)
        ensures
            r == (self.manager().have_bits().len() - count_set(self.manager().have_bits()) <= 5),
    {
        self.piece_manager.have().count_zeros() <= 5
    }

    /// Drop every peer's piece in progress, its requests in flight and its
    /// queue.
    pub fn endgame_mode(&mut self)
        requires
            old(self).wf(),
        ensures
            final(self).wf(),
            final(self).info() == old(self).info(),
            final(self).manager() == old(self).manager(),
            final(self).peers().dom() == old(self).peers().dom(),
            forall|p: u64| #[trigger] old(self).peers().contains_key(p) ==> {
                let o = old(self).peers()[p];
                let s = final(self).peers()[p];
                &&& s.am_choked == o.am_choked
                &&& s.bitfield == o.bitfield
                &&& s.current_piece_idx is None
                &&& s.in_flight@ == Set::<u32>::empty()
                &&& s.remaining_blocks@ == Seq::<(u32, u32)>::empty()
            },
    {
        let keys = map_keys(&self.peer_states);
        let mut i: usize = 0;
        while i < keys.len()
            invariant
                self.wf(),
                self.info() == old(self).info(),
                self.manager() == old(self).manager(),
                self.peers().dom() == old(self).peers().dom(),
                keys@.to_set() == old(self).peers().dom(),
                keys@.no_duplicates(),
                i <= keys@.len(),
                forall|p: u64| #[trigger] old(self).peers().contains_key(p) ==> {
                    let o = old(self).peers()[p];
                    let s = self.peers()[p];
                    &&& s.am_choked == o.am_choked
                    &&& s.bitfield == o.bitfield
                    &&& (keys@.take(i as int).contains(p) ==> {
                        &&& s.current_piece_idx is None
                        &&& s.in_flight@ == Set::<u32>::empty()
                        &&& s.remaining_blocks@ == Seq::<(u32, u32)>::empty()
                    })
                    &&& (!keys@.take(i as int).contains(p) ==> s == o)
                },
            decreases keys@.len() - i,
        {
            let k = keys[i];
            assert(keys@.to_set().contains(k));
            let ghost mid = self.peers();
            match self.take(k) {
                Some(mut s) => {
                    s.in_flight.clear();
                    s.current_piece_idx = None;
                    s.remaining_blocks.clear();
                    self.restore(k, s);
                },
                None => {},
            }
            proof {
                assert(self.peers().dom() =~= old(self).peers().dom());
                assert forall|p: u64| #[trigger] old(self).peers().contains_key(p) implies ({
                    let o = old(self).peers()[p];
                    let s = self.peers()[p];
                    &&& s.am_choked == o.am_choked
                    &&& s.bitfield == o.bitfield
                    &&& (keys@.take(i + 1).contains(p) ==> {
                        &&& s.current_piece_idx is None
                        &&& s.in_flight@ == Set::<u32>::empty()
                        &&& s.remaining_blocks@ == Seq::<(u32, u32)>::empty()
                    })
                    &&& (!keys@.take(i + 1).contains(p) ==> s == o)
                }) by {
                    assert(keys@.take(i + 1) =~= keys@.take(i as int).push(k));
                    if p != k {
                        assert(keys@.take(i + 1).contains(p) == keys@.take(i as int).contains(p));
                    } else {
                        assert(keys@.take(i + 1)[i as int] == k);
                        if keys@.take(i as int).contains(k) {
                            let j = choose|j: int| 0 <= j < i && keys@.take(i as int)[j] == k;
                            assert(keys@[j] == keys@[i as int]);
                        }
                    }
                }
                assert forall|p: u64| #[trigger] self.peers().contains_key(p) implies peer_ok(self.peers()[p], self.info()) by {
                    assert(mid.contains_key(p));
                }
            }
            i = i + 1;
        }
        proof {
            assert forall|p: u64| #[trigger] old(self).peers().contains_key(p) implies keys@.take(i as int).contains(p) by {
                assert(keys@.take(i as int) =~= keys@);
                assert(keys@.to_set().contains(p));
            }
        }
    }

    /// Hand an event from `peer` to the engine.
    pub fn handle_peer_event(&mut self, peer: u64, event: PeerEvent) -> (step: EngineStep)
        requires
            old(self).wf(),
            event matches PeerEvent::Bitfield(b) ==> b@.len() <= usize::MAX / 64,
        ensures
            final(self).wf(),
            final(self).info() == old(self).info(),
            match event {
                PeerEvent::Connected => after_connected(*old(self), *final(self), peer),
                PeerEvent::Choke => after_choke(*old(self), *final(self), peer),
                PeerEvent::Unchoke => after_unchoke(*old(self), *final(self), peer),
                PeerEvent::Have(i) => after_have(*old(self), *final(self), peer, i),
                PeerEvent::Bitfield(b) => after_bitfield(*old(self), *final(self), peer, b@),
                PeerEvent::Block { begin, .. } => after_block(*old(self), *final(self), peer, begin),
                PeerEvent::Disconnected => after_disconnected(*old(self), *final(self), peer),
            },
            match event {
                PeerEvent::Block { piece_index, begin, data } => step.store matches Some(b) && b.index == piece_index
                    && b.begin == begin && b.data@ == data@ && step.populate,
                PeerEvent::Unchoke => step.store is None && step.populate == old(self).peers().contains_key(peer),
                PeerEvent::Bitfield(_) => step.store is None && step.populate == old(self).peers().contains_key(peer),
                PeerEvent::Have(_) => step.store is None && step.populate == (old(self).peers().contains_key(peer)
                    && old(self).peers()[peer].current_piece_idx is None),
                _ => step.store is None && !step.populate,
            },
    {
        match event {
            PeerEvent::Connected => {
                self.handle_connected(peer);
                EngineStep { store: None, populate: false }
            },
            PeerEvent::Choke => {
                self.handle_choke(peer);
                EngineStep { store: None, populate: false }
            },
            PeerEvent::Unchoke => {
                let populate = self.handle_unchoke(peer);
                EngineStep { store: None, populate }
            },
            PeerEvent::Have(piece_index) => {
                let populate = self.handle_have(peer, piece_index);
                EngineStep { store: None, populate }
            },
            PeerEvent::Bitfield(bits) => {
                let populate = self.handle_bitfield(peer, bits);
                EngineStep { store: None, populate }
            },
            PeerEvent::Block { piece_index, begin, data } => {
                self.handle_block(peer, begin);
                EngineStep { store: Some(Block { index: piece_index, begin, data }), populate: true }
            },
            PeerEvent::Disconnected => {
                self.handle_disconnected(peer);
                EngineStep { store: None, populate: false }
            },
        }
    }
}

} // verus!
