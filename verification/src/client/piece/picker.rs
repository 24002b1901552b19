//! How widely each piece is available among the peers, and the pieces
//! being fetched.

use std::collections::{HashMap, HashSet};

use vstd::prelude::*;

use crate::client::peer::bitfield::Bitfield;
use crate::client::piece::in_progress::{cancelled, InProgress};

verus! {

broadcast use vstd::std_specs::hash::group_hash_axioms;

/// Whether the bits `bits` hold a set bit for piece `i`.
pub open spec fn has_piece(bits: Seq<bool>, i: int) -> bool {
    0 <= i < bits.len() && bits[i]
}

/// `b` is `a` with its unanswered requests withdrawn.
pub open spec fn cancel_of(a: InProgress, b: InProgress) -> bool {
    &&& b.wf()
    &&& b.piece_length() == a.piece_length()
    &&& b.blocks() == a.blocks()
    &&& b.requested() == cancelled(a.blocks(), a.requested())
}

/// Picks pieces by availability.
#[derive(Debug)]
pub struct PiecePicker {
    /// The pieces this side has.
    pub our_bitfield: Bitfield,
    availability: Vec<u32>,
    piece_count: usize,
    in_progress: HashMap<usize, InProgress>,
}

/// The elements of a set, each once.
fn index_elements(set: &HashSet<usize>) -> (r: Vec<usize>)
    ensures
        r@.no_duplicates(),
        r@.to_set() == set@,
{
    let mut out: Vec<usize> = Vec::new();
    for b in it: set.iter()
        invariant
            out@ == it.seq().take(it.index() as int).unref(),
            it.seq().unref().to_set() == set@,
            it.seq().unref().no_duplicates(),
            it.index() <= it.seq().len(),
            it.index() == it.seq().len() ==> out@ == it.seq().unref(),
    {
        assert(it.seq().take(it.index() + 1).unref() =~= it.seq().take(it.index() as int).unref().push(*b));
        out.push(*b);
    }
    assert(out@.to_set() =~= set@);
    out
}

impl PiecePicker {
    /// This side's bitfield.
    pub closed spec fn ours(self) -> Bitfield {
        self.our_bitfield
    }

    /// For each piece, how many peers are known to have it.
    pub closed spec fn availability(self) -> Seq<u32> {
        self.availability@
    }

    /// How many pieces the torrent has.
    pub closed spec fn pieces(self) -> usize {
        self.piece_count
    }

    /// The pieces being fetched.
    pub closed spec fn in_progress(self) -> Map<usize, InProgress> {
        self.in_progress@
    }

    /// One count per piece, and every piece being fetched is well formed.
    pub closed spec fn wf(self) -> bool {
        &&& self.availability@.len() == self.piece_count
        &&& forall|k: usize| #[trigger] self.in_progress@.contains_key(k) ==> self.in_progress@[k].wf()
    }

    /// A picker for the pieces of `our_bitfield`, with no peer counted yet.
    pub fn new(our_bitfield: Bitfield) -> (r: Self)
        ensures
            r.wf(),
            r.ours() == our_bitfield,
            r.pieces() == our_bitfield.pieces(),
            r.availability() == Seq::new(our_bitfield.pieces() as nat, |i: int| 0u32),
            r.in_progress() == Map::<usize, InProgress>::empty(),
    {
        let piece_count = our_bitfield.piece_count();
        let mut availability: Vec<u32> = Vec::new();
        let mut i: usize = 0;
        while i < piece_count
            invariant
                i <= piece_count,
                availability@ == Seq::new(i as nat, |j: int| 0u32),
            decreases piece_count - i,
        {
            availability.push(0);
            i = i + 1;
            assert(availability@ =~= Seq::new(i as nat, |j: int| 0u32));
        }
        let r = Self { our_bitfield, availability, piece_count, in_progress: HashMap::new() };
        assert(r.in_progress() =~= Map::<usize, InProgress>::empty());
        r
    }

    /// Count one more peer for each piece `peer_bitfield` has.
    pub fn register_peer_bitfield(&mut self, peer_bitfield: &Bitfield)
        requires
            old(self).wf(),
            forall|i: int|
                0 <= i < old(self).pieces() && has_piece(peer_bitfield.bits(), i)
                    ==> #[trigger] old(self).availability()[i] < u32::MAX,
        ensures
            final(self).wf(),
            final(self).ours() == old(self).ours(),
            final(self).pieces() == old(self).pieces(),
            final(self).in_progress() == old(self).in_progress(),
            final(self).availability() == Seq::new(
                old(self).pieces() as nat,
                |i: int|
                    if has_piece(peer_bitfield.bits(), i) {
                        (old(self).availability()[i] + 1) as u32
                    } else {
                        old(self).availability()[i]
                    },
            ),
    {
        let ghost before = self.availability@;
        let n = self.piece_count;
        let mut index: usize = 0;
        while index < n
            invariant
                n == self.piece_count,
                n == old(self).pieces(),
                index <= n,
                self.wf(),
                before == old(self).availability(),
                before.len() == n,
                self.our_bitfield == old(self).ours(),
                self.in_progress@ == old(self).in_progress(),
                forall|i: int|
                    0 <= i < n && has_piece(peer_bitfield.bits(), i) ==> #[trigger] old(self).availability()[i] < u32::MAX,
                forall|j: int|
                    0 <= j < index ==> self.availability@[j] == if has_piece(peer_bitfield.bits(), j) {
                        (before[j] + 1) as u32
                    } else {
                        before[j]
                    },
                forall|j: int| index <= j < n ==> self.availability@[j] == before[j],
            decreases n - index,
        {
            assert(self.availability@[index as int] == before[index as int]);
            if peer_bitfield.has(index) {
                assert(has_piece(peer_bitfield.bits(), index as int));
                let count = self.availability[index] + 1;
                self.availability.set(index, count);
            }
            index = index + 1;
        }
        assert(self.availability@ =~= Seq::new(
            n as nat,
            |i: int|
                if has_piece(peer_bitfield.bits(), i) {
                    (before[i] + 1) as u32
                } else {
                    before[i]
                },
        ));
    }

    /// Withdraw the unanswered requests of each listed piece being fetched;
    /// other pieces, and listed ones not being fetched, stay as they are.
    pub fn cancel_peer_requests(&mut self, piece_indexes: HashSet<usize>)
        requires
            old(self).wf(),
        ensures
            final(self).wf(),
            final(self).ours() == old(self).ours(),
            final(self).pieces() == old(self).pieces(),
            final(self).availability() == old(self).availability(),
            final(self).in_progress().dom() == old(self).in_progress().dom(),
            forall|k: usize|
                #[trigger] old(self).in_progress().contains_key(k) ==> if piece_indexes@.contains(k) {
                    cancel_of(old(self).in_progress()[k], final(self).in_progress()[k])
                } else {
                    final(self).in_progress()[k] == old(self).in_progress()[k]
                },
    {
        let ghost before = self.in_progress@;
        let indexes = index_elements(&piece_indexes);
        let n = indexes.len();
        let mut i: usize = 0;
        while i < n
            invariant
                n == indexes@.len(),
                i <= n,
                indexes@.no_duplicates(),
                indexes@.to_set() == piece_indexes@,
                self.wf(),
                before == old(self).in_progress(),
                self.our_bitfield == old(self).ours(),
                self.piece_count == old(self).pieces(),
                self.availability@ == old(self).availability(),
                self.in_progress@.dom() == before.dom(),
                forall|k: usize|
                    #[trigger] before.contains_key(k) ==> if indexes@.take(i as int).contains(k) {
                        cancel_of(before[k], self.in_progress@[k])
                    } else {
                        self.in_progress@[k] == before[k]
                    },
            decreases n - i,
        {
            let index = indexes[i];
            let ghost done = indexes@.take(i as int);
            assert(!done.contains(index)) by {
                if done.contains(index) {
                    let j = choose|j: int| 0 <= j < done.len() && done[j] == index;
                    assert(indexes@[j] == indexes@[i as int]);
                }
            }
            assert(indexes@.take(i + 1) =~= done.push(index));
            let ghost cur = self.in_progress@;
            match self.in_progress.remove(&index) {
                Some(mut entry) => {
                    assert(entry == cur[index]);
                    entry.cancel_unfinished();
                    self.in_progress.insert(index, entry);
                    assert(self.in_progress@ == cur.insert(index, entry));
                },
                None => {
                    assert(self.in_progress@ == cur);
                },
            }
            assert(self.in_progress@.dom() =~= before.dom());
            assert forall|k: usize| #[trigger] before.contains_key(k) implies (if indexes@.take(i + 1).contains(k) {
                cancel_of(before[k], self.in_progress@[k])
            } else {
                self.in_progress@[k] == before[k]
            }) by {
                assert(indexes@.take(i + 1).contains(k) == (done.contains(k) || k == index)) by {
                    if k == index {
                        assert(done.push(index)[done.len() as int] == index);
                    }
                    if done.contains(k) {
                        let j = choose|j: int| 0 <= j < done.len() && done[j] == k;
                        assert(done.push(index)[j] == k);
                    }
                }
            }
            i = i + 1;
        }
        assert forall|k: usize| #[trigger] before.contains_key(k) implies (if piece_indexes@.contains(k) {
            cancel_of(before[k], self.in_progress@[k])
        } else {
            self.in_progress@[k] == before[k]
        }) by {
            assert(indexes@.take(n as int) =~= indexes@);
            assert(piece_indexes@.contains(k) <==> indexes@.contains(k));
        }
    }
}

} // verus!
