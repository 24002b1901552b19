//! The set of peers to talk to: addresses heard of, connections being
//! made, and connected peers, kept near a target count.
//!
//! The swarm decides; the caller connects. Each event goes to
//! [`Swarm::handle_event`], which answers with the addresses to connect to.

use std::collections::{HashSet, VecDeque};

use vstd::prelude::*;

use crate::client::tracker::response::PeerAddress;

verus! {

broadcast use vstd::std_specs::hash::group_hash_axioms;

/// How many peers the swarm tries to keep, connected or connecting.
pub const TARGET_PEERS: usize = 50;

/// What happened to the swarm.
#[derive(Debug)]
pub enum SwarmEvent {
    /// A tracker handed out these addresses.
    NewCandidates(Vec<PeerAddress>),
    /// A connected peer went away.
    PeerDisconnected(PeerAddress),
    /// Stop connecting to anyone.
    Shutdown,
}

/// An address as one number: its four address bytes, then its port.
pub open spec fn key_of(a: PeerAddress) -> u64 {
    ((((a.ip@[0] as int * 256 + a.ip@[1] as int) * 256 + a.ip@[2] as int) * 256 + a.ip@[3] as int)
        * 65536 + a.port as int) as u64
}

/// The addresses `cs` added to a swarm that has seen `checked` and queued
/// `queue`: each address never seen before is queued once, in order.
pub open spec fn add_all(checked: Set<u64>, queue: Seq<PeerAddress>, cs: Seq<PeerAddress>) -> (
    Set<u64>,
    Seq<PeerAddress>,
)
    decreases cs.len(),
{
    if cs.len() == 0 {
        (checked, queue)
    } else {
        let (ch, q) = add_all(checked, queue, cs.drop_last());
        let k = key_of(cs.last());
        if ch.contains(k) {
            (ch, q)
        } else {
            (ch.insert(k), q.push(cs.last()))
        }
    }
}

/// Take up to `want` addresses off the front of `queue`: each one neither
/// connected nor already connecting becomes a connection to make. Gives the
/// queue left, the connections being made, and the new ones in order.
pub open spec fn fill(queue: Seq<PeerAddress>, pending: Set<u64>, actives: Set<u64>, want: nat) -> (
    Seq<PeerAddress>,
    Set<u64>,
    Seq<PeerAddress>,
)
    decreases want,
{
    if want == 0 || queue.len() == 0 {
        (queue, pending, Seq::empty())
    } else {
        let a = queue[0];
        let k = key_of(a);
        if actives.contains(k) || pending.contains(k) {
            fill(queue.drop_first(), pending, actives, (want - 1) as nat)
        } else {
            let (q, p, out) = fill(queue.drop_first(), pending.insert(k), actives, (want - 1) as nat);
            (q, p, seq![a] + out)
        }
    }
}

/// How many more connections to start: the target less those connected
/// and connecting, or none when that many or more exist.
pub open spec fn slots_wanted(pending: nat, actives: nat) -> nat {
    if pending + actives >= TARGET_PEERS {
        0
    } else {
        (TARGET_PEERS - pending - actives) as nat
    }
}

/// The peers of a torrent and the connections to them.
#[derive(Debug)]
pub struct Swarm {
    candidates: VecDeque<PeerAddress>,
    actives: HashSet<u64>,
    checked: HashSet<u64>,
    pending: HashSet<u64>,
    shutdown: bool,
}

/// The number that stands for an address.
pub fn address_key(a: &PeerAddress) -> (k: u64)
    ensures
        k == key_of(*a),
{
    (((((a.ip[0] as u64) * 256 + a.ip[1] as u64) * 256 + a.ip[2] as u64) * 256 + a.ip[3] as u64)
        * 65536 + a.port as u64)
}

impl Swarm {
    /// Addresses heard of and not yet tried, oldest first.
    pub closed spec fn queue(self) -> Seq<PeerAddress> {
        self.candidates@
    }

    /// The connected peers.
    pub closed spec fn actives(self) -> Set<u64> {
        self.actives@
    }

    /// Every address ever heard of.
    pub closed spec fn checked(self) -> Set<u64> {
        self.checked@
    }

    /// The connections being made.
    pub closed spec fn pending(self) -> Set<u64> {
        self.pending@
    }

    /// Whether the swarm stopped connecting.
    pub closed spec fn is_shutdown(self) -> bool {
        self.shutdown
    }

    /// A swarm with no peers.
    pub fn new() -> (r: Self)
        ensures
            r.queue() == Seq::<PeerAddress>::empty(),
            r.actives() == Set::<u64>::empty(),
            r.checked() == Set::<u64>::empty(),
            r.pending() == Set::<u64>::empty(),
            !r.is_shutdown(),
    {
        Self {
            candidates: VecDeque::new(),
            actives: HashSet::new(),
            checked: HashSet::new(),
            pending: HashSet::new(),
            shutdown: false,
        }
    }

    /// Queue each address not heard of before.
    pub fn add_candidates(&mut self, candidates: Vec<PeerAddress>)
        ensures
            (final(self).checked(), final(self).queue()) == add_all(
                old(self).checked(),
                old(self).queue(),
                candidates@,
            ),
            final(self).actives() == old(self).actives(),
            final(self).pending() == old(self).pending(),
            final(self).is_shutdown() == old(self).is_shutdown(),
    {
        let n = candidates.len();
        let mut i: usize = 0;
        assert(candidates@.take(0) =~= Seq::<PeerAddress>::empty());
        while i < n
            invariant
                n == candidates@.len(),
                i <= n,
                (self.checked@, self.candidates@) == add_all(
                    old(self).checked(),
                    old(self).queue(),
                    candidates@.take(i as int),
                ),
                self.actives@ == old(self).actives(),
                self.pending@ == old(self).pending(),
                self.shutdown == old(self).is_shutdown(),
            decreases n - i,
        {
            let candidate = candidates[i];
            let key = address_key(&candidate);
            assert(candidates@.take(i + 1).drop_last() =~= candidates@.take(i as int));
            if self.checked.insert(key) {
                self.candidates.push_back(candidate);
            }
            i = i + 1;
        }
        assert(candidates@.take(n as int) =~= candidates@);
    }

    /// Start connections from the front of the queue until the target is
    /// reached or the queue runs out; addresses already connected or
    /// connecting are dropped without taking a slot of their own, but each
    /// one looked at counts against the number wanted. Nothing happens
    /// once the swarm is shut down. Gives the addresses to connect to.
    pub fn fill_slots(&mut self) -> (connect: Vec<PeerAddress>)
        ensures
            final(self).actives() == old(self).actives(),
            final(self).checked() == old(self).checked(),
            final(self).is_shutdown() == old(self).is_shutdown(),
            if old(self).is_shutdown() {
                &&& final(self).queue() == old(self).queue()
                &&& final(self).pending() == old(self).pending()
                &&& connect@ == Seq::<PeerAddress>::empty()
            } else {
                (final(self).queue(), final(self).pending(), connect@) == fill(
                    old(self).queue(),
                    old(self).pending(),
                    old(self).actives(),
                    slots_wanted(old(self).pending().len(), old(self).actives().len()),
                )
            },
    {
        let mut connect: Vec<PeerAddress> = Vec::new();
        if self.shutdown {
            return connect;
        }
        let pending_count = self.pending.len();
        let active_count = self.actives.len();
        let want: usize = if pending_count >= TARGET_PEERS {
            0
        } else if TARGET_PEERS - pending_count <= active_count {
            0
        } else {
            TARGET_PEERS - pending_count - active_count
        };
        let ghost total = fill(
            old(self).queue(),
            old(self).pending(),
            old(self).actives(),
            want as nat,
        );
        let mut i: usize = 0;
        while i < want
            invariant_except_break
                i <= want,
                self.actives@ == old(self).actives(),
                self.checked@ == old(self).checked(),
                self.shutdown == old(self).is_shutdown(),
                total == ({
                    let (q, p, out) = fill(self.candidates@, self.pending@, self.actives@, (want - i) as nat);
                    (q, p, connect@ + out)
                }),
            ensures
                self.actives@ == old(self).actives(),
                self.checked@ == old(self).checked(),
                self.shutdown == old(self).is_shutdown(),
                total == (self.candidates@, self.pending@, connect@),
            decreases want - i,
        {
            let ghost q0 = self.candidates@;
            let ghost c0 = connect@;
            let addr = match self.candidates.pop_front() {
                Some(a) => a,
                None => {
                    assert(c0 + Seq::<PeerAddress>::empty() =~= c0);
                    break;
                },
            };
            assert(q0.drop_first() =~= self.candidates@);
            let key = address_key(&addr);
            if !(self.actives.contains(&key) || self.pending.contains(&key)) {
                self.pending.insert(key);
                connect.push(addr);
                let ghost rest = fill(self.candidates@, self.pending@, self.actives@, (want - i - 1) as nat);
                assert(c0 + (seq![addr] + rest.2) =~= connect@ + rest.2);
            }
            i = i + 1;
        }
        proof {
            if i == want {
                assert(connect@ + Seq::<PeerAddress>::empty() =~= connect@);
            }
        }
        connect
    }

    /// Apply an event: new addresses are queued; a disconnected peer frees
    /// its slot, which is filled at once; a shutdown stops connecting.
    /// Gives the addresses to connect to.
    pub fn handle_event(&mut self, event: SwarmEvent) -> (connect: Vec<PeerAddress>)
        ensures
            match event {
                SwarmEvent::NewCandidates(cs) => {
                    &&& (final(self).checked(), final(self).queue()) == add_all(
                        old(self).checked(),
                        old(self).queue(),
                        cs@,
                    )
                    &&& final(self).actives() == old(self).actives()
                    &&& final(self).pending() == old(self).pending()
                    &&& final(self).is_shutdown() == old(self).is_shutdown()
                    &&& connect@ == Seq::<PeerAddress>::empty()
                },
                SwarmEvent::PeerDisconnected(a) => {
                    let actives = old(self).actives().remove(key_of(a));
                    &&& final(self).actives() == actives
                    &&& final(self).checked() == old(self).checked()
                    &&& final(self).is_shutdown() == old(self).is_shutdown()
                    &&& if old(self).is_shutdown() {
                        &&& final(self).queue() == old(self).queue()
                        &&& final(self).pending() == old(self).pending()
                        &&& connect@ == Seq::<PeerAddress>::empty()
                    } else {
                        (final(self).queue(), final(self).pending(), connect@) == fill(
                            old(self).queue(),
                            old(self).pending(),
                            actives,
                            slots_wanted(old(self).pending().len(), actives.len()),
                        )
                    }
                },
                SwarmEvent::Shutdown => {
                    &&& final(self).queue() == old(self).queue()
                    &&& final(self).actives() == old(self).actives()
                    &&& final(self).checked() == old(self).checked()
                    &&& final(self).pending() == old(self).pending()
                    &&& final(self).is_shutdown()
                    &&& connect@ == Seq::<PeerAddress>::empty()
                },
            },
    {
        match event {
            SwarmEvent::NewCandidates(candidates) => {
                self.add_candidates(candidates);
                Vec::new()
            },
            SwarmEvent::PeerDisconnected(addr) => {
                let key = address_key(&addr);
                self.actives.remove(&key);
                self.fill_slots()
            },
            SwarmEvent::Shutdown => {
                self.shutdown = true;
                Vec::new()
            },
        }
    }
}

/// No two addresses of `q` are the same.
pub open spec fn keys_distinct(q: Seq<PeerAddress>) -> bool {
    forall|i: int, j: int| 0 <= i < j < q.len() ==> key_of(#[trigger] q[i]) != key_of(#[trigger] q[j])
}

/// Every address of `q` is in `keys`.
pub open spec fn keys_within(q: Seq<PeerAddress>, keys: Set<u64>) -> bool {
    forall|i: int| 0 <= i < q.len() ==> keys.contains(key_of(#[trigger] q[i]))
}

/// Adding candidates queues each address at most once, ever: when every
/// queued address was heard of and none is queued twice, that stays so,
/// the addresses heard of only grow, and the old queue keeps its order in
/// front.
pub proof fn law_candidates_queued_once(checked: Set<u64>, queue: Seq<PeerAddress>, cs: Seq<PeerAddress>)
    requires
        keys_distinct(queue),
        keys_within(queue, checked),
    ensures
        ({
            let (ch, q) = add_all(checked, queue, cs);
            &&& keys_distinct(q)
            &&& keys_within(q, ch)
            &&& checked.subset_of(ch)
            &&& queue.len() <= q.len()
            &&& q.subrange(0, queue.len() as int) == queue
        }),
    decreases cs.len(),
{
    if cs.len() > 0 {
        law_candidates_queued_once(checked, queue, cs.drop_last());
        let (ch, q) = add_all(checked, queue, cs.drop_last());
        let k = key_of(cs.last());
        if !ch.contains(k) {
            let q2 = q.push(cs.last());
            assert(q2.subrange(0, queue.len() as int) =~= q.subrange(0, queue.len() as int));
            assert forall|i: int, j: int| 0 <= i < j < q2.len() implies key_of(#[trigger] q2[i]) != key_of(
                #[trigger] q2[j],
            ) by {
                if j == q.len() {
                    assert(ch.contains(key_of(q[i])));
                } else {
                    assert(q2[i] == q[i] && q2[j] == q[j]);
                }
            }
            assert forall|i: int| 0 <= i < q2.len() implies ch.insert(k).contains(key_of(#[trigger] q2[i])) by {
                if i < q.len() {
                    assert(q2[i] == q[i]);
                }
            }
        }
    }
}

/// Filling slots starts at most the number wanted, never to an address
/// already connected or connecting, never to one address twice, and
/// records each as connecting; nothing else becomes connecting.
pub proof fn law_fill_connects_fresh(queue: Seq<PeerAddress>, pending: Set<u64>, actives: Set<u64>, want: nat)
    ensures
        ({
            let (q, p, out) = fill(queue, pending, actives, want);
            &&& out.len() <= want
            &&& keys_distinct(out)
            &&& forall|i: int|
                0 <= i < out.len() ==> !actives.contains(key_of(#[trigger] out[i])) && !pending.contains(
                    key_of(out[i]),
                ) && p.contains(key_of(out[i]))
            &&& pending.subset_of(p)
            &&& forall|k: u64|
                #[trigger] p.contains(k) ==> pending.contains(k) || exists|i: int|
                    0 <= i < out.len() && key_of(out[i]) == k
        }),
    decreases want,
{
    if want > 0 && queue.len() > 0 {
        let a = queue[0];
        let k = key_of(a);
        if actives.contains(k) || pending.contains(k) {
            law_fill_connects_fresh(queue.drop_first(), pending, actives, (want - 1) as nat);
        } else {
            law_fill_connects_fresh(queue.drop_first(), pending.insert(k), actives, (want - 1) as nat);
            let (q, p, rest) = fill(queue.drop_first(), pending.insert(k), actives, (want - 1) as nat);
            let out = seq![a] + rest;
            assert forall|i: int, j: int| 0 <= i < j < out.len() implies key_of(#[trigger] out[i]) != key_of(
                #[trigger] out[j],
            ) by {
                if i == 0 {
                    assert(out[j] == rest[j - 1]);
                } else {
                    assert(out[i] == rest[i - 1] && out[j] == rest[j - 1]);
                }
            }
            assert forall|i: int| 0 <= i < out.len() implies !actives.contains(key_of(#[trigger] out[i]))
                && !pending.contains(key_of(out[i])) && p.contains(key_of(out[i])) by {
                if i > 0 {
                    assert(out[i] == rest[i - 1]);
                }
            }
            assert forall|kk: u64| #[trigger] p.contains(kk) implies pending.contains(kk) || exists|i: int|
                0 <= i < out.len() && key_of(out[i]) == kk by {
                if !pending.contains(kk) {
                    if kk == k {
                        assert(key_of(out[0]) == kk);
                    } else {
                        let i = choose|i: int| 0 <= i < rest.len() && key_of(rest[i]) == kk;
                        assert(out[i + 1] == rest[i]);
                    }
                }
            }
        }
    }
}

} // verus!
