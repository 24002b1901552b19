//! A bounds-checked cursor for walking a byte buffer.
//!
//! Every read is checked, so a truncated or hostile input produces an error
//! rather than a panic. Nesting depth is tracked here too, so deeply nested
//! bencode cannot overflow the stack during recursive parsing.

use vstd::prelude::*;
use vstd::slice::slice_subrange;

verus! {

/// How deeply values may nest before parsing is refused.
pub const DEPTH_MAX: u16 = 100;

/// A position within a byte buffer, plus the current nesting depth.
#[derive(Debug)]
pub struct Cursor<'a> {
    data: &'a [u8],
    pos: usize,
    depth: u16,
}

/// A read went past the end of the buffer, or the input was malformed.
#[derive(Debug)]
pub enum CursorError {
    /// A read ran past the end of the buffer.
    Eof,
    /// A length was large enough to overflow when added to the position.
    Overflow,
    /// A specific byte was required and a different one was found.
    Unexpected { want: u8, got: u8 },
    /// Values nested past [`DEPTH_MAX`].
    TooDeep,
}

impl<'a> Cursor<'a> {
    /// The whole buffer being read.
    pub closed spec fn input(&self) -> Seq<u8> {
        self.data@
    }

    /// Index of the next unread byte.
    pub closed spec fn position(&self) -> nat {
        self.pos as nat
    }

    /// How many containers are currently open.
    pub closed spec fn nesting(&self) -> nat {
        self.depth as nat
    }

    #[verifier::type_invariant]
    closed spec fn inv(self) -> bool {
        self.pos <= self.data@.len()
    }

    /// Start reading `data` from the beginning.
    pub fn new(data: &'a [u8]) -> (c: Self)
        ensures
            c.input() == data@,
            c.position() == 0,
            c.nesting() == 0,
    {
        Cursor { data, pos: 0, depth: 0 }
    }

    /// Index of the next unread byte.
    pub fn pos(&self) -> (p: usize)
        ensures
            p == self.position(),
            p <= self.input().len(),
            self.input().len() <= usize::MAX,
    {
        proof {
            use_type_invariant(self);
        }
        let _ = self.data.len();
        self.pos
    }

    /// Whether every byte has been consumed.
    pub fn is_empty(&self) -> (b: bool)
        ensures
            b == (self.position() >= self.input().len()),
    {
        self.pos >= self.data.len()
    }

    /// Return the next byte without consuming it.
    pub fn peek(&self) -> (r: Result<u8, CursorError>)
        ensures
            self.position() < self.input().len() ==> r == Ok::<u8, CursorError>(self.input()[self.position() as int]),
            self.position() >= self.input().len() ==> r == Err::<u8, CursorError>(CursorError::Eof),
    {
        if self.pos < self.data.len() {
            Ok(self.data[self.pos])
        } else {
            Err(CursorError::Eof)
        }
    }

    /// Consume and return the next byte.
    pub fn bump(&mut self) -> (r: Result<u8, CursorError>)
        ensures
            final(self).input() == old(self).input(),
            final(self).nesting() == old(self).nesting(),
            old(self).position() < old(self).input().len() ==> {
                &&& r == Ok::<u8, CursorError>(old(self).input()[old(self).position() as int])
                &&& final(self).position() == old(self).position() + 1
            },
            old(self).position() >= old(self).input().len() ==> {
                &&& r == Err::<u8, CursorError>(CursorError::Eof)
                &&& final(self).position() == old(self).position()
            },
    {
        proof {
            use_type_invariant(&*self);
        }
        if self.pos < self.data.len() {
            let byte = self.data[self.pos];
            self.pos = self.pos + 1;
            Ok(byte)
        } else {
            Err(CursorError::Eof)
        }
    }

    /// Consume exactly `n` bytes and return a borrow of them.
    pub fn take(&mut self, n: usize) -> (r: Result<&'a [u8], CursorError>)
        ensures
            final(self).input() == old(self).input(),
            final(self).nesting() == old(self).nesting(),
            old(self).position() + n > usize::MAX ==> {
                &&& r == Err::<&'a [u8], CursorError>(CursorError::Overflow)
                &&& final(self).position() == old(self).position()
            },
            old(self).position() + n <= usize::MAX && old(self).position() + n > old(self).input().len()
                ==> {
                &&& r == Err::<&'a [u8], CursorError>(CursorError::Eof)
                &&& final(self).position() == old(self).position()
            },
            old(self).position() + n <= old(self).input().len() ==> {
                &&& r is Ok
                &&& r->Ok_0@ == old(self).input().subrange(
                    old(self).position() as int,
                    old(self).position() + n,
                )
                &&& final(self).position() == old(self).position() + n
            },
    {
        proof {
            use_type_invariant(&*self);
        }
        let len = self.data.len();
        let end = match self.pos.checked_add(n) {
            Some(end) => end,
            None => {
                return Err(CursorError::Overflow);
            },
        };
        if end > len {
            return Err(CursorError::Eof);
        }
        let slice = slice_subrange(self.data, self.pos, end);
        self.pos = end;
        Ok(slice)
    }

    /// Consume the next byte, requiring it to be `want`.
    pub fn expect(&mut self, want: u8) -> (r: Result<(), CursorError>)
        ensures
            final(self).input() == old(self).input(),
            final(self).nesting() == old(self).nesting(),
            old(self).position() >= old(self).input().len() ==> {
                &&& r == Err::<(), CursorError>(CursorError::Eof)
                &&& final(self).position() == old(self).position()
            },
            old(self).position() < old(self).input().len() ==> {
                &&& final(self).position() == old(self).position() + 1
                &&& old(self).input()[old(self).position() as int] == want ==> r is Ok
                &&& old(self).input()[old(self).position() as int] != want ==> r
                    == Err::<(), CursorError>(
                    CursorError::Unexpected {
                        want,
                        got: old(self).input()[old(self).position() as int],
                    },
                )
            },
    {
        let got = match self.bump() {
            Ok(b) => b,
            Err(e) => {
                return Err(e);
            },
        };
        if got == want {
            Ok(())
        } else {
            Err(CursorError::Unexpected { want, got })
        }
    }

    /// Record entering a nested container, refusing to go past [`DEPTH_MAX`].
    pub fn enter(&mut self) -> (r: Result<(), CursorError>)
        requires
            old(self).nesting() < u16::MAX,
        ensures
            final(self).input() == old(self).input(),
            final(self).position() == old(self).position(),
            final(self).nesting() == old(self).nesting() + 1,
            final(self).nesting() > DEPTH_MAX ==> r == Err::<(), CursorError>(CursorError::TooDeep),
            final(self).nesting() <= DEPTH_MAX ==> r is Ok,
            final(self).nesting() == nesting_after(old(self).nesting(), seq![true]),
            r is Ok <==> enter_succeeds(old(self).nesting(), seq![true], 0),
    {
        proof {
            lemma_one_call(self.nesting(), true);
            assert(seq![true].take(0) =~= Seq::<bool>::empty());
        }
        proof {
            use_type_invariant(&*self);
        }
        self.depth = self.depth + 1;
        if self.depth > DEPTH_MAX {
            return Err(CursorError::TooDeep);
        }
        Ok(())
    }

    /// Record leaving a nested container. Saturates at zero.
    pub fn leave(&mut self)
        ensures
            final(self).input() == old(self).input(),
            final(self).position() == old(self).position(),
            old(self).nesting() > 0 ==> final(self).nesting() == old(self).nesting() - 1,
            old(self).nesting() == 0 ==> final(self).nesting() == 0,
            final(self).nesting() == nesting_after(old(self).nesting(), seq![false]),
    {
        proof {
            lemma_one_call(self.nesting(), false);
        }
        proof {
            use_type_invariant(&*self);
        }
        self.depth = self.depth.saturating_sub(1);
    }
}

/// The nesting after a run of calls from nesting `n`: each `true` an
/// [`Cursor::enter`], which counts one more, each `false` a
/// [`Cursor::leave`], which counts one fewer but never below zero.
pub open spec fn nesting_after(n: nat, calls: Seq<bool>) -> nat
    decreases calls.len(),
{
    if calls.len() == 0 {
        n
    } else {
        let m = nesting_after(n, calls.drop_last());
        if calls.last() {
            m + 1
        } else if m > 0 {
            (m - 1) as nat
        } else {
            0
        }
    }
}

/// Whether the `i`-th call of a run from nesting `n` is an enter that
/// succeeds: it does when the nesting it reaches is at most [`DEPTH_MAX`].
pub open spec fn enter_succeeds(n: nat, calls: Seq<bool>, i: int) -> bool {
    calls[i] && nesting_after(n, calls.take(i)) + 1 <= DEPTH_MAX
}

proof fn lemma_one_call(n: nat, call: bool)
    ensures
        nesting_after(n, seq![call]) == if call {
            n + 1
        } else if n > 0 {
            (n - 1) as nat
        } else {
            0
        },
{
    assert(seq![call].drop_last() =~= Seq::<bool>::empty());
    assert(nesting_after(n, Seq::<bool>::empty()) == n);
    assert(seq![call].last() == call);
}

proof fn lemma_enters(n: nat, k: nat)
    ensures
        nesting_after(n, Seq::new(k, |i: int| true)) == n + k,
    decreases k,
{
    if k > 0 {
        assert(Seq::new(k, |i: int| true).drop_last() =~= Seq::new((k - 1) as nat, |i: int| true));
        lemma_enters(n, (k - 1) as nat);
    }
}

proof fn lemma_append(n: nat, a: Seq<bool>, b: Seq<bool>)
    ensures
        nesting_after(n, a + b) == nesting_after(nesting_after(n, a), b),
    decreases b.len(),
{
    if b.len() > 0 {
        assert((a + b).drop_last() =~= a + b.drop_last());
        lemma_append(n, a, b.drop_last());
    }
}

proof fn lemma_leaves(n: nat, k: nat)
    requires
        k <= n,
    ensures
        nesting_after(n, Seq::new(k, |i: int| false)) == n - k,
    decreases k,
{
    if k > 0 {
        assert(Seq::new(k, |i: int| false).drop_last() =~= Seq::new((k - 1) as nat, |i: int| false));
        lemma_leaves(n, (k - 1) as nat);
    }
}

/// On a fresh cursor, a run of enters succeeds for the first
/// [`DEPTH_MAX`] of them and fails from then on.
pub proof fn law_enters_up_to_the_limit(k: nat)
    ensures
        ({
            let calls = Seq::new(k, |i: int| true);
            &&& nesting_after(0, calls) == k
            &&& forall|i: int| 0 <= i < k ==> (#[trigger] enter_succeeds(0, calls, i) <==> i < DEPTH_MAX)
        }),
{
    let calls = Seq::new(k, |i: int| true);
    lemma_enters(0, k);
    assert forall|i: int| 0 <= i < k implies (#[trigger] enter_succeeds(0, calls, i) <==> i < DEPTH_MAX) by {
        assert(calls.take(i) =~= Seq::new(i as nat, |j: int| true));
        lemma_enters(0, i as nat);
    }
}

/// Entering `k` times and leaving `k` times returns a cursor to the
/// nesting it had, so as many enters succeed afterwards as before; a leave
/// at nesting zero leaves it at zero.
pub proof fn law_balanced_calls_restore_nesting(n: nat, k: nat)
    ensures
        nesting_after(n, Seq::new(k, |i: int| true) + Seq::new(k, |i: int| false)) == n,
        nesting_after(0, seq![false]) == 0,
{
    lemma_append(n, Seq::new(k, |i: int| true), Seq::new(k, |i: int| false));
    lemma_enters(n, k);
    lemma_leaves(n + k, k);
    lemma_one_call(0, false);
}

} // verus!
