//! A forward-only cursor over one ascending sequence of keys.

use vstd::prelude::*;
use crate::seqs::sorted;

verus! {

broadcast use vstd::slice::axiom_spec_len;

/// Tracks a position in one borrowed ascending key sequence.
///
/// `at_end`, `key` and `next` are O(1). `seek` walks the sequence linearly;
/// that is a reference substitute for the sub-linear search a production
/// cursor would use, and the contracts below are independent of that cost.
#[derive(Clone, Copy)]
pub struct LinearIterator<'a> {
    /// The borrowed key sequence; public so that specifications can name it.
    pub source: &'a [i64],
    /// The current position; public so that specifications can name it.
    pub pos: usize,
}

impl<'a> LinearIterator<'a> {
    /// The keys the cursor ranges over.
    pub open spec fn src(self) -> Seq<i64> {
        self.source@
    }

    /// The current position; positions from `src().len()` on mean exhausted.
    pub open spec fn pos(self) -> int {
        self.pos as int
    }

    /// The keys ascend and the position lies in `[0, src().len()]`.
    pub open spec fn wf(self) -> bool {
        &&& sorted(self.src())
        &&& 0 <= self.pos() <= self.src().len()
    }

    /// Whether the cursor has moved past its last key.
    pub open spec fn spec_at_end(self) -> bool {
        self.pos() >= self.src().len()
    }

    /// The key under the cursor.
    pub open spec fn cur(self) -> i64
        recommends
            !self.spec_at_end(),
    {
        self.src()[self.pos()]
    }

    /// Binds a fresh cursor to `source` at position 0.
    pub fn new(source: &'a [i64]) -> (r: Self)
        requires
            sorted(source@),
        ensures
            r.wf(),
            r.src() == source@,
            r.pos() == 0,
    {
        Self { source, pos: 0 }
    }

    /// Reports whether the cursor is exhausted; callable at any time.
    pub fn at_end(&self) -> (r: bool)
        ensures
            r == self.spec_at_end(),
    {
        self.pos >= self.source.len()
    }

    /// Returns the key at the current position.
    pub fn key(&self) -> (r: i64)
        requires
            !self.spec_at_end(),
        ensures
            r == self.cur(),
    {
        self.source[self.pos]
    }

    /// Moves one key forward; the cursor may become exhausted.
    ///
    /// The reported key never decreases across calls: the new key, if any,
    /// is at least the old one.
    pub fn next(&mut self)
        requires
            old(self).wf(),
            !old(self).spec_at_end(),
        ensures
            final(self).wf(),
            final(self).src() == old(self).src(),
            final(self).pos() == old(self).pos() + 1,
            !final(self).spec_at_end() ==> final(self).cur() >= old(self).cur(),
    {
        let n = self.source.len();
        assert(self.pos < n);
        self.pos = self.pos + 1;
    }

    /// Walks forward to the first key at or past `seek_key`, or to the end
    /// when no such key remains.
    ///
    /// Seek targets may never regress: `seek_key` must be at least the
    /// current key. Afterwards the position is the smallest one, at or past
    /// the old position, whose key is at least `seek_key` — every skipped
    /// key is below the target, and the landing key (if any) is not.
    pub fn seek(&mut self, seek_key: i64)
        requires
            old(self).wf(),
            !old(self).spec_at_end(),
            seek_key >= old(self).cur(),
        ensures
            final(self).wf(),
            final(self).src() == old(self).src(),
            old(self).pos() <= final(self).pos() <= final(self).src().len(),
            forall|p: int|
                old(self).pos() <= p < final(self).pos() ==> final(self).src()[p] < seek_key,
            !final(self).spec_at_end() ==> final(self).cur() >= seek_key,
            !final(self).spec_at_end() ==> final(self).cur() >= old(self).cur(),
    {
        while self.pos < self.source.len() && self.source[self.pos] < seek_key
            invariant
                self.source@ == old(self).src(),
                sorted(self.source@),
                old(self).pos() <= self.pos as int <= self.source@.len(),
                forall|p: int|
                    old(self).pos() <= p < self.pos as int ==> self.source@[p] < seek_key,
            decreases self.source@.len() - self.pos as int,
        {
            self.pos = self.pos + 1;
        }
    }

    /// Exhaustion is permanent: once a cursor is at its end, it stays at
    /// its end in every later state. `next` and `seek` keep the sequence
    /// and never move the position backwards (see their contracts), and no
    /// operation accepts an exhausted cursor, so every state reachable
    /// from an exhausted one is exhausted.
    pub proof fn lemma_at_end_is_permanent(self, later: Self)
        requires
            self.spec_at_end(),
            later.src() == self.src(),
            later.pos() >= self.pos(),
        ensures
            later.spec_at_end(),
    {
    }

    /// Where `self` sorts at or before `other` in the cursor order: an
    /// exhausted cursor sorts after every non-exhausted one, exhausted
    /// cursors sort together, and non-exhausted cursors compare by key.
    pub open spec fn spec_le(self, other: Self) -> bool {
        if self.spec_at_end() {
            other.spec_at_end()
        } else if other.spec_at_end() {
            true
        } else {
            self.cur() <= other.cur()
        }
    }

    /// Compares two cursor states; see [`Self::spec_le`].
    pub fn le(&self, other: &Self) -> (r: bool)
        ensures
            r == self.spec_le(*other),
    {
        if self.at_end() {
            other.at_end()
        } else if other.at_end() {
            true
        } else {
            self.key() <= other.key()
        }
    }
}

} // verus!
