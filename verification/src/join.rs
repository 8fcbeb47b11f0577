//! Multi-way intersection of sorted key sequences by leapfrog alignment.
//!
//! The join takes its inputs strictly ascending. A key repeated inside a
//! single input could make the join report a common key more than once, so
//! the contracts here pin down the duplicate-free case: each common key is
//! reported exactly once, in ascending order. The cursor on its own still
//! allows equal neighbouring keys.

use vstd::prelude::*;
use crate::cursor::LinearIterator;
use crate::seqs::{
    strictly_sorted, has_from, in_all, lemma_strictly_sorted_is_sorted,
    lemma_contains_is_has_from_zero, lemma_has_from_lower_bound, lemma_has_from_widen,
    lemma_has_from_skip_smaller,
};

verus! {

/// Joins any number of strictly ascending key sequences and yields, in
/// ascending order, exactly the keys common to all of them.
pub struct LeapFrogJoin<'a> {
    /// One cursor per input sequence, in construction order; public so that
    /// specifications can name it, as are the other fields.
    pub iters: Vec<LinearIterator<'a>>,
    /// Rotation order: a permutation of the cursor indices.
    pub iters_indices: Vec<usize>,
    /// Set once any cursor runs out; never cleared.
    pub at_end: bool,
    /// Rotation slot of the cursor that moves next.
    pub pos: usize,
}

/// The sequences a cursor collection ranges over, cursor by cursor.
pub open spec fn tables_of(iters: Seq<LinearIterator>) -> Seq<Seq<i64>> {
    Seq::new(iters.len(), |i: int| iters[i].src())
}

/// Key `k` is still reachable: it occurs in every cursor's sequence at or
/// after that cursor's position.
pub open spec fn remaining_of(iters: Seq<LinearIterator>, k: i64) -> bool {
    forall|i: int|
        0 <= i < iters.len() ==> has_from(#[trigger] iters[i].src(), iters[i].pos(), k)
}

/// Keys not yet passed, summed over the cursors before index `i`.
pub open spec fn rest_of(iters: Seq<LinearIterator>, i: int) -> int
    decreases i,
{
    if i <= 0 {
        0
    } else {
        rest_of(iters, i - 1) + iters[i - 1].src().len() - iters[i - 1].pos()
    }
}

impl<'a> LeapFrogJoin<'a> {
    /// Number of input sequences.
    pub open spec fn n(self) -> int {
        self.iters@.len() as int
    }

    /// The input sequences, in construction order.
    pub open spec fn tables(self) -> Seq<Seq<i64>> {
        tables_of(self.iters@)
    }

    /// Whether the join is exhausted.
    pub open spec fn spec_at_end(self) -> bool {
        self.at_end
    }

    /// The rotation slot whose cursor moves next.
    pub open spec fn pos(self) -> int {
        self.pos as int
    }

    /// Cursor index stored at rotation slot `r`.
    pub open spec fn idx_at(self, r: int) -> int {
        self.iters_indices@[r] as int
    }

    /// Cursor at rotation slot `r`.
    pub open spec fn iter_at(self, r: int) -> LinearIterator<'a> {
        self.iters@[self.idx_at(r)]
    }

    /// Key under the cursor at rotation slot `r`.
    pub open spec fn key_at(self, r: int) -> i64 {
        self.iter_at(r).cur()
    }

    /// The key the join currently reports (meaningful while not exhausted).
    pub open spec fn current_key(self) -> i64 {
        self.iter_at(0).cur()
    }

    /// Key `k` is still reachable from the current cursor positions.
    pub open spec fn remaining(self, k: i64) -> bool {
        remaining_of(self.iters@, k)
    }

    /// Every cursor is well-formed over a strictly ascending sequence.
    pub open spec fn iters_wf(self) -> bool {
        forall|i: int|
            0 <= i < self.n() ==> (#[trigger] self.iters@[i]).wf() && strictly_sorted(
                self.iters@[i].src(),
            )
    }

    /// Some rotation slot holds cursor index `i`.
    pub open spec fn slot_found(self, i: int) -> bool {
        exists|r: int| 0 <= r < self.n() && #[trigger] self.idx_at(r) == i
    }

    /// `iters_indices` holds each cursor index exactly once.
    pub open spec fn perm_ok(self) -> bool {
        &&& self.iters_indices@.len() == self.n()
        &&& forall|r: int| 0 <= r < self.n() ==> 0 <= #[trigger] self.idx_at(r) < self.n()
        &&& forall|r1: int, r2: int|
            0 <= r1 < r2 < self.n() ==> self.idx_at(r1) != self.idx_at(r2)
        &&& forall|i: int| 0 <= i < self.n() ==> #[trigger] self.slot_found(i)
    }

    /// No cursor is exhausted.
    pub open spec fn none_at_end(self) -> bool {
        forall|i: int| 0 <= i < self.n() ==> !(#[trigger] self.iters@[i]).spec_at_end()
    }

    /// All cursors stand on the same key, the one the join reports.
    pub open spec fn aligned(self) -> bool {
        forall|i: int|
            0 <= i < self.n() ==> !(#[trigger] self.iters@[i]).spec_at_end()
                && self.iters@[i].cur() == self.current_key()
    }

    /// The rotation slot visited just before `pos`, wrapping.
    pub open spec fn prev_slot(self) -> int {
        if self.pos() == 0 {
            self.n() - 1
        } else {
            self.pos() - 1
        }
    }

    /// The rotation slot visited just after `pos`, wrapping.
    pub open spec fn next_slot(self) -> int {
        if self.pos() + 1 == self.n() {
            0
        } else {
            self.pos() + 1
        }
    }

    /// Keys read along the rotation order starting at slot `pos` never
    /// decrease: slots `pos..n` come first, then slots `0..pos`.
    pub open spec fn rotation_sorted(self) -> bool {
        &&& forall|r1: int, r2: int|
            self.pos() <= r1 <= r2 < self.n() ==> #[trigger] self.key_at(r1)
                <= #[trigger] self.key_at(r2)
        &&& forall|r1: int, r2: int|
            0 <= r1 <= r2 < self.pos() ==> #[trigger] self.key_at(r1) <= #[trigger] self.key_at(r2)
        &&& forall|r1: int, r2: int|
            self.pos() <= r1 < self.n() && 0 <= r2 < self.pos() ==> #[trigger] self.key_at(r1)
                <= #[trigger] self.key_at(r2)
    }

    /// The join's invariant between public operations: cursors and rotation
    /// order are well-formed and, while not exhausted, all cursors stand
    /// aligned on the reported key and no common key at or past that key
    /// has been passed over.
    pub open spec fn wf(self) -> bool {
        &&& self.iters_wf()
        &&& self.perm_ok()
        &&& !self.spec_at_end() ==> {
            &&& self.n() >= 1
            &&& 0 <= self.pos() < self.n()
            &&& self.aligned()
            &&& forall|k: i64|
                #[trigger] in_all(self.tables(), k) && k >= self.current_key() ==> self.remaining(
                    k,
                )
        }
    }

    /// A valid rotation order stays valid when only cursors, exhaustion
    /// flag or rotation slot change.
    proof fn lemma_perm_carries(self, other: Self)
        requires
            self.perm_ok(),
            other.iters_indices@ == self.iters_indices@,
            other.n() == self.n(),
        ensures
            other.perm_ok(),
    {
        assert forall|r: int| 0 <= r < other.n() implies 0 <= #[trigger] other.idx_at(r)
            < other.n() by {
            assert(0 <= self.idx_at(r) < self.n());
        }
        assert forall|r1: int, r2: int| 0 <= r1 < r2 < other.n() implies other.idx_at(r1)
            != other.idx_at(r2) by {
            assert(self.idx_at(r1) != self.idx_at(r2));
        }
        assert forall|i: int| 0 <= i < other.n() implies #[trigger] other.slot_found(i) by {
            assert(self.slot_found(i));
            let r = choose|r: int| 0 <= r < self.n() && #[trigger] self.idx_at(r) == i;
            assert(other.idx_at(r) == i);
        }
    }

    /// A reachable key is at least as large as any cursor's current key.
    proof fn lemma_remaining_lower_bound(self, i: int, k: i64)
        requires
            self.remaining(k),
            0 <= i < self.n(),
            self.iters@[i].wf(),
            !self.iters@[i].spec_at_end(),
        ensures
            k >= self.iters@[i].cur(),
    {
        lemma_has_from_lower_bound(self.iters@[i].src(), self.iters@[i].pos(), k);
    }

    /// A reachable key occurs in every table.
    proof fn lemma_remaining_in_all(self, k: i64)
        requires
            self.remaining(k),
        ensures
            in_all(self.tables(), k),
    {
        assert forall|i: int| 0 <= i < self.tables().len() implies self.tables()[i].contains(
            k,
        ) by {
            lemma_has_from_widen(self.iters@[i].src(), 0, self.iters@[i].pos(), k);
            lemma_contains_is_has_from_zero(self.iters@[i].src(), k);
        }
    }

    /// While aligned, the reported key is reachable, and every reachable
    /// key is at least the reported key.
    proof fn lemma_aligned_min(self)
        requires
            self.iters_wf(),
            self.perm_ok(),
            self.n() >= 1,
            self.aligned(),
        ensures
            self.remaining(self.current_key()),
            forall|k: i64| self.remaining(k) ==> k >= self.current_key(),
    {
        let m = self.current_key();
        assert forall|i: int| 0 <= i < self.n() implies has_from(
            #[trigger] self.iters@[i].src(),
            self.iters@[i].pos(),
            m,
        ) by {
            let p = self.iters@[i].pos();
            assert(self.iters@[i].src()[p] == m);
        }
        assert forall|k: i64| self.remaining(k) implies k >= m by {
            assert(0 <= self.idx_at(0) < self.n());
            self.lemma_remaining_lower_bound(self.idx_at(0), k);
        }
    }

    /// The cursor at the end of the rotation holds the largest key.
    proof fn lemma_prev_is_max(self)
        requires
            self.rotation_sorted(),
            self.n() >= 1,
            0 <= self.pos() < self.n(),
        ensures
            forall|r: int| 0 <= r < self.n() ==> #[trigger] self.key_at(r) <= self.key_at(
                self.prev_slot(),
            ),
    {
        let p = self.prev_slot();
        assert forall|r: int| 0 <= r < self.n() implies #[trigger] self.key_at(r) <= self.key_at(
            p,
        ) by {
            if self.pos() == 0 {
                assert(self.key_at(r) <= self.key_at(self.n() - 1));
            } else {
                assert(self.key_at(r) <= self.key_at(self.pos() - 1));
            }
        }
    }
}

/// Key under the cursor that slot `r` of `idxs` picks.
spec fn key_of(iters: Seq<LinearIterator>, idxs: Seq<usize>, r: int) -> i64 {
    iters[idxs[r] as int].cur()
}

/// Some slot of `idxs` below `n` holds the value `v`.
spec fn idx_found(idxs: Seq<usize>, n: int, v: int) -> bool {
    exists|r: int| 0 <= r < n && #[trigger] idxs[r] as int == v
}

impl<'a> LeapFrogJoin<'a> {
    /// Reports whether the join is exhausted; callable at any time.
    pub fn at_end(&self) -> (r: bool)
        ensures
            r == self.spec_at_end(),
    {
        self.at_end
    }

    /// The key all cursors currently share.
    ///
    /// The reported key occurs in every input sequence.
    pub fn key(&self) -> (r: i64)
        requires
            self.wf(),
            !self.spec_at_end(),
        ensures
            r == self.current_key(),
            in_all(self.tables(), r),
    {
        proof {
            assert(0 <= self.idx_at(0) < self.n());
            self.lemma_aligned_min();
            self.lemma_remaining_in_all(self.current_key());
        }
        let idx = self.iters_indices[0];
        proof {
            assert(!self.iters@[idx as int].spec_at_end());
        }
        self.iters[idx].key()
    }

    /// Rotation slot before `pos`, wrapping.
    fn prev_pos(&self) -> (r: usize)
        requires
            self.n() >= 1,
            0 <= self.pos() < self.n(),
        ensures
            r as int == self.prev_slot(),
    {
        if self.pos == 0 {
            self.iters.len() - 1
        } else {
            self.pos - 1
        }
    }

    /// Rotation slot after `pos`, wrapping.
    fn next_pos(&self) -> (r: usize)
        requires
            self.n() >= 1,
            0 <= self.pos() < self.n(),
        ensures
            r as int == self.next_slot(),
    {
        let n = self.iters.len();
        if self.pos + 1 == n {
            0
        } else {
            self.pos + 1
        }
    }

    /// Builds one cursor per source, sorts the rotation order by starting
    /// key (ties kept in input order), and aligns the cursors on the
    /// smallest common key.
    ///
    /// The join starts exhausted exactly when there is no source at all or
    /// the sources share no key — in particular when any source is empty;
    /// otherwise it reports the smallest key common to all sources.
    pub fn new(sources: Vec<&'a [i64]>) -> (r: Self)
        requires
            forall|i: int| 0 <= i < sources@.len() ==> strictly_sorted(#[trigger] sources@[i]@),
        ensures
            r.wf(),
            r.tables().len() == sources@.len(),
            forall|i: int| 0 <= i < sources@.len() ==> r.tables()[i] == #[trigger] sources@[i]@,
            r.spec_at_end() <==> (sources@.len() == 0 || !(exists|k: i64|
                in_all(r.tables(), k)
            )),
            !r.spec_at_end() ==> in_all(r.tables(), r.current_key()),
            !r.spec_at_end() ==> forall|k: i64|
                #[trigger] in_all(r.tables(), k) ==> k >= r.current_key(),
    {
        let n = sources.len();
        let mut iters: Vec<LinearIterator<'a>> = Vec::new();
        let mut i: usize = 0;
        while i < n
            invariant
                n == sources@.len(),
                0 <= i <= n,
                iters@.len() == i as int,
                forall|t: int| 0 <= t < sources@.len() ==> strictly_sorted(#[trigger] sources@[t]@),
                forall|t: int|
                    0 <= t < i as int ==> (#[trigger] iters@[t]).wf() && strictly_sorted(
                        iters@[t].src(),
                    ) && iters@[t].src() == sources@[t]@ && iters@[t].pos() == 0,
            decreases n - i,
        {
            proof {
                lemma_strictly_sorted_is_sorted(sources@[i as int]@);
            }
            iters.push(LinearIterator::new(sources[i]));
            i = i + 1;
        }

        let mut any_end = n == 0;
        let mut i: usize = 0;
        while i < n
            invariant
                n as int == iters@.len(),
                0 <= i <= n,
                any_end == (n == 0 || exists|t: int|
                    0 <= t < i as int && (#[trigger] iters@[t]).spec_at_end()
                ),
            decreases n - i,
        {
            if iters[i].at_end() {
                any_end = true;
            }
            i = i + 1;
        }

        let mut idxs: Vec<usize> = Vec::new();
        let mut i: usize = 0;
        while i < n
            invariant
                0 <= i <= n,
                idxs@.len() == i as int,
                forall|t: int| 0 <= t < i as int ==> #[trigger] idxs@[t] as int == t,
            decreases n - i,
        {
            idxs.push(i);
            i = i + 1;
        }

        if any_end {
            let r = LeapFrogJoin { iters, iters_indices: idxs, at_end: true, pos: 0 };
            proof {
                assert forall|v: int| 0 <= v < r.n() implies #[trigger] r.slot_found(v) by {
                    assert(r.idx_at(v) == v);
                }
                if n != 0 {
                    let t = choose|t: int|
                        0 <= t < n as int && (#[trigger] r.iters@[t]).spec_at_end();
                    assert forall|k: i64| !#[trigger] in_all(r.tables(), k) by {
                        if in_all(r.tables(), k) {
                            assert(r.tables()[t].contains(k));
                        }
                    }
                }
            }
            r
        } else {
            proof {
                assert(n != 0);
                assert forall|t: int| 0 <= t < n as int implies !(#[trigger] iters@[t])
                    .spec_at_end() by {
                    if iters@[t].spec_at_end() {
                        assert(exists|t2: int|
                            0 <= t2 < n as int && (#[trigger] iters@[t2]).spec_at_end());
                    }
                }
            }
            proof {
                assert forall|v: int| 0 <= v < n as int implies #[trigger] idx_found(
                    idxs@,
                    n as int,
                    v,
                ) by {
                    assert(idxs@[v] as int == v);
                }
                assert forall|s: int| 0 <= s < n as int implies (#[trigger] idxs@[s]) < n by {
                    assert(idxs@[s] as int == s);
                }
                assert forall|s1: int, s2: int|
                    0 <= s1 < s2 < n as int implies idxs@[s1] as int != idxs@[s2] as int by {
                    assert(idxs@[s1] as int == s1);
                    assert(idxs@[s2] as int == s2);
                }
            }
            let mut i: usize = 1;
            while i < n
                invariant
                    n as int == iters@.len(),
                    idxs@.len() == n as int,
                    1 <= i <= n,
                    forall|t: int|
                        0 <= t < n as int ==> (#[trigger] iters@[t]).wf() && strictly_sorted(
                            iters@[t].src(),
                        ) && !iters@[t].spec_at_end(),
                    forall|s: int| 0 <= s < n as int ==> (#[trigger] idxs@[s]) < n,
                    forall|s1: int, s2: int|
                        0 <= s1 < s2 < n as int ==> idxs@[s1] as int != idxs@[s2] as int,
                    forall|v: int| 0 <= v < n as int ==> #[trigger] idx_found(idxs@, n as int, v),
                    forall|a: int, b: int|
                        0 <= a <= b < i as int ==> #[trigger] key_of(iters@, idxs@, a)
                            <= #[trigger] key_of(iters@, idxs@, b),
                decreases n - i,
            {
                let mut j: usize = i;
                while j > 0 && !iters[idxs[j - 1]].le(&iters[idxs[j]])
                    invariant
                        n as int == iters@.len(),
                        idxs@.len() == n as int,
                        0 <= j <= i < n,
                        forall|t: int|
                            0 <= t < n as int ==> (#[trigger] iters@[t]).wf() && strictly_sorted(
                                iters@[t].src(),
                            ) && !iters@[t].spec_at_end(),
                        forall|s: int| 0 <= s < n as int ==> (#[trigger] idxs@[s]) < n,
                        forall|s1: int, s2: int|
                            0 <= s1 < s2 < n as int ==> idxs@[s1] as int != idxs@[s2] as int,
                        forall|v: int| 0 <= v < n as int ==> #[trigger] idx_found(idxs@, n as int, v),
                        forall|a: int, b: int|
                            0 <= a <= b <= i as int && a != j as int && b != j as int
                                ==> #[trigger] key_of(iters@, idxs@, a) <= #[trigger] key_of(
                                iters@,
                                idxs@,
                                b,
                            ),
                        forall|b: int|
                            (j as int) < b <= i as int ==> key_of(iters@, idxs@, j as int)
                                <= #[trigger] key_of(iters@, idxs@, b),
                    decreases j,
                {
                    let ghost idxs0 = idxs@;
                    let x = idxs[j - 1];
                    let y = idxs[j];
                    idxs[j - 1] = y;
                    idxs[j] = x;
                    proof {
                        assert(idxs@ == idxs0.update(j - 1, y).update(j as int, x));
                        assert forall|v: int| 0 <= v < n as int implies #[trigger] idx_found(
                            idxs@,
                            n as int,
                            v,
                        ) by {
                            assert(idx_found(idxs0, n as int, v));
                            let s = choose|s: int|
                                0 <= s < n as int && #[trigger] idxs0[s] as int == v;
                            if s == j - 1 {
                                assert(idxs@[j as int] as int == v);
                            } else if s == j as int {
                                assert(idxs@[j - 1] as int == v);
                            } else {
                                assert(idxs@[s] as int == v);
                            }
                        }
                        assert(!iters@[idxs0[j - 1] as int].spec_at_end());
                        assert(!iters@[idxs0[j as int] as int].spec_at_end());
                        assert(key_of(iters@, idxs0, j - 1) > key_of(iters@, idxs0, j as int));
                        assert forall|a: int, b: int|
                            0 <= a <= b <= i as int && a != j - 1 && b != j - 1
                            implies #[trigger] key_of(iters@, idxs@, a) <= #[trigger] key_of(
                            iters@,
                            idxs@,
                            b,
                        ) by {
                            if a == b {
                            } else if b == j as int {
                                assert(key_of(iters@, idxs0, a) <= key_of(iters@, idxs0, j - 1));
                            } else if a == j as int {
                                assert(key_of(iters@, idxs0, j - 1) <= key_of(iters@, idxs0, b));
                            } else {
                                assert(key_of(iters@, idxs0, a) <= key_of(iters@, idxs0, b));
                            }
                        }
                        assert forall|b: int|
                            j - 1 < b <= i as int implies key_of(iters@, idxs@, j - 1)
                            <= #[trigger] key_of(iters@, idxs@, b) by {
                            if b == j as int {
                            } else {
                                assert(key_of(iters@, idxs0, j as int) <= key_of(
                                    iters@,
                                    idxs0,
                                    b,
                                ));
                            }
                        }
                    }
                    j = j - 1;
                }
                proof {
                    assert forall|a: int, b: int| 0 <= a <= b <= i as int implies #[trigger] key_of(
                        iters@,
                        idxs@,
                        a,
                    ) <= #[trigger] key_of(iters@, idxs@, b) by {
                        if a == b {
                        } else if a == j as int {
                        } else if b == j as int {
                            assert(j > 0);
                            assert(iters@[idxs@[j - 1] as int].spec_le(
                                iters@[idxs@[j as int] as int],
                            ));
                            assert(key_of(iters@, idxs@, j - 1) <= key_of(iters@, idxs@, j as int));
                            if a < j - 1 {
                                assert(key_of(iters@, idxs@, a) <= key_of(iters@, idxs@, j - 1));
                            }
                        }
                    }
                }
                i = i + 1;
            }

            let mut join = LeapFrogJoin { iters, iters_indices: idxs, at_end: false, pos: 0 };
            proof {
                assert forall|v: int| 0 <= v < join.n() implies #[trigger] join.slot_found(v) by {
                    assert(idx_found(join.iters_indices@, join.n(), v));
                    let s = choose|s: int|
                        0 <= s < join.n() && #[trigger] join.iters_indices@[s] as int == v;
                    assert(join.idx_at(s) == v);
                }
                assert forall|r1: int, r2: int|
                    join.pos() <= r1 <= r2 < join.n() implies #[trigger] join.key_at(r1)
                    <= #[trigger] join.key_at(r2) by {
                    assert(key_of(join.iters@, join.iters_indices@, r1) <= key_of(
                        join.iters@,
                        join.iters_indices@,
                        r2,
                    ));
                }
            }
            let ghost pre = join;
            join.search();
            proof {
                assert(join.tables() =~= pre.tables());
                assert forall|t: int| 0 <= t < sources@.len() implies join.tables()[t]
                    == #[trigger] sources@[t]@ by {}
                assert forall|k: i64| #[trigger] in_all(join.tables(), k) implies remaining_of(
                    pre.iters@,
                    k,
                ) by {
                    assert forall|t: int| 0 <= t < pre.iters@.len() implies has_from(
                        #[trigger] pre.iters@[t].src(),
                        pre.iters@[t].pos(),
                        k,
                    ) by {
                        assert(pre.tables()[t].contains(k));
                        lemma_contains_is_has_from_zero(pre.iters@[t].src(), k);
                    }
                }
                if join.spec_at_end() {
                    assert forall|k: i64| !#[trigger] in_all(join.tables(), k) by {
                        if in_all(join.tables(), k) {
                            assert(remaining_of(pre.iters@, k));
                        }
                    }
                } else {
                    join.lemma_aligned_min();
                    assert(remaining_of(join.iters@, join.current_key()));
                    join.lemma_remaining_in_all(join.current_key());
                    assert forall|k: i64| #[trigger] in_all(join.tables(), k) implies k
                        >= join.current_key() by {
                        assert(remaining_of(pre.iters@, k));
                        assert(remaining_of(join.iters@, k));
                        assert(join.remaining(k));
                    }
                }
            }
            join
        }
    }

    /// Steps the join to the next common key.
    ///
    /// Advances the cursor at the rotation front by one and re-aligns.
    /// Afterwards the join stands on the smallest key common to all inputs
    /// that is strictly greater than the key it stood on, or is exhausted
    /// because no such key exists.
    pub fn next(&mut self)
        requires
            old(self).wf(),
            !old(self).spec_at_end(),
        ensures
            final(self).wf(),
            final(self).tables() == old(self).tables(),
            final(self).spec_at_end() <==> !(exists|k: i64|
                #[trigger] in_all(old(self).tables(), k) && k > old(self).current_key()
            ),
            !final(self).spec_at_end() ==> in_all(old(self).tables(), final(self).current_key()),
            !final(self).spec_at_end() ==> final(self).current_key() > old(self).current_key(),
            !final(self).spec_at_end() ==> forall|k: i64|
                #[trigger] in_all(old(self).tables(), k) && k > old(self).current_key() ==> k
                    >= final(self).current_key(),
    {
        let ghost m = old(self).current_key();
        proof {
            assert(0 <= self.idx_at(self.pos()) < self.n());
        }
        let cur_idx = self.iters_indices[self.pos];
        proof {
            assert(!self.iters@[cur_idx as int].spec_at_end());
            assert(self.iters@[cur_idx as int].cur() == m);
        }
        let mut it = self.iters[cur_idx];
        it.next();
        self.iters[cur_idx] = it;
        proof {
            old(self).lemma_perm_carries(*self);
            assert(self.iters@ == old(self).iters@.update(cur_idx as int, it));
            assert forall|k: i64|
                #[trigger] remaining_of(old(self).iters@, k) && k > m implies remaining_of(
                self.iters@,
                k,
            ) by {
                assert forall|t: int| 0 <= t < self.iters@.len() implies has_from(
                    #[trigger] self.iters@[t].src(),
                    self.iters@[t].pos(),
                    k,
                ) by {
                    assert(has_from(old(self).iters@[t].src(), old(self).iters@[t].pos(), k));
                    if t == cur_idx as int {
                        lemma_has_from_skip_smaller(
                            old(self).iters@[t].src(),
                            old(self).iters@[t].pos(),
                            k,
                        );
                    }
                }
            }
            assert forall|k: i64| #[trigger] remaining_of(self.iters@, k) implies remaining_of(
                old(self).iters@,
                k,
            ) by {
                assert forall|t: int| 0 <= t < old(self).iters@.len() implies has_from(
                    #[trigger] old(self).iters@[t].src(),
                    old(self).iters@[t].pos(),
                    k,
                ) by {
                    assert(has_from(self.iters@[t].src(), self.iters@[t].pos(), k));
                    if t == cur_idx as int {
                        lemma_has_from_widen(
                            old(self).iters@[t].src(),
                            old(self).iters@[t].pos(),
                            self.iters@[t].pos(),
                            k,
                        );
                    }
                }
            }
            if !it.spec_at_end() {
                assert forall|k: i64| #[trigger] remaining_of(self.iters@, k) implies k > m by {
                    assert(has_from(it.src(), it.pos(), k));
                    lemma_has_from_lower_bound(it.src(), it.pos(), k);
                    assert(it.src()[it.pos()] > it.src()[it.pos() - 1]);
                }
            }
        }
        if self.iters[cur_idx].at_end() {
            self.at_end = true;
            proof {
                old(self).lemma_perm_carries(*self);
                assert(self.tables() =~= old(self).tables());
                assert forall|k: i64|
                    !(#[trigger] in_all(old(self).tables(), k) && k > m) by {
                    if in_all(old(self).tables(), k) && k > m {
                        assert(old(self).remaining(k));
                        assert(remaining_of(self.iters@, k));
                        assert(has_from(it.src(), it.pos(), k));
                    }
                }
            }
        } else {
            let np = self.next_pos();
            self.pos = np;
            let ghost mid = *self;
            proof {
                old(self).lemma_perm_carries(mid);
                let op = old(self).pos();
                assert(mid.key_at(op) == it.cur());
                assert forall|r: int| 0 <= r < mid.n() && r != op implies #[trigger] mid.key_at(r)
                    == m by {
                    if r < op {
                        assert(old(self).idx_at(r) != old(self).idx_at(op));
                    } else {
                        assert(old(self).idx_at(op) != old(self).idx_at(r));
                    }
                    assert(!(#[trigger] old(self).iters@[mid.idx_at(r)]).spec_at_end());
                }
                assert(it.cur() >= m);
                assert forall|r1: int, r2: int|
                    mid.pos() <= r1 <= r2 < mid.n() implies #[trigger] mid.key_at(r1)
                    <= #[trigger] mid.key_at(r2) by {}
                assert forall|r1: int, r2: int|
                    0 <= r1 <= r2 < mid.pos() implies #[trigger] mid.key_at(r1)
                    <= #[trigger] mid.key_at(r2) by {}
                assert forall|r1: int, r2: int|
                    mid.pos() <= r1 < mid.n() && 0 <= r2 < mid.pos() implies #[trigger] mid.key_at(
                    r1,
                ) <= #[trigger] mid.key_at(r2) by {}
                assert(mid.rotation_sorted());
                assert forall|i: int| 0 <= i < mid.n() implies !(#[trigger] mid.iters@[i])
                    .spec_at_end() by {
                    if i != cur_idx as int {
                        assert(!(#[trigger] old(self).iters@[i]).spec_at_end());
                    }
                }
            }
            self.search();
            proof {
                assert(self.tables() =~= old(self).tables());
                if !self.spec_at_end() {
                    self.lemma_aligned_min();
                    let m2 = self.current_key();
                    assert(remaining_of(self.iters@, m2));
                    assert(remaining_of(mid.iters@, m2));
                    assert(remaining_of(old(self).iters@, m2));
                    assert(m2 > m);
                    self.lemma_remaining_in_all(m2);
                    assert(in_all(self.tables(), m2));
                    assert forall|k: i64|
                        #[trigger] in_all(old(self).tables(), k) && k > m implies k >= m2 by {
                        assert(old(self).remaining(k));
                        assert(remaining_of(mid.iters@, k));
                        assert(remaining_of(self.iters@, k));
                        assert(self.remaining(k));
                    }
                    assert forall|k: i64|
                        #[trigger] in_all(self.tables(), k) && k >= m2 implies self.remaining(
                        k,
                    ) by {
                        assert(in_all(old(self).tables(), k));
                        assert(k > m);
                        assert(old(self).remaining(k));
                        assert(remaining_of(mid.iters@, k));
                        assert(remaining_of(self.iters@, k));
                    }
                } else {
                    assert forall|k: i64|
                        !(#[trigger] in_all(old(self).tables(), k) && k > m) by {
                        if in_all(old(self).tables(), k) && k > m {
                            assert(old(self).remaining(k));
                            assert(remaining_of(mid.iters@, k));
                        }
                    }
                }
            }
        }
    }

    /// Skips the join forward to the first common key at or past
    /// `seek_key`.
    ///
    /// The target may not regress: it must be at least the key the join
    /// stands on. Afterwards the join stands on the smallest key common to
    /// all inputs that is at least `seek_key`, or is exhausted because no
    /// such key exists.
    pub fn seek(&mut self, seek_key: i64)
        requires
            old(self).wf(),
            !old(self).spec_at_end(),
            seek_key >= old(self).current_key(),
        ensures
            final(self).wf(),
            final(self).tables() == old(self).tables(),
            final(self).spec_at_end() <==> !(exists|k: i64|
                #[trigger] in_all(old(self).tables(), k) && k >= seek_key
            ),
            !final(self).spec_at_end() ==> in_all(old(self).tables(), final(self).current_key()),
            !final(self).spec_at_end() ==> final(self).current_key() >= seek_key,
            !final(self).spec_at_end() ==> forall|k: i64|
                #[trigger] in_all(old(self).tables(), k) && k >= seek_key
                    ==> k >= final(self).current_key(),
    {
        let ghost m = old(self).current_key();
        proof {
            assert(0 <= self.idx_at(self.pos()) < self.n());
        }
        let cur_idx = self.iters_indices[self.pos];
        proof {
            assert(!self.iters@[cur_idx as int].spec_at_end());
            assert(self.iters@[cur_idx as int].cur() == m);
        }
        let mut it = self.iters[cur_idx];
        it.seek(seek_key);
        self.iters[cur_idx] = it;
        proof {
            old(self).lemma_perm_carries(*self);
            assert(self.iters@ == old(self).iters@.update(cur_idx as int, it));
            lemma_skip_preserves_remaining(
                old(self).iters@,
                self.iters@,
                cur_idx as int,
                seek_key,
            );
            if !it.spec_at_end() {
                assert forall|k: i64|
                    #[trigger] remaining_of(self.iters@, k) implies k >= seek_key by {
                    assert(has_from(it.src(), it.pos(), k));
                    lemma_has_from_lower_bound(it.src(), it.pos(), k);
                }
            }
        }
        if self.iters[cur_idx].at_end() {
            self.at_end = true;
            proof {
                old(self).lemma_perm_carries(*self);
                assert(self.tables() =~= old(self).tables());
                assert forall|k: i64|
                    !(#[trigger] in_all(old(self).tables(), k) && k >= seek_key) by {
                    if in_all(old(self).tables(), k) && k >= seek_key {
                        assert(k >= m);
                        assert(old(self).remaining(k));
                        assert(remaining_of(self.iters@, k));
                        assert(has_from(it.src(), it.pos(), k));
                    }
                }
            }
        } else {
            let np = self.next_pos();
            self.pos = np;
            let ghost mid = *self;
            proof {
                old(self).lemma_perm_carries(mid);
                let op = old(self).pos();
                assert(mid.key_at(op) == it.cur());
                assert forall|r: int| 0 <= r < mid.n() && r != op implies #[trigger] mid.key_at(r)
                    == m by {
                    if r < op {
                        assert(old(self).idx_at(r) != old(self).idx_at(op));
                    } else {
                        assert(old(self).idx_at(op) != old(self).idx_at(r));
                    }
                    assert(!(#[trigger] old(self).iters@[mid.idx_at(r)]).spec_at_end());
                }
                assert(it.cur() >= m);
                assert forall|r1: int, r2: int|
                    mid.pos() <= r1 <= r2 < mid.n() implies #[trigger] mid.key_at(r1)
                    <= #[trigger] mid.key_at(r2) by {}
                assert forall|r1: int, r2: int|
                    0 <= r1 <= r2 < mid.pos() implies #[trigger] mid.key_at(r1)
                    <= #[trigger] mid.key_at(r2) by {}
                assert forall|r1: int, r2: int|
                    mid.pos() <= r1 < mid.n() && 0 <= r2 < mid.pos() implies #[trigger] mid.key_at(
                    r1,
                ) <= #[trigger] mid.key_at(r2) by {}
                assert(mid.rotation_sorted());
                assert forall|i: int| 0 <= i < mid.n() implies !(#[trigger] mid.iters@[i])
                    .spec_at_end() by {
                    if i != cur_idx as int {
                        assert(!(#[trigger] old(self).iters@[i]).spec_at_end());
                    }
                }
            }
            self.search();
            proof {
                assert(self.tables() =~= old(self).tables());
                if !self.spec_at_end() {
                    self.lemma_aligned_min();
                    let m2 = self.current_key();
                    assert(remaining_of(self.iters@, m2));
                    assert(remaining_of(mid.iters@, m2));
                    assert(remaining_of(old(self).iters@, m2));
                    assert(m2 >= seek_key);
                    self.lemma_remaining_in_all(m2);
                    assert(in_all(self.tables(), m2));
                    assert forall|k: i64|
                        #[trigger] in_all(old(self).tables(), k) && k >= seek_key implies k
                        >= m2 by {
                        assert(k >= m);
                        assert(old(self).remaining(k));
                        assert(remaining_of(mid.iters@, k));
                        assert(remaining_of(self.iters@, k));
                        assert(self.remaining(k));
                    }
                    assert forall|k: i64|
                        #[trigger] in_all(self.tables(), k) && k >= m2 implies self.remaining(
                        k,
                    ) by {
                        assert(in_all(old(self).tables(), k));
                        assert(k >= seek_key);
                        assert(k >= m);
                        assert(old(self).remaining(k));
                        assert(remaining_of(mid.iters@, k));
                        assert(remaining_of(self.iters@, k));
                    }
                } else {
                    assert forall|k: i64|
                        !(#[trigger] in_all(old(self).tables(), k) && k >= seek_key) by {
                        if in_all(old(self).tables(), k) && k >= seek_key {
                            assert(k >= m);
                            assert(old(self).remaining(k));
                            assert(remaining_of(mid.iters@, k));
                        }
                    }
                }
            }
        }
    }

    /// Alignment search: repeatedly seeks the cursor at the rotation front
    /// to the running maximum key, rotating onward after each landing,
    /// until every cursor holds the same key or some cursor runs out.
    ///
    /// The set of reachable keys is exactly preserved; on success the
    /// cursors are aligned, on exhaustion nothing was reachable.
    fn search(&mut self)
        requires
            old(self).iters_wf(),
            old(self).perm_ok(),
            old(self).n() >= 1,
            !old(self).spec_at_end(),
            0 <= old(self).pos() < old(self).n(),
            old(self).none_at_end(),
            old(self).rotation_sorted(),
        ensures
            final(self).iters_wf(),
            final(self).perm_ok(),
            final(self).iters_indices@ == old(self).iters_indices@,
            final(self).n() == old(self).n(),
            forall|i: int|
                0 <= i < old(self).n() ==> (#[trigger] final(self).iters@[i]).src()
                    == old(self).iters@[i].src() && final(self).iters@[i].pos()
                    >= old(self).iters@[i].pos(),
            forall|k: i64|
                #[trigger] remaining_of(final(self).iters@, k) ==> remaining_of(
                    old(self).iters@,
                    k,
                ),
            forall|k: i64|
                #[trigger] remaining_of(old(self).iters@, k) ==> remaining_of(
                    final(self).iters@,
                    k,
                ),
            !final(self).spec_at_end() ==> 0 <= final(self).pos() < final(self).n(),
            !final(self).spec_at_end() ==> final(self).aligned(),
            final(self).spec_at_end() ==> forall|k: i64|
                !#[trigger] remaining_of(old(self).iters@, k),
    {
        let n = self.iters.len();
        let prev = self.prev_pos();
        proof {
            assert(prev as int == self.prev_slot());
            assert(0 <= self.idx_at(self.prev_slot()) < self.n());
        }
        let prev_idx = self.iters_indices[prev];
        proof {
            assert(!self.iters@[prev_idx as int].spec_at_end());
        }
        let mut max_key = self.iters[prev_idx].key();

        loop
            invariant_except_break
                self.at_end == false,
                0 <= self.pos() < self.n(),
                self.none_at_end(),
                self.rotation_sorted(),
                max_key == self.key_at(self.prev_slot()),
            invariant
                self.iters_wf(),
                self.perm_ok(),
                self.iters_indices@ == old(self).iters_indices@,
                n == self.iters.len(),
                self.n() == old(self).n(),
                self.n() >= 1,
                forall|i: int|
                    0 <= i < self.n() ==> (#[trigger] self.iters@[i]).src()
                        == old(self).iters@[i].src() && self.iters@[i].pos()
                        >= old(self).iters@[i].pos(),
                forall|k: i64|
                    #[trigger] remaining_of(self.iters@, k) ==> remaining_of(old(self).iters@, k),
                forall|k: i64|
                    #[trigger] remaining_of(old(self).iters@, k) ==> remaining_of(self.iters@, k),
            ensures
                !self.spec_at_end() ==> 0 <= self.pos() < self.n() && self.aligned(),
                self.spec_at_end() ==> forall|k: i64| !#[trigger] remaining_of(self.iters@, k),
            decreases rest_of(self.iters@, n as int),
        {
            proof {
                assert(0 <= self.idx_at(self.pos()) < self.n());
            }
            let cur_idx = self.iters_indices[self.pos];
            proof {
                assert(!self.iters@[cur_idx as int].spec_at_end());
            }
            let cur_key = self.iters[cur_idx].key();

            if cur_key == max_key {
                proof {
                    self.lemma_prev_is_max();
                    let m = max_key;
                    assert forall|r: int| 0 <= r < self.n() implies #[trigger] self.key_at(r)
                        == m by {
                        assert(self.key_at(self.pos()) <= self.key_at(r));
                        assert(self.key_at(r) <= self.key_at(self.prev_slot()));
                    }
                    assert(self.current_key() == self.key_at(0));
                    assert forall|i: int| 0 <= i < self.n() implies !(#[trigger] self.iters@[i])
                        .spec_at_end() && self.iters@[i].cur() == self.current_key() by {
                        assert(self.slot_found(i));
                        let r = choose|r: int| 0 <= r < self.n() && #[trigger] self.idx_at(r) == i;
                        assert(self.key_at(r) == m);
                    }
                }
                break;
            }
            proof {
                self.lemma_prev_is_max();
                assert(self.key_at(self.pos()) == cur_key);
                assert(cur_key <= max_key);
                lemma_rest_of_nonneg(self.iters@, n as int);
            }
            let ghost before = *self;
            let mut it = self.iters[cur_idx];
            it.seek(max_key);
            self.iters[cur_idx] = it;
            proof {
                assert(self.iters@ == before.iters@.update(cur_idx as int, it));
                lemma_skip_preserves_remaining(before.iters@, self.iters@, cur_idx as int, max_key);
                assert forall|k: i64| #[trigger] remaining_of(old(self).iters@, k)
                    implies remaining_of(self.iters@, k) by {
                    assert(remaining_of(before.iters@, k));
                    assert(before.remaining(k));
                    assert(0 <= before.idx_at(before.prev_slot()) < before.n());
                    before.lemma_remaining_lower_bound(before.idx_at(before.prev_slot()), k);
                    assert(k >= max_key);
                }
                assert forall|k: i64| #[trigger] remaining_of(self.iters@, k)
                    implies remaining_of(old(self).iters@, k) by {
                    assert(remaining_of(before.iters@, k));
                }
                assert forall|r: int| 0 <= r < self.n() && r != before.pos()
                    implies self.iter_at(r) == before.iter_at(r) by {
                    if r < before.pos() {
                        assert(before.idx_at(r) != before.idx_at(before.pos()));
                    } else {
                        assert(before.idx_at(before.pos()) != before.idx_at(r));
                    }
                }
                // The moved cursor advanced strictly: its old key was below the target.
                assert(before.iters@[cur_idx as int].src()[before.iters@[cur_idx as int].pos()]
                    == cur_key);
            }
            if self.iters[cur_idx].at_end() {
                self.at_end = true;
                proof {
                    before.lemma_perm_carries(*self);
                    assert forall|k: i64| !#[trigger] remaining_of(self.iters@, k) by {
                        if remaining_of(self.iters@, k) {
                            assert(has_from(
                                self.iters@[cur_idx as int].src(),
                                self.iters@[cur_idx as int].pos(),
                                k,
                            ));
                        }
                    }
                }
                break;
            } else {
                max_key = self.iters[cur_idx].key();
                let new_pos = if self.pos + 1 == n {
                    0
                } else {
                    self.pos + 1
                };
                proof {
                    before.lemma_prev_is_max();
                    assert(it.pos() > before.iters@[cur_idx as int].pos());
                    lemma_rest_of_mono(before.iters@, self.iters@, n as int);
                    lemma_rest_of_nonneg(self.iters@, n as int);
                }
                self.pos = new_pos;
                proof {
                    before.lemma_perm_carries(*self);
                    let op = before.pos();
                    assert(self.key_at(op) == it.cur());
                    assert(it.cur() >= before.key_at(before.prev_slot()));
                    assert forall|r: int| 0 <= r < self.n() && r != op implies #[trigger] self
                        .key_at(r) == before.key_at(r) by {}
                    assert forall|r: int| 0 <= r < self.n() implies #[trigger] before.key_at(r)
                        <= it.cur() by {}
                    assert(self.prev_slot() == op);
                    assert(max_key == self.key_at(self.prev_slot()));
                    assert forall|r1: int, r2: int|
                        self.pos() <= r1 <= r2 < self.n() implies #[trigger] self.key_at(r1)
                        <= #[trigger] self.key_at(r2) by {
                        if r1 != op && r2 != op {
                            assert(before.key_at(r1) <= before.key_at(r2));
                        }
                    }
                    assert forall|r1: int, r2: int|
                        0 <= r1 <= r2 < self.pos() implies #[trigger] self.key_at(r1)
                        <= #[trigger] self.key_at(r2) by {
                        if r1 != op && r2 != op {
                            assert(before.key_at(r1) <= before.key_at(r2));
                        }
                    }
                    assert forall|r1: int, r2: int|
                        self.pos() <= r1 < self.n() && 0 <= r2 < self.pos() implies #[trigger] self
                        .key_at(r1) <= #[trigger] self.key_at(r2) by {
                        if r1 != op && r2 != op {
                            assert(before.key_at(r1) <= before.key_at(r2));
                        }
                    }
                }
            }
        }
    }
}

/// A collection that includes an empty table has an empty intersection:
/// no key is common to all tables. Together with the constructor's
/// contract, a join over any set of sequences that includes an empty one
/// is exhausted immediately and produces no keys.
pub proof fn lemma_empty_table_no_common(tabs: Seq<Seq<i64>>, t: int)
    requires
        0 <= t < tabs.len(),
        tabs[t].len() == 0,
    ensures
        forall|k: i64| !in_all(tabs, k),
{
    assert forall|k: i64| !in_all(tabs, k) by {
        if in_all(tabs, k) {
            assert(tabs[t].contains(k));
        }
    }
}

/// Moving one cursor forward, skipping only keys below `bound`, keeps
/// exactly the reachable keys at or above `bound` reachable; reachability
/// never grows.
proof fn lemma_skip_preserves_remaining<'a>(
    pre: Seq<LinearIterator<'a>>,
    post: Seq<LinearIterator<'a>>,
    j: int,
    bound: i64,
)
    requires
        pre.len() == post.len(),
        0 <= j < pre.len(),
        forall|i: int| 0 <= i < pre.len() && i != j ==> post[i] == pre[i],
        post[j].src() == pre[j].src(),
        pre[j].pos() <= post[j].pos() <= post[j].src().len(),
        forall|p: int| pre[j].pos() <= p < post[j].pos() ==> post[j].src()[p] < bound,
    ensures
        forall|k: i64| k >= bound && remaining_of(pre, k) ==> remaining_of(post, k),
        forall|k: i64| remaining_of(post, k) ==> remaining_of(pre, k),
{
    assert forall|k: i64| k >= bound && remaining_of(pre, k) implies remaining_of(post, k) by {
        assert forall|i: int| 0 <= i < post.len() implies has_from(
            #[trigger] post[i].src(),
            post[i].pos(),
            k,
        ) by {
            if i == j {
                assert(has_from(pre[j].src(), pre[j].pos(), k));
                let q = choose|q: int|
                    pre[j].pos() <= q < pre[j].src().len() && pre[j].src()[q] == k;
                assert(q >= post[j].pos());
                assert(post[j].src()[q] == k);
            } else {
                assert(has_from(pre[i].src(), pre[i].pos(), k));
            }
        }
    }
    assert forall|k: i64| remaining_of(post, k) implies remaining_of(pre, k) by {
        assert forall|i: int| 0 <= i < pre.len() implies has_from(
            #[trigger] pre[i].src(),
            pre[i].pos(),
            k,
        ) by {
            assert(has_from(post[i].src(), post[i].pos(), k));
            if i == j {
                lemma_has_from_widen(pre[j].src(), pre[j].pos(), post[j].pos(), k);
            }
        }
    }
}

/// When every cursor keeps its sequence and only moves forward, the total
/// of keys not yet passed cannot grow, and strictly shrinks as soon as one
/// cursor has moved.
proof fn lemma_rest_of_mono<'a>(
    pre: Seq<LinearIterator<'a>>,
    post: Seq<LinearIterator<'a>>,
    i: int,
)
    requires
        pre.len() == post.len(),
        forall|t: int|
            0 <= t < pre.len() ==> (#[trigger] post[t]).src() == pre[t].src() && post[t].pos()
                >= pre[t].pos(),
        0 <= i <= pre.len(),
    ensures
        rest_of(post, i) <= rest_of(pre, i),
        forall|j: int|
            0 <= j < i && (#[trigger] post[j]).pos() > pre[j].pos() ==> rest_of(post, i) < rest_of(
                pre,
                i,
            ),
    decreases i,
{
    if i > 0 {
        lemma_rest_of_mono(pre, post, i - 1);
        assert forall|j: int|
            0 <= j < i && (#[trigger] post[j]).pos() > pre[j].pos() implies rest_of(post, i)
            < rest_of(pre, i) by {
            if j == i - 1 {
            } else {
                assert(rest_of(post, i - 1) < rest_of(pre, i - 1));
            }
        }
    }
}

/// The total of keys not yet passed is never negative.
proof fn lemma_rest_of_nonneg<'a>(iters: Seq<LinearIterator<'a>>, i: int)
    requires
        forall|t: int| 0 <= t < iters.len() ==> (#[trigger] iters[t]).wf(),
        0 <= i <= iters.len(),
    ensures
        rest_of(iters, i) >= 0,
    decreases i,
{
    if i > 0 {
        lemma_rest_of_nonneg(iters, i - 1);
    }
}

} // verus!
