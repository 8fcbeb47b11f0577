//! Spec-level notions shared by the cursor and the join: ascending order
//! of a key sequence, occurrence of a key at or after a position, and
//! membership of a key in every table of a collection.

use vstd::prelude::*;

verus! {

/// The sequence ascends; equal neighbouring keys are allowed.
pub open spec fn sorted(s: Seq<i64>) -> bool {
    forall|i: int, j: int| 0 <= i <= j < s.len() ==> s[i] <= s[j]
}

/// The sequence strictly ascends: no key occurs twice.
pub open spec fn strictly_sorted(s: Seq<i64>) -> bool {
    forall|i: int, j: int| 0 <= i < j < s.len() ==> s[i] < s[j]
}

/// Key `k` occurs in `s` at or after position `p`.
pub open spec fn has_from(s: Seq<i64>, p: int, k: i64) -> bool {
    exists|q: int| p <= q < s.len() && s[q] == k
}

/// Key `k` occurs in every table of `tabs`.
pub open spec fn in_all(tabs: Seq<Seq<i64>>, k: i64) -> bool {
    forall|i: int| 0 <= i < tabs.len() ==> tabs[i].contains(k)
}

pub proof fn lemma_strictly_sorted_is_sorted(s: Seq<i64>)
    requires
        strictly_sorted(s),
    ensures
        sorted(s),
{
}

/// Occurring somewhere in `s` is the same as occurring at or after 0.
pub proof fn lemma_contains_is_has_from_zero(s: Seq<i64>, k: i64)
    ensures
        s.contains(k) <==> has_from(s, 0, k),
{
    if s.contains(k) {
        let q = choose|q: int| 0 <= q < s.len() && s[q] == k;
        assert(0 <= q < s.len() && s[q] == k);
    }
    if has_from(s, 0, k) {
        let q = choose|q: int| 0 <= q < s.len() && s[q] == k;
        assert(s[q] == k);
    }
}

/// In a sorted sequence, a key occurring at or after position `p` is at
/// least the key at `p`.
pub proof fn lemma_has_from_lower_bound(s: Seq<i64>, p: int, k: i64)
    requires
        sorted(s),
        0 <= p < s.len(),
        has_from(s, p, k),
    ensures
        k >= s[p],
{
    let q = choose|q: int| p <= q < s.len() && s[q] == k;
    assert(s[p] <= s[q]);
}

/// Occurrence at or after a later position implies occurrence at or after
/// an earlier one.
pub proof fn lemma_has_from_widen(s: Seq<i64>, p1: int, p2: int, k: i64)
    requires
        p1 <= p2,
        has_from(s, p2, k),
    ensures
        has_from(s, p1, k),
{
    let q = choose|q: int| p2 <= q < s.len() && s[q] == k;
    assert(p1 <= q < s.len() && s[q] == k);
}

/// In a strictly sorted sequence, a key strictly greater than the key at
/// `p` that occurs at or after `p` also occurs at or after `p + 1`.
pub proof fn lemma_has_from_skip_smaller(s: Seq<i64>, p: int, k: i64)
    requires
        strictly_sorted(s),
        0 <= p < s.len(),
        has_from(s, p, k),
        k > s[p],
    ensures
        has_from(s, p + 1, k),
{
    let q = choose|q: int| p <= q < s.len() && s[q] == k;
    assert(q != p);
    assert(p + 1 <= q < s.len() && s[q] == k);
}

} // verus!
