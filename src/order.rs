//! What it means for a range of a sequence to be sorted, bounded by a pivot,
//! or rearranged, with the lemmas that move these facts between ranges.
use vstd::prelude::*;
use vstd::relations::{sorted_by, total_ordering};

verus! {

broadcast use vstd::seq_lib::group_to_multiset_ensures;

/// Every pair of positions in `[lo, hi)` is in non-decreasing order.
pub open spec fn sorted_between(s: Seq<i32>, lo: int, hi: int) -> bool {
    forall|i: int, j: int| lo <= i <= j < hi ==> s[i] <= s[j]
}

/// The whole sequence is in non-decreasing order.
pub open spec fn is_sorted(s: Seq<i32>) -> bool {
    sorted_between(s, 0, s.len() as int)
}

/// Every element in `[lo, hi)` is at most `x`.
pub open spec fn all_le(s: Seq<i32>, lo: int, hi: int, x: i32) -> bool {
    forall|k: int| lo <= k < hi ==> s[k] <= x
}

/// Every element in `[lo, hi)` is at least `x`.
pub open spec fn all_ge(s: Seq<i32>, lo: int, hi: int, x: i32) -> bool {
    forall|k: int| lo <= k < hi ==> s[k] >= x
}

/// `b` is `a` with only the elements in `[lo, hi)` rearranged among themselves:
/// same length, the same values outside the range, and the same multiset inside it.
pub open spec fn permuted_within(a: Seq<i32>, b: Seq<i32>, lo: int, hi: int) -> bool {
    &&& 0 <= lo <= hi <= a.len()
    &&& b.len() == a.len()
    &&& forall|k: int| 0 <= k < a.len() && !(lo <= k < hi) ==> b[k] == a[k]
    &&& b.subrange(lo, hi).to_multiset() == a.subrange(lo, hi).to_multiset()
}

/// Swapping two positions of a range rearranges the range.
pub proof fn lemma_swap_permutes(s: Seq<i32>, lo: int, hi: int, i: int, j: int)
    requires
        0 <= lo <= i < hi <= s.len(),
        lo <= j < hi,
    ensures
        permuted_within(s, s.update(i, s[j]).update(j, s[i]), lo, hi),
{
    let t = s.update(i, s[j]).update(j, s[i]);
    let a = s.subrange(lo, hi);
    let a1 = a.update(i - lo, s[j]);
    assert(t.subrange(lo, hi) =~= a1.update(j - lo, s[i]));
    vstd::seq_lib::to_multiset_update(a, i - lo, s[j]);
    vstd::seq_lib::to_multiset_update(a1, j - lo, s[i]);
    assert(t.subrange(lo, hi).to_multiset() =~= a.to_multiset());
}

/// A rearrangement of a range is also one of any wider range.
pub proof fn lemma_permuted_widen(a: Seq<i32>, b: Seq<i32>, lo: int, hi: int, lo2: int, hi2: int)
    requires
        permuted_within(a, b, lo, hi),
        0 <= lo2 <= lo,
        hi <= hi2 <= a.len(),
    ensures
        permuted_within(a, b, lo2, hi2),
{
    broadcast use vstd::seq_lib::lemma_multiset_commutative;

    assert(a.subrange(lo2, hi2) =~= a.subrange(lo2, lo) + a.subrange(lo, hi) + a.subrange(hi, hi2));
    assert(b.subrange(lo2, hi2) =~= b.subrange(lo2, lo) + b.subrange(lo, hi) + b.subrange(hi, hi2));
    assert(b.subrange(lo2, lo) =~= a.subrange(lo2, lo));
    assert(b.subrange(hi, hi2) =~= a.subrange(hi, hi2));
}

/// Rearranging a range and then rearranging it again is a rearrangement.
pub proof fn lemma_permuted_trans(a: Seq<i32>, b: Seq<i32>, c: Seq<i32>, lo: int, hi: int)
    requires
        permuted_within(a, b, lo, hi),
        permuted_within(b, c, lo, hi),
    ensures
        permuted_within(a, c, lo, hi),
{
}

/// Leaving a sequence as it is rearranges any range of it.
pub proof fn lemma_permuted_refl(a: Seq<i32>, lo: int, hi: int)
    requires
        0 <= lo <= hi <= a.len(),
    ensures
        permuted_within(a, a, lo, hi),
{
}

/// A bound that holds of every element of a range still holds after the range is rearranged.
pub proof fn lemma_permuted_keeps_bounds(a: Seq<i32>, b: Seq<i32>, lo: int, hi: int, x: i32)
    requires
        permuted_within(a, b, lo, hi),
    ensures
        all_le(a, lo, hi, x) ==> all_le(b, lo, hi, x),
        all_ge(a, lo, hi, x) ==> all_ge(b, lo, hi, x),
{
    let sa = a.subrange(lo, hi);
    let sb = b.subrange(lo, hi);
    assert forall|k: int| lo <= k < hi implies exists|m: int| lo <= m < hi && a[m] == #[trigger] b[k] by {
        assert(sb[k - lo] == b[k]);
        assert(sb.contains(b[k]));
        assert(sb.to_multiset().count(b[k]) > 0);
        assert(sa.to_multiset().count(b[k]) > 0);
        assert(sa.contains(b[k]));
        let m = choose|m: int| 0 <= m < sa.len() && sa[m] == b[k];
        assert(a[m + lo] == b[k]);
    }
}

/// Two sorted sequences that hold the same multiset of values are the same sequence.
pub proof fn lemma_sorted_same_multiset_equal(a: Seq<i32>, b: Seq<i32>)
    requires
        is_sorted(a),
        is_sorted(b),
        a.to_multiset() == b.to_multiset(),
    ensures
        a == b,
{
    let leq = |x: i32, y: i32| x <= y;
    assert(total_ordering(leq));
    assert(sorted_by(a, leq));
    assert(sorted_by(b, leq));
    vstd::seq_lib::lemma_sorted_unique(a, b, leq);
}

} // verus!
