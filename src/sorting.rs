//! Hoare partitioning and the quicksort built on it.
use vstd::prelude::*;
use crate::order::{all_ge, all_le, is_sorted, permuted_within, sorted_between};
use crate::order::{lemma_permuted_keeps_bounds, lemma_permuted_refl, lemma_permuted_trans,
    lemma_permuted_widen, lemma_sorted_same_multiset_equal, lemma_swap_permutes};

verus! {

/// The index of the middle of the range `[left, right]`, where the pivot is read.
pub open spec fn mid_of(left: int, right: int) -> int {
    left + (right - left) / 2
}

/// Rearranges `v[i_left..=i_right]` around the value at its middle index (Hoare's scheme)
/// and returns a split index `p` with `i_left <= p < i_right`: afterwards every element in
/// `[i_left, p]` is at most that pivot value and every element in `[p + 1, i_right]` at
/// least it.
pub fn partition(v: &mut Vec<i32>, i_left: usize, i_right: usize) -> (p: usize)
    requires
        i_left < i_right < old(v).len(),
    ensures
        i_left <= p < i_right,
        permuted_within(old(v)@, final(v)@, i_left as int, i_right + 1),
        all_le(final(v)@, i_left as int, p + 1, old(v)@[mid_of(i_left as int, i_right as int)]),
        all_ge(final(v)@, p + 1, i_right + 1, old(v)@[mid_of(i_left as int, i_right as int)]),
{
    let ghost lo: int = i_left as int;
    let ghost hi: int = i_right + 1;
    let ghost mid: int = mid_of(i_left as int, i_right as int);
    let val_pivot: i32 = v[i_left + (i_right - i_left) / 2];
    let mut i: usize = i_left;
    let mut j: usize = i_right;
    // positions that stop the two cursors before they leave the range
    let ghost mut stop_i: int = mid;
    let ghost mut stop_j: int = mid;
    proof {
        lemma_permuted_refl(v@, lo, hi);
    }
    loop
        invariant
            i_left <= i <= i_right,
            i_left <= j <= i_right,
            i <= j + 1,
            i_right < v.len(),
            lo == i_left,
            hi == i_right + 1,
            permuted_within(old(v)@, v@, lo, hi),
            all_le(v@, lo, i as int, val_pivot),
            all_ge(v@, j + 1, hi, val_pivot),
            i <= stop_i <= i_right,
            v@[stop_i] >= val_pivot,
            i_left <= stop_j <= j,
            v@[stop_j] <= val_pivot,
            j == i_right ==> stop_i == mid && mid < i_right,
            mid == mid_of(i_left as int, i_right as int),
            i_right < old(v)@.len(),
            val_pivot == old(v)@[mid],
        decreases j + 1 - i,
    {
        let ghost i0: int = i as int;
        let ghost j0: int = j as int;
        while v[i] < val_pivot
            invariant
                i_left <= i <= stop_i <= i_right < v.len(),
                v@[stop_i] >= val_pivot,
                all_le(v@, lo, i as int, val_pivot),
                lo == i_left,
                j == i_right ==> stop_i == mid && mid < i_right,
                i0 <= i,
            decreases stop_i - i,
        {
            i = i + 1;
        }
        while v[j] > val_pivot
            invariant
                i_left <= stop_j <= j <= i_right < v.len(),
                v@[stop_j] <= val_pivot,
                all_ge(v@, j + 1, hi, val_pivot),
                hi == i_right + 1,
                all_le(v@, lo, i as int, val_pivot),
                v@[i as int] >= val_pivot,
                i_left <= i <= i_right,
                j == i_right ==> i <= mid && mid < i_right,
                i0 <= i,
                j <= j0,
            decreases j - stop_j,
        {
            j = j - 1;
        }
        if i < j {
            let ghost before = v@;
            let a: i32 = v[i];
            let b: i32 = v[j];
            v.set(i, b);
            v.set(j, a);
            proof {
                lemma_swap_permutes(before, lo, hi, i as int, j as int);
                lemma_permuted_trans(old(v)@, before, v@, lo, hi);
                stop_i = j as int;
                stop_j = i as int;
            }
            i = i + 1;
            j = j - 1;
        } else {
            return j;
        }
    }
}

/// Sorts `v[i_left..=i_right]` in place in non-decreasing order, leaving the rest of `v`
/// as it is. A range of at most one element (`i_left >= i_right`) is left untouched.
pub fn quicksort(v: &mut Vec<i32>, i_left: usize, i_right: usize)
    requires
        i_right < old(v).len(),
    ensures
        i_left >= i_right ==> final(v)@ == old(v)@,
        i_left <= i_right ==> permuted_within(old(v)@, final(v)@, i_left as int, i_right + 1),
        sorted_between(final(v)@, i_left as int, i_right + 1),
    decreases i_right - i_left,
{
    if i_left < i_right {
        let ghost lo: int = i_left as int;
        let ghost hi: int = i_right + 1;
        let ghost v0 = v@;
        let ghost pivot: i32 = v@[mid_of(lo, i_right as int)];
        let i_pivot: usize = partition(v, i_left, i_right);
        let ghost v1 = v@;
        quicksort(v, i_left, i_pivot);
        let ghost v2 = v@;
        proof {
            lemma_permuted_keeps_bounds(v1, v2, lo, i_pivot + 1, pivot);
            lemma_permuted_widen(v1, v2, lo, i_pivot + 1, lo, hi);
            lemma_permuted_trans(v0, v1, v2, lo, hi);
        }
        quicksort(v, i_pivot + 1, i_right);
        proof {
            let v3 = v@;
            lemma_permuted_keeps_bounds(v2, v3, i_pivot + 1, hi, pivot);
            lemma_permuted_widen(v2, v3, i_pivot + 1, hi, lo, hi);
            lemma_permuted_trans(v0, v2, v3, lo, hi);
            assert(all_le(v3, lo, i_pivot + 1, pivot));
            assert(sorted_between(v3, lo, hi));
        }
    } else {
        proof {
            if i_left == i_right {
                lemma_permuted_refl(v@, i_left as int, i_right + 1);
            }
        }
    }
}

/// Sorts the whole of `v` in place in non-decreasing order. An empty vector is left
/// as it is.
pub fn sort(v: &mut Vec<i32>)
    ensures
        is_sorted(final(v)@),
        forall|k: int| 0 <= k < final(v)@.len() - 1 ==> #[trigger] final(v)@[k] <= final(v)@[k + 1],
        final(v)@.to_multiset() == old(v)@.to_multiset(),
        old(v)@.len() <= 1 ==> final(v)@ == old(v)@,
{
    let len: usize = v.len();
    if len == 0 {
        return;
    }
    quicksort(v, 0, len - 1);
    proof {
        assert(old(v)@.subrange(0, len as int) =~= old(v)@);
        assert(v@.subrange(0, len as int) =~= v@);
    }
}

/// Sorting is idempotent: when `t` is what `sort` gives for `s` (sorted, with the
/// values of `s`) and `u` is what `sort` gives for `t`, then `u` is `t` again.
pub proof fn law_sort_idempotent(s: Seq<i32>, t: Seq<i32>, u: Seq<i32>)
    requires
        is_sorted(t),
        t.to_multiset() == s.to_multiset(),
        is_sorted(u),
        u.to_multiset() == t.to_multiset(),
    ensures
        u == t,
{
    lemma_sorted_same_multiset_equal(u, t);
}

} // verus!
