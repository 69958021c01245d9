//! Choosing a pivot and partitioning a range around it.

use core::cmp::Ordering;
use vstd::prelude::*;
use crate::blocks::partition_in_blocks;
use crate::order::{callable, is_total_order, le, lemma_flip, lemma_refl, lt};
use crate::range::{frame, lemma_frame_refl, lemma_frame_trans, lemma_frame_widen, swap_in};

verus! {

/// From this length on, the pivot is the median of three medians.
const MIN_MEDIAN_OF_MEDIANS: usize = 256;

/// Scatters a few elements of `v[lo..hi]` around, to break patterns that
/// might make the next partitions imbalanced.
pub(crate) fn break_patterns<T>(v: &mut [T], lo: usize, hi: usize)
    requires
        lo <= hi <= old(v)@.len(),
    ensures
        frame(old(v)@, final(v)@, lo as int, hi as int),
{
    let ghost s0 = v@;
    proof {
        lemma_frame_refl(s0, lo as int, hi as int);
    }
    let len = hi - lo;
    if len >= 4 {
        swap_in(v, Ghost(lo as int), Ghost(hi as int), lo, lo + len / 2);
        let ghost s1 = v@;
        swap_in(v, Ghost(lo as int), Ghost(hi as int), lo + len - 1, lo + len - len / 2);
        proof {
            lemma_frame_trans(s0, s1, v@, lo as int, hi as int);
        }
        if len >= 8 {
            let ghost s2 = v@;
            swap_in(v, Ghost(lo as int), Ghost(hi as int), lo + 1, lo + len / 2 + 1);
            let ghost s3 = v@;
            swap_in(v, Ghost(lo as int), Ghost(hi as int), lo + 2, lo + len / 2 + 2);
            let ghost s4 = v@;
            swap_in(v, Ghost(lo as int), Ghost(hi as int), lo + len - 2, lo + len - len / 2 - 1);
            let ghost s5 = v@;
            swap_in(v, Ghost(lo as int), Ghost(hi as int), lo + len - 3, lo + len - len / 2 - 2);
            proof {
                lemma_frame_trans(s0, s2, s3, lo as int, hi as int);
                lemma_frame_trans(s0, s3, s4, lo as int, hi as int);
                lemma_frame_trans(s0, s4, s5, lo as int, hi as int);
                lemma_frame_trans(s0, s5, v@, lo as int, hi as int);
            }
        }
    }
}

/// Puts `v[a]` and `v[b]` in order.
fn sort2<T, F: Fn(&T, &T) -> Ordering>(v: &mut [T], lo: usize, hi: usize, a: usize, b: usize, compare: &F, Ghost(order): Ghost<spec_fn(T, T) -> Ordering>)
    requires
        lo <= a < hi <= old(v)@.len(),
        lo <= b < hi,
        callable(*compare),
    ensures
        frame(old(v)@, final(v)@, lo as int, hi as int),
{
    let c = compare(&v[a], &v[b]);
    if matches!(c, Ordering::Greater) {
        swap_in(v, Ghost(lo as int), Ghost(hi as int), a, b);
    } else {
        proof {
            lemma_frame_refl(v@, lo as int, hi as int);
        }
    }
}

/// Puts `v[a]`, `v[b]` and `v[c]` in order.
fn sort3<T, F: Fn(&T, &T) -> Ordering>(
    v: &mut [T],
    lo: usize,
    hi: usize,
    a: usize,
    b: usize,
    c: usize,
    compare: &F,
    Ghost(order): Ghost<spec_fn(T, T) -> Ordering>,
)
    requires
        lo <= a < hi <= old(v)@.len(),
        lo <= b < hi,
        lo <= c < hi,
        callable(*compare),
    ensures
        frame(old(v)@, final(v)@, lo as int, hi as int),
{
    let ghost s0 = v@;
    sort2(v, lo, hi, a, b, compare, Ghost(order));
    let ghost s1 = v@;
    sort2(v, lo, hi, b, c, compare, Ghost(order));
    let ghost s2 = v@;
    sort2(v, lo, hi, a, b, compare, Ghost(order));
    proof {
        lemma_frame_trans(s0, s1, s2, lo as int, hi as int);
        lemma_frame_trans(s0, s2, v@, lo as int, hi as int);
    }
}

/// Chooses a pivot in `v[lo..hi]` and returns its index; a few elements may
/// be reordered on the way.
pub(crate) fn choose_pivot<T, F: Fn(&T, &T) -> Ordering>(v: &mut [T], lo: usize, hi: usize, compare: &F, Ghost(order): Ghost<spec_fn(T, T) -> Ordering>) -> (pivot: usize)
    requires
        lo < hi <= old(v)@.len(),
        callable(*compare),
    ensures
        frame(old(v)@, final(v)@, lo as int, hi as int),
        pivot == lo + (hi - lo) / 4 * 2,
        lo <= pivot < hi,
{
    let ghost s0 = v@;
    let len = hi - lo;
    let a = lo + len / 4 * 1;
    let b = lo + len / 4 * 2;
    let c = lo + len / 4 * 3;
    if len >= 4 {
        if len >= MIN_MEDIAN_OF_MEDIANS {
            sort3(v, lo, hi, a - 1, a, c + 1, compare, Ghost(order));
            let ghost s1 = v@;
            sort3(v, lo, hi, b - 1, b, b + 1, compare, Ghost(order));
            let ghost s2 = v@;
            sort3(v, lo, hi, c - 1, c, c + 1, compare, Ghost(order));
            proof {
                lemma_frame_trans(s0, s1, s2, lo as int, hi as int);
                lemma_frame_trans(s0, s2, v@, lo as int, hi as int);
            }
        } else {
            proof {
                lemma_frame_refl(s0, lo as int, hi as int);
            }
        }
        let ghost s3 = v@;
        sort3(v, lo, hi, a, b, c, compare, Ghost(order));
        proof {
            lemma_frame_trans(s0, s3, v@, lo as int, hi as int);
        }
    } else {
        proof {
            lemma_frame_refl(s0, lo as int, hi as int);
        }
    }
    b
}

/// Partitions `v[lo..hi]` around the pivot `v[pivot]`: the elements that
/// come before it, then the pivot, then the others. Returns the pivot's new
/// offset from `lo`, and whether the range was already partitioned.
pub(crate) fn partition<T, F: Fn(&T, &T) -> Ordering>(
    v: &mut [T],
    lo: usize,
    hi: usize,
    pivot: usize,
    compare: &F,
    Ghost(order): Ghost<spec_fn(T, T) -> Ordering>,
) -> (res: (usize, bool))
    requires
        lo <= pivot < hi <= old(v)@.len(),
        callable(*compare),
    ensures
        frame(old(v)@, final(v)@, lo as int, hi as int),
        res.0 < hi - lo,
        final(v)@[lo + res.0] == old(v)@[pivot as int],
        is_total_order(*compare, order) ==> forall|k: int|
            lo <= k < lo + res.0 ==> lt(order, #[trigger] final(v)@[k], old(v)@[pivot as int]),
        is_total_order(*compare, order) ==> forall|k: int|
            lo + res.0 < k < hi ==> le(order, old(v)@[pivot as int], #[trigger] final(v)@[k]),
{
    let ghost s0 = v@;
    let ghost pv = s0[pivot as int];
    let total = v.len();
    swap_in(v, Ghost(lo as int), Ghost(hi as int), lo, pivot);
    let ghost s1 = v@;

    let mut l: usize = lo + 1;
    let mut r: usize = hi;
    loop
        invariant
            lo + 1 <= l <= r,
            r == hi,
            hi <= v@.len(),
            v@.len() == total,
            v@ == s1,
            v@[lo as int] == pv,
            callable(*compare),
            is_total_order(*compare, order) ==> forall|k: int| lo + 1 <= k < l ==> lt(order, #[trigger] v@[k], pv),
        ensures
            lo + 1 <= l <= r,
            r == hi,
            v@ == s1,
            is_total_order(*compare, order) ==> forall|k: int| lo + 1 <= k < l ==> lt(order, #[trigger] v@[k], pv),
        decreases r - l,
    {
        if l >= r {
            break;
        }
        let c = compare(&v[l], &v[lo]);
        if !matches!(c, Ordering::Less) {
            break;
        }
        l += 1;
    }
    loop
        invariant
            lo + 1 <= l <= r <= hi,
            hi <= v@.len(),
            v@.len() == total,
            v@ == s1,
            v@[lo as int] == pv,
            callable(*compare),
            is_total_order(*compare, order) ==> forall|k: int| lo + 1 <= k < l ==> lt(order, #[trigger] v@[k], pv),
            is_total_order(*compare, order) ==> forall|k: int| r <= k < hi ==> !lt(order, #[trigger] v@[k], pv),
        ensures
            lo + 1 <= l <= r <= hi,
            v@ == s1,
            is_total_order(*compare, order) ==> forall|k: int| lo + 1 <= k < l ==> lt(order, #[trigger] v@[k], pv),
            is_total_order(*compare, order) ==> forall|k: int| r <= k < hi ==> !lt(order, #[trigger] v@[k], pv),
        decreases r - l,
    {
        if l >= r {
            break;
        }
        let c = compare(&v[r - 1], &v[lo]);
        if matches!(c, Ordering::Less) {
            break;
        }
        r -= 1;
    }

    let m = partition_in_blocks(v, l, r, lo, compare, Ghost(order));
    let mid = l - lo - 1 + m;
    let ghost s2 = v@;
    proof {
        lemma_frame_widen(s1, s2, lo as int, hi as int, l as int, r as int);
        lemma_frame_trans(s0, s1, s2, lo as int, hi as int);
    }
    // Put the pivot between the two parts.
    swap_in(v, Ghost(lo as int), Ghost(hi as int), lo, lo + mid);
    proof {
        lemma_frame_trans(s0, s2, v@, lo as int, hi as int);
        if is_total_order(*compare, order) {
            assert forall|k: int| lo <= k < lo + mid implies lt(order, #[trigger] v@[k], pv) by {
                if k == lo {
                    assert(lt(order, s2[lo + mid], pv));
                } else if k < l {
                    assert(v@[k] == s1[k]);
                } else {
                    assert(lt(order, s2[k], pv));
                }
            }
            assert forall|k: int| lo + mid < k < hi implies le(order, pv, #[trigger] v@[k]) by {
                if k < r {
                    assert(!lt(order, s2[k], pv));
                } else {
                    assert(v@[k] == s1[k]);
                }
                lemma_flip(order, v@[k], pv);
            }
        }
    }
    (mid, l >= r)
}

/// Partitions `v[lo..hi]` into the elements equal to the pivot `v[pivot]`,
/// which then stands first, followed by those after it; returns the length of
/// the first part. No element of the range may come before the pivot.
pub(crate) fn partition_equal<T, F: Fn(&T, &T) -> Ordering>(
    v: &mut [T],
    lo: usize,
    hi: usize,
    pivot: usize,
    compare: &F,
    Ghost(order): Ghost<spec_fn(T, T) -> Ordering>,
) -> (mid: usize)
    requires
        lo <= pivot < hi <= old(v)@.len(),
        callable(*compare),
    ensures
        frame(old(v)@, final(v)@, lo as int, hi as int),
        1 <= mid <= hi - lo,
        final(v)@[lo as int] == old(v)@[pivot as int],
        is_total_order(*compare, order) && (forall|k: int|
            lo <= k < hi ==> le(order, old(v)@[pivot as int], #[trigger] old(v)@[k])) ==> (forall|k: int|
            lo <= k < lo + mid ==> le(order, #[trigger] final(v)@[k], old(v)@[pivot as int])) && (forall|k: int|
            lo + mid <= k < hi ==> lt(order, old(v)@[pivot as int], #[trigger] final(v)@[k])),
{
    let ghost s0 = v@;
    let ghost pv = s0[pivot as int];
    let ghost good = is_total_order(*compare, order) && (forall|k: int|
        lo <= k < hi ==> le(order, pv, #[trigger] s0[k]));
    let total = v.len();
    swap_in(v, Ghost(lo as int), Ghost(hi as int), lo, pivot);
    proof {
        if good {
            assert forall|k: int| lo <= k < hi implies le(order, pv, #[trigger] v@[k]) by {
                if k == lo {
                    assert(le(order, pv, s0[pivot as int]));
                } else if k == pivot {
                    assert(le(order, pv, s0[lo as int]));
                } else {
                    assert(le(order, pv, s0[k]));
                }
            }
        }
    }

    let mut l: usize = lo + 1;
    let mut r: usize = hi;
    while l < r
        invariant
            lo + 1 <= l <= r + 1,
            l <= hi,
            r <= hi,
            good ==> l <= r,
            hi <= v@.len(),
            v@.len() == total,
            v@[lo as int] == pv,
            callable(*compare),
            frame(s0, v@, lo as int, hi as int),
            good ==> is_total_order(*compare, order),
            good ==> forall|k: int| lo <= k < hi ==> le(order, pv, #[trigger] v@[k]),
            good ==> forall|k: int| lo + 1 <= k < l ==> le(order, #[trigger] v@[k], pv),
            good ==> forall|k: int| r <= k < hi ==> lt(order, pv, #[trigger] v@[k]),
        decreases r + 1 - l,
    {
        let ghost l0 = l;
        let ghost r0 = r;
        loop
            invariant
                lo + 1 <= l <= r <= hi,
                l0 <= l,
                r <= r0,
                hi <= v@.len(),
                v@.len() == total,
                v@[lo as int] == pv,
                callable(*compare),
                frame(s0, v@, lo as int, hi as int),
                good ==> is_total_order(*compare, order),
                good ==> forall|k: int| lo <= k < hi ==> le(order, pv, #[trigger] v@[k]),
                good ==> forall|k: int| lo + 1 <= k < l ==> le(order, #[trigger] v@[k], pv),
                good ==> forall|k: int| r <= k < hi ==> lt(order, pv, #[trigger] v@[k]),
            ensures
                lo + 1 <= l <= r <= hi,
                l0 <= l,
                r <= r0,
                frame(s0, v@, lo as int, hi as int),
                v@[lo as int] == pv,
                good ==> forall|k: int| lo <= k < hi ==> le(order, pv, #[trigger] v@[k]),
                good ==> forall|k: int| lo + 1 <= k < l ==> le(order, #[trigger] v@[k], pv),
                good ==> forall|k: int| r <= k < hi ==> lt(order, pv, #[trigger] v@[k]),
                l < r ==> (good ==> order(v@[l as int], pv) != Ordering::Equal),
            decreases r - l,
        {
            if l >= r {
                break;
            }
            let c = compare(&v[l], &v[lo]);
            if !matches!(c, Ordering::Equal) {
                break;
            }
            l += 1;
        }
        loop
            invariant
                lo + 1 <= l <= r <= hi,
                l0 <= l,
                r <= r0,
                hi <= v@.len(),
                v@.len() == total,
                v@[lo as int] == pv,
                callable(*compare),
                frame(s0, v@, lo as int, hi as int),
                good ==> is_total_order(*compare, order),
                good ==> forall|k: int| lo <= k < hi ==> le(order, pv, #[trigger] v@[k]),
                good ==> forall|k: int| lo + 1 <= k < l ==> le(order, #[trigger] v@[k], pv),
                good ==> forall|k: int| r <= k < hi ==> lt(order, pv, #[trigger] v@[k]),
                l < r ==> (good ==> order(v@[l as int], pv) != Ordering::Equal),
            ensures
                lo + 1 <= l <= r <= hi,
                l0 <= l,
                r <= r0,
                frame(s0, v@, lo as int, hi as int),
                v@[lo as int] == pv,
                good ==> forall|k: int| lo <= k < hi ==> le(order, pv, #[trigger] v@[k]),
                good ==> forall|k: int| lo + 1 <= k < l ==> le(order, #[trigger] v@[k], pv),
                good ==> forall|k: int| r <= k < hi ==> lt(order, pv, #[trigger] v@[k]),
                l < r ==> (good ==> order(v@[l as int], pv) != Ordering::Equal),
                l < r ==> (good ==> order(v@[r - 1], pv) != Ordering::Greater),
            decreases r - l,
        {
            if l >= r {
                break;
            }
            let c = compare(&v[r - 1], &v[lo]);
            if !matches!(c, Ordering::Greater) {
                break;
            }
            proof {
                if good {
                    lemma_flip(order, v@[r - 1], pv);
                }
            }
            r -= 1;
        }
        if l < r {
            r -= 1;
            let ghost before = v@;
            swap_in(v, Ghost(lo as int), Ghost(hi as int), l, r);
            proof {
                lemma_frame_trans(s0, before, v@, lo as int, hi as int);
                if good {
                    lemma_flip(order, before[l as int], pv);
                    assert(lt(order, pv, before[l as int]));
                    assert(l < r);
                    assert(le(order, before[r as int], pv));
                    assert forall|k: int| lo <= k < hi implies le(order, pv, #[trigger] v@[k]) by {
                        if k == l {
                            assert(le(order, pv, before[r as int]));
                        } else if k == r {
                            assert(le(order, pv, before[l as int]));
                        } else {
                            assert(le(order, pv, before[k]));
                        }
                    }
                }
            }
            l += 1;
        }
    }
    proof {
        if good {
            lemma_refl(order, pv);
        }
    }
    l - lo
}

} // verus!
