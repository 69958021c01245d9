//! Insertion sort, whole and partial.

use core::cmp::Ordering;
use vstd::prelude::*;
use crate::order::{callable, is_total_order, le, lemma_flip, lemma_le_trans, lt, sorted_range};
use crate::range::{frame, lemma_frame_refl, lemma_frame_trans, lemma_frame_widen, swap_in};

verus! {

/// Inserts `v[lo]` into the ordered run `v[lo + 1..hi]` so that the whole
/// range is ordered; returns whether anything moved.
pub(crate) fn insert_head<T, F: Fn(&T, &T) -> Ordering>(
    v: &mut [T],
    lo: usize,
    hi: usize,
    compare: &F,
    Ghost(order): Ghost<spec_fn(T, T) -> Ordering>,
) -> (moved: bool)
    requires
        lo < hi <= old(v)@.len(),
        callable(*compare),
        is_total_order(*compare, order) ==> sorted_range(order, old(v)@, lo + 1, hi as int),
    ensures
        frame(old(v)@, final(v)@, lo as int, hi as int),
        !moved ==> final(v)@ == old(v)@,
        is_total_order(*compare, order) ==> sorted_range(order, final(v)@, lo as int, hi as int),
        is_total_order(*compare, order) ==> (moved <==> hi - lo >= 2 && order(old(v)@[lo as int],
            old(v)@[lo + 1],
        ) == Ordering::Greater),
{
    if hi - lo < 2 {
        return false;
    }
    let first = compare(&v[lo], &v[lo + 1]);
    if !matches!(first, Ordering::Greater) {
        proof {
            if is_total_order(*compare, order) {
                assert forall|a: int, b: int| lo <= a < b < hi implies #[trigger] le(order, v@[a], v@[b]) by {
                    if a == lo && b > lo + 1 {
                        lemma_le_trans(order, v@[a], v@[lo + 1], v@[b]);
                    }
                }
            }
        }
        return false;
    }
    let ghost s0 = v@;
    let ghost x = s0[lo as int];
    swap_in(v, Ghost(lo as int), Ghost(hi as int), lo, lo + 1);
    let mut i: usize = lo + 2;
    proof {
        if is_total_order(*compare, order) {
            lemma_flip(order, x, s0[lo + 1]);
        }
    }
    while i < hi
        invariant_except_break
            lo + 2 <= i <= hi <= v@.len(),
        invariant
            lo + 2 <= i <= hi <= v@.len(),
            s0.len() == v@.len(),
            callable(*compare),
            frame(s0, v@, lo as int, hi as int),
            v@[i - 1] == x,
            forall|k: int| i <= k < hi ==> v@[k] == s0[k],
            is_total_order(*compare, order) ==> sorted_range(order, s0, lo + 1, hi as int),
            is_total_order(*compare, order) ==> sorted_range(order, v@, lo as int, i - 1),
            is_total_order(*compare, order) ==> forall|k: int| lo <= k < i - 1 ==> lt(order, #[trigger] v@[k], x),
            is_total_order(*compare, order) ==> forall|k: int, m: int|
                lo <= k < i - 1 && i <= m < hi ==> le(order, #[trigger] v@[k], #[trigger] v@[m]),
        ensures
            lo + 2 <= i <= hi,
            i < hi ==> (is_total_order(*compare, order) ==> le(order, x, v@[i as int])),
        decreases hi - i,
    {
        let c = compare(&v[i - 1], &v[i]);
        if !matches!(c, Ordering::Greater) {
            break;
        }
        let ghost before = v@;
        let ghost y = before[i as int];
        swap_in(v, Ghost(lo as int), Ghost(hi as int), i - 1, i);
        proof {
            lemma_frame_trans(s0, before, v@, lo as int, hi as int);
            if is_total_order(*compare, order) {
                lemma_flip(order, x, y);
                assert(lt(order, y, x));
                assert forall|a: int, b: int| lo <= a < b < i implies #[trigger] le(order, v@[a], v@[b]) by {
                    if b == i - 1 {
                        assert(le(order, before[a], before[i as int]));
                    } else {
                        assert(le(order, before[a], before[b]));
                    }
                }
                assert forall|k: int| lo <= k < i implies lt(order, #[trigger] v@[k], x) by {
                    if k < i - 1 {
                        assert(lt(order, before[k], x));
                    }
                }
                assert forall|k: int, m: int| lo <= k < i && i + 1 <= m < hi implies le(order,
                    #[trigger] v@[k],
                    #[trigger] v@[m],
                ) by {
                    if k < i - 1 {
                        assert(le(order, before[k], before[m]));
                    } else {
                        assert(le(order, s0[i as int], s0[m]));
                    }
                }
            }
        }
        i += 1;
    }
    proof {
        if is_total_order(*compare, order) {
            assert forall|a: int, b: int| lo <= a < b < hi implies #[trigger] le(order, v@[a], v@[b]) by {
                if b < i - 1 {
                } else if b == i - 1 {
                    assert(lt(order, v@[a], x));
                } else if a < i - 1 {
                } else if a == i - 1 {
                    if b > i {
                        assert(le(order, s0[i as int], s0[b]));
                        lemma_le_trans(order, x, v@[i as int], v@[b]);
                    }
                } else {
                    assert(le(order, s0[a], s0[b]));
                }
            }
        }
    }
    true
}

/// Most elements that a partial insertion sort moves before it gives up.
const MAX_INSERTIONS: usize = 4;

/// Sorts `v[lo..hi]` by insertion, in quadratic time at worst.
pub(crate) fn insertion_sort<T, F: Fn(&T, &T) -> Ordering>(
    v: &mut [T],
    lo: usize,
    hi: usize,
    compare: &F,
    Ghost(order): Ghost<spec_fn(T, T) -> Ordering>,
)
    requires
        lo <= hi <= old(v)@.len(),
        callable(*compare),
    ensures
        frame(old(v)@, final(v)@, lo as int, hi as int),
        is_total_order(*compare, order) ==> sorted_range(order, final(v)@, lo as int, hi as int),
{
    let ghost s0 = v@;
    proof {
        lemma_frame_refl(s0, lo as int, hi as int);
    }
    if hi - lo < 2 {
        return;
    }
    let mut i: usize = hi - 1;
    while i > lo
        invariant
            lo <= i < hi <= v@.len(),
            callable(*compare),
            frame(s0, v@, lo as int, hi as int),
            is_total_order(*compare, order) ==> sorted_range(order, v@, i as int, hi as int),
        decreases i - lo,
    {
        i -= 1;
        let ghost before = v@;
        insert_head(v, i, hi, compare, Ghost(order));
        proof {
            lemma_frame_widen(before, v@, lo as int, hi as int, i as int, hi as int);
            lemma_frame_trans(s0, before, v@, lo as int, hi as int);
        }
    }
}

/// Tries to sort `v[lo..hi]` with only a handful of insertions; returns
/// whether the range ended up sorted.
pub(crate) fn partial_insertion_sort<T, F: Fn(&T, &T) -> Ordering>(
    v: &mut [T],
    lo: usize,
    hi: usize,
    compare: &F,
    Ghost(order): Ghost<spec_fn(T, T) -> Ordering>,
) -> (done: bool)
    requires
        lo <= hi <= old(v)@.len(),
        callable(*compare),
    ensures
        frame(old(v)@, final(v)@, lo as int, hi as int),
        done && is_total_order(*compare, order) ==> sorted_range(order, final(v)@, lo as int, hi as int),
        is_total_order(*compare, order) && sorted_range(order, old(v)@, lo as int, hi as int) ==> done
            && final(v)@ == old(v)@,
{
    let ghost s0 = v@;
    proof {
        lemma_frame_refl(s0, lo as int, hi as int);
    }
    if hi - lo < 2 {
        return true;
    }
    let mut insertions: usize = 0;
    let mut i: usize = hi - 1;
    while i > lo
        invariant
            lo <= i < hi <= v@.len(),
            insertions <= MAX_INSERTIONS,
            s0 == old(v)@,
            callable(*compare),
            frame(s0, v@, lo as int, hi as int),
            is_total_order(*compare, order) ==> sorted_range(order, v@, i as int, hi as int),
            is_total_order(*compare, order) && sorted_range(order, s0, lo as int, hi as int) ==> v@ == s0,
        decreases i - lo,
    {
        i -= 1;
        let ghost before = v@;
        let moved = insert_head(v, i, hi, compare, Ghost(order));
        proof {
            lemma_frame_widen(before, v@, lo as int, hi as int, i as int, hi as int);
            lemma_frame_trans(s0, before, v@, lo as int, hi as int);
            if is_total_order(*compare, order) && sorted_range(order, s0, lo as int, hi as int) {
                assert(le(order, s0[i as int], s0[i + 1]));
            }
        }
        if moved {
            insertions += 1;
            if insertions > MAX_INSERTIONS {
                return false;
            }
        }
    }
    true
}

} // verus!
