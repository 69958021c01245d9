//! Heapsort: the worst-case fallback of the quicksort.

use core::cmp::Ordering;
use vstd::prelude::*;
use crate::order::{callable, order_laws, is_total_order, le, lemma_flip, lemma_le_trans, lemma_refl, lt, sorted_range};
use crate::range::{frame, lemma_frame_refl, lemma_frame_source, lemma_frame_trans, lemma_frame_widen, swap_in};

verus! {

/// In the heap `s[lo..lo + n]`, every node whose parent is at `start` or
/// below, other than the children of `x`, does not come after its parent.
pub open spec fn heap_except<T>(
    order: spec_fn(T, T) -> Ordering,
    s: Seq<T>,
    lo: int,
    n: int,
    start: int,
    x: int,
) -> bool {
    forall|k: int|
        1 <= k < n && (k - 1) / 2 >= start && (k - 1) / 2 != x ==> #[trigger] le(
            order,
            s[lo + k],
            s[lo + (k - 1) / 2],
        )
}

/// The children of `x` do not come after the parent of `x`.
pub open spec fn bridged<T>(order: spec_fn(T, T) -> Ordering, s: Seq<T>, lo: int, n: int, x: int) -> bool {
    forall|k: int| 1 <= k < n && (k - 1) / 2 == x && x > 0 ==> #[trigger] le(order, s[lo + k], s[lo + (x - 1) / 2])
}

/// `s[lo..lo + n]` is a max-heap.
pub open spec fn is_heap<T>(order: spec_fn(T, T) -> Ordering, s: Seq<T>, lo: int, n: int) -> bool {
    heap_except(order, s, lo, n, 0, -1)
}

proof fn lemma_root_max<T>(order: spec_fn(T, T) -> Ordering, s: Seq<T>, lo: int, n: int, k: int)
    requires
        order_laws(order),
        is_heap(order, s, lo, n),
        0 <= k < n,
    ensures
        le(order, s[lo + k], s[lo]),
    decreases k,
{
    if k == 0 {
        lemma_refl(order, s[lo]);
    } else {
        let p = (k - 1) / 2;
        lemma_root_max(order, s, lo, n, p);
        assert(le(order, s[lo + k], s[lo + p]));
        lemma_le_trans(order, s[lo + k], s[lo + p], s[lo]);
    }
}

/// Moves `v[lo + start]` down the heap `v[lo..lo + n]` until no child of it
/// comes after it.
fn sift_down<T, F: Fn(&T, &T) -> Ordering>(v: &mut [T], lo: usize, n: usize, start: usize, compare: &F, Ghost(order): Ghost<spec_fn(T, T) -> Ordering>)
    requires
        start < n,
        lo + n <= old(v)@.len(),
        callable(*compare),
        is_total_order(*compare, order) ==> heap_except(order, old(v)@, lo as int, n as int, start as int, start as int),
    ensures
        frame(old(v)@, final(v)@, lo as int, lo + n),
        is_total_order(*compare, order) ==> heap_except(order, final(v)@, lo as int, n as int, start as int, -1),
{
    let ghost s0 = v@;
    proof {
        lemma_frame_refl(s0, lo as int, lo + n);
    }
    let len = v.len();
    let mut x: usize = start;
    loop
        invariant
            start <= x < n,
            lo + n <= v@.len(),
            v@.len() == len,
            x == start || (x - 1) / 2 >= start,
            callable(*compare),
            frame(s0, v@, lo as int, lo + n),
            is_total_order(*compare, order) ==> heap_except(order, v@, lo as int, n as int, start as int, x as int),
            is_total_order(*compare, order) && x > start ==> bridged(order, v@, lo as int, n as int, x as int),
        ensures
            frame(s0, v@, lo as int, lo + n),
            is_total_order(*compare, order) ==> heap_except(order, v@, lo as int, n as int, start as int, -1),
        decreases n - x,
    {
        if x >= n / 2 {
            break;
        }
        let l = 2 * x + 1;
        let r = 2 * x + 2;
        assert(l < n);
        let mut child = l;
        if r < n {
            let c = compare(&v[lo + l], &v[lo + r]);
            if matches!(c, Ordering::Less) {
                child = r;
            }
        }
        let c = compare(&v[lo + x], &v[lo + child]);
        if !matches!(c, Ordering::Less) {
            proof {
                if is_total_order(*compare, order) {
                    lemma_flip(order, v@[lo + x], v@[lo + child]);
                    if r < n {
                        lemma_flip(order, v@[lo + l], v@[lo + r]);
                    }
                    assert forall|k: int|
                        1 <= k < n && (k - 1) / 2 >= start && (k - 1) / 2 != -1 implies #[trigger] le(order,
                        v@[lo + k],
                        v@[lo + (k - 1) / 2],
                    ) by {
                        if (k - 1) / 2 == x {
                            if k == l && child == r {
                                lemma_le_trans(order, v@[lo + l], v@[lo + r], v@[lo + x]);
                            } else if k == r && child == l {
                                lemma_le_trans(order, v@[lo + r], v@[lo + l], v@[lo + x]);
                            }
                        }
                    }
                }
            }
            break;
        }
        let ghost before = v@;
        swap_in(v, Ghost(lo as int), Ghost(lo + n), lo + x, lo + child);
        proof {
            lemma_frame_trans(s0, before, v@, lo as int, lo + n);
            if is_total_order(*compare, order) {
                let cv = before[lo + child];
                let xv = before[lo + x];
                assert(lt(order, xv, cv));
                if r < n {
                    lemma_flip(order, before[lo + l], before[lo + r]);
                }
                assert forall|k: int|
                    1 <= k < n && (k - 1) / 2 >= start && (k - 1) / 2 != child implies #[trigger] le(order,
                    v@[lo + k],
                    v@[lo + (k - 1) / 2],
                ) by {
                    let p = (k - 1) / 2;
                    if p == x {
                        if k == child {
                        } else if child == r {
                            assert(k == l);
                        } else {
                            assert(k == r);
                        }
                    } else if k == x {
                        assert(le(order, before[lo + child], before[lo + (x - 1) / 2]));
                    } else {
                        assert(le(order, before[lo + k], before[lo + p]));
                    }
                }
                assert forall|k: int| 1 <= k < n && (k - 1) / 2 == child && child > 0 implies #[trigger] le(order,
                    v@[lo + k],
                    v@[lo + (child - 1) / 2],
                ) by {
                    assert(le(order, before[lo + k], before[lo + child]));
                }
            }
        }
        x = child;
    }
}

/// Sorts `v[lo..hi]` with heapsort, in `O(n log n)` time at worst.
pub(crate) fn heapsort<T, F: Fn(&T, &T) -> Ordering>(v: &mut [T], lo: usize, hi: usize, compare: &F, Ghost(order): Ghost<spec_fn(T, T) -> Ordering>)
    requires
        lo <= hi <= old(v)@.len(),
        callable(*compare),
    ensures
        frame(old(v)@, final(v)@, lo as int, hi as int),
        is_total_order(*compare, order) ==> sorted_range(order, final(v)@, lo as int, hi as int),
{
    let ghost s0 = v@;
    proof {
        lemma_frame_refl(s0, lo as int, hi as int);
    }
    let n = hi - lo;
    if n < 2 {
        return;
    }
    let mut i: usize = n / 2;
    while i > 0
        invariant
            i <= n / 2,
            n == hi - lo,
            hi <= v@.len(),
            callable(*compare),
            frame(s0, v@, lo as int, hi as int),
            is_total_order(*compare, order) ==> heap_except(order, v@, lo as int, n as int, i as int, -1),
        decreases i,
    {
        i -= 1;
        let ghost before = v@;
        sift_down(v, lo, n, i, compare, Ghost(order));
        proof {
            lemma_frame_trans(s0, before, v@, lo as int, hi as int);
        }
    }
    let mut end: usize = n;
    while end > 1
        invariant
            1 <= end <= n,
            n == hi - lo,
            hi <= v@.len(),
            callable(*compare),
            frame(s0, v@, lo as int, hi as int),
            is_total_order(*compare, order) ==> is_heap(order, v@, lo as int, end as int),
            is_total_order(*compare, order) ==> sorted_range(order, v@, lo + end, hi as int),
            is_total_order(*compare, order) ==> forall|a: int, b: int|
                lo <= a < lo + end && lo + end <= b < hi ==> le(order, #[trigger] v@[a], #[trigger] v@[b]),
        decreases end,
    {
        end -= 1;
        let ghost before = v@;
        proof {
            if is_total_order(*compare, order) {
                assert forall|a: int| lo <= a < lo + end + 1 implies le(order, #[trigger] before[a], before[lo as int]) by {
                    lemma_root_max(order, before, lo as int, end + 1, a - lo);
                }
            }
        }
        swap_in(v, Ghost(lo as int), Ghost(hi as int), lo, lo + end);
        let ghost mid = v@;
        proof {
            lemma_frame_trans(s0, before, v@, lo as int, hi as int);
            if is_total_order(*compare, order) {
                assert forall|k: int|
                    1 <= k < end && (k - 1) / 2 >= 0 && (k - 1) / 2 != 0 implies #[trigger] le(order,
                    v@[lo + k],
                    v@[lo + (k - 1) / 2],
                ) by {
                    assert(le(order, before[lo + k], before[lo + (k - 1) / 2]));
                }
            }
        }
        sift_down(v, lo, end, 0, compare, Ghost(order));
        proof {
            lemma_frame_widen(mid, v@, lo as int, hi as int, lo as int, lo + end);
            lemma_frame_trans(s0, mid, v@, lo as int, hi as int);
            if is_total_order(*compare, order) {
                let m = mid[lo + end];
                assert forall|a: int, b: int| lo <= a < lo + end && lo + end <= b < hi implies le(order,
                    #[trigger] v@[a],
                    #[trigger] v@[b],
                ) by {
                    let j = lemma_frame_source(mid, v@, lo as int, lo + end, a);
                    // the element at `j` sat in the heap before the exchange
                    let src = if j == lo { lo + end } else { j };
                    assert(before[src] == mid[j]);
                    assert(le(order, before[src], before[lo as int]));
                    if b == lo + end {
                    } else {
                        assert(le(order, before[src], before[b]));
                    }
                }
                assert forall|a: int, b: int| lo + end <= a < b < hi implies #[trigger] le(order,
                    v@[a],
                    v@[b],
                ) by {
                    if a == lo + end {
                        assert(le(order, before[lo as int], before[b]));
                    } else {
                        assert(le(order, before[a], before[b]));
                    }
                }
            }
        }
    }
    proof {
        if is_total_order(*compare, order) {
            assert forall|a: int, b: int| lo <= a < b < hi implies #[trigger] le(order, v@[a], v@[b]) by {
                if a == lo {
                    if b == lo + 1 {
                    }
                }
            }
        }
    }
}

} // verus!
