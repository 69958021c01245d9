//! The quicksort driver and the public sorting functions.

use core::cmp::Ordering;
use vstd::prelude::*;
use crate::heap::heapsort;
use vstd::laws_cmp::{obeys_cmp, obeys_cmp_ord, obeys_cmp_partial_ord, obeys_partial_cmp_spec_properties};
use vstd::laws_eq::obeys_eq_spec_properties;
use vstd::std_specs::cmp::{OrdSpec, PartialEqSpec, PartialOrdSpec};
use crate::insertion::{insertion_sort, partial_insertion_sort};
use crate::order::{
    answers_in_order, callable, flip, order_laws, follows_total_order, is_total_order, le, lemma_flip, lemma_le_trans,
    lemma_lt_le_trans, lt, sorted_by, sorted_range,
};
use crate::partition::{break_patterns, choose_pivot, partition, partition_equal};
use crate::range::{frame, lemma_frame_keeps, lemma_frame_refl, lemma_frame_trans, lemma_frame_whole, lemma_frame_widen, swap_in};

verus! {

/// Neighbours in `order` chain into an ordered range.
proof fn lemma_chain<T>(order: spec_fn(T, T) -> Ordering, s: Seq<T>, lo: int, hi: int)
    requires
        order_laws(order),
        0 <= lo <= hi <= s.len(),
        forall|k: int| lo < k < hi ==> le(order, s[k - 1], #[trigger] s[k]),
    ensures
        sorted_range(order, s, lo, hi),
    decreases hi - lo,
{
    if hi - lo >= 2 {
        lemma_chain(order, s, lo, hi - 1);
        assert forall|a: int, b: int| lo <= a < b < hi implies #[trigger] le(order, s[a], s[b]) by {
            if b == hi - 1 && a < hi - 2 {
                assert(le(order, s[a], s[hi - 2]));
                assert(le(order, s[hi - 2], s[hi - 1]));
                lemma_le_trans(order, s[a], s[hi - 2], s[hi - 1]);
            } else if b == hi - 1 {
                assert(le(order, s[hi - 2], s[hi - 1]));
            }
        }
    }
}

/// Reverses `v` in place.
fn reverse<T>(v: &mut [T])
    ensures
        final(v)@ == old(v)@.reverse(),
        frame(old(v)@, final(v)@, 0, old(v)@.len() as int),
{
    let ghost s0 = v@;
    let n = v.len();
    proof {
        lemma_frame_refl(s0, 0, n as int);
    }
    let mut i: usize = 0;
    let mut j: usize = n;
    while i + 1 < j
        invariant
            i <= j <= n,
            i + j == n,
            v@.len() == n,
            frame(s0, v@, 0, n as int),
            forall|k: int| 0 <= k < i ==> v@[k] == s0[n - 1 - k],
            forall|k: int| j <= k < n ==> v@[k] == s0[n - 1 - k],
            forall|k: int| i <= k < j ==> v@[k] == s0[k],
        decreases j - i,
    {
        j -= 1;
        let ghost before = v@;
        swap_in(v, Ghost(0), Ghost(n as int), i, j);
        proof {
            lemma_frame_trans(s0, before, v@, 0, n as int);
        }
        i += 1;
    }
    assert(v@ =~= s0.reverse());
}

/// Checks whether `v` is already ordered one way or the other, reversing it
/// if it runs backwards; returns whether `v` is now in order.
fn is_presorted<T, F: Fn(&T, &T) -> Ordering>(v: &mut [T], compare: &F, Ghost(order): Ghost<spec_fn(T, T) -> Ordering>) -> (sorted: bool)
    requires
        callable(*compare),
    ensures
        frame(old(v)@, final(v)@, 0, old(v)@.len() as int),
        !sorted ==> final(v)@ == old(v)@,
        sorted && is_total_order(*compare, order) ==> sorted_range(order, final(v)@, 0, final(v)@.len() as int),
        is_total_order(*compare, order) && sorted_range(order, old(v)@, 0, old(v)@.len() as int) ==> sorted
            && final(v)@ == old(v)@,
        answers_in_order(*compare, old(v)@) ==> sorted && final(v)@ == old(v)@,
{
    let ghost s0 = v@;
    let n = v.len();
    proof {
        lemma_frame_refl(s0, 0, n as int);
    }
    if n >= 2 {
        let first = compare(&v[0], &v[1]);
        if matches!(first, Ordering::Greater) {
            // Check whether the slice runs backwards.
            proof {
                if is_total_order(*compare, order) {
                    lemma_flip(order, s0[0], s0[1]);
                }
            }
            let mut i: usize = 2;
            while i < n
                invariant
                    2 <= i <= n,
                    v@ == s0,
                    n == v@.len(),
                    callable(*compare),
                    (*compare).ensures((&s0[0], &s0[1]), first),
                    first == Ordering::Greater,
                    is_total_order(*compare, order) ==> !le(order, s0[0], s0[1]),
                    is_total_order(*compare, order) ==> forall|k: int| 1 <= k < i ==> le(order, #[trigger] s0[k], s0[k - 1]),
                decreases n - i,
            {
                let c = compare(&v[i - 1], &v[i]);
                if matches!(c, Ordering::Less) {
                    proof {
                        if is_total_order(*compare, order) && sorted_range(order, s0, 0, n as int) {
                            assert(le(order, s0[0], s0[1]));
                        }
                        assert(s0[0int + 1] == s0[1]);
                    }
                    return false;
                }
                proof {
                    if is_total_order(*compare, order) {
                        lemma_flip(order, s0[i - 1], s0[i as int]);
                    }
                }
                i += 1;
            }
            proof {
                if is_total_order(*compare, order) {
                    lemma_flip(order, s0[0], s0[1]);
                    if sorted_range(order, s0, 0, n as int) {
                        assert(le(order, s0[0], s0[1]));
                    }
                }
                assert(s0[0int + 1] == s0[1]);
            }
            // Reverse it to make it run forwards.
            reverse(v);
            proof {
                if is_total_order(*compare, order) {
                    let w = v@;
                    assert forall|k: int| 0 < k < n implies le(order, #[trigger] w[k - 1], w[k]) by {
                        assert(w[k - 1] == s0[n - k]);
                        assert(w[k] == s0[n - 1 - k]);
                        assert(le(order, s0[n - k], s0[n - k - 1]));
                    }
                    lemma_chain(order, w, 0, n as int);
                }
            }
        } else {
            // Check whether the slice runs forwards.
            let mut i: usize = 2;
            while i < n
                invariant
                    2 <= i <= n,
                    v@ == s0,
                    n == v@.len(),
                    callable(*compare),
                    is_total_order(*compare, order) ==> forall|k: int| 1 <= k < i ==> le(order, s0[k - 1], #[trigger] s0[k]),
                decreases n - i,
            {
                let c = compare(&v[i - 1], &v[i]);
                if matches!(c, Ordering::Greater) {
                    proof {
                        if is_total_order(*compare, order) && sorted_range(order, s0, 0, n as int) {
                            assert(le(order, s0[i - 1], s0[i as int]));
                        }
                        assert(s0[(i - 1) + 1] == s0[i as int]);
                    }
                    return false;
                }
                i += 1;
            }
            proof {
                if is_total_order(*compare, order) {
                    lemma_chain(order, s0, 0, n as int);
                }
            }
        }
    }
    true
}

/// The predecessor `v[p]`, when there is one, stands below `[lo, hi)` and no
/// element of the range comes before it.
spec fn pred_ok<T, F: Fn(&T, &T) -> Ordering>(
    compare: F,
    order: spec_fn(T, T) -> Ordering,
    s: Seq<T>,
    lo: int,
    hi: int,
    pred: Option<usize>,
) -> bool {
    match pred {
        Some(p) => p < lo && (is_total_order(compare, order) ==> forall|k: int|
            lo <= k < hi ==> le(order, s[p as int], #[trigger] s[k])),
        None => true,
    }
}

/// Joins two ordered ranges around a pivot that separates them.
proof fn lemma_join<T>(order: spec_fn(T, T) -> Ordering, s: Seq<T>, lo: int, m: int, hi: int)
    requires
        order_laws(order),
        0 <= lo <= m < hi <= s.len(),
        sorted_range(order, s, lo, m),
        sorted_range(order, s, m + 1, hi),
        forall|k: int| lo <= k < m ==> lt(order, #[trigger] s[k], s[m]),
        forall|k: int| m < k < hi ==> le(order, s[m], #[trigger] s[k]),
    ensures
        sorted_range(order, s, lo, hi),
{
    assert forall|a: int, b: int| lo <= a < b < hi implies #[trigger] le(order, s[a], s[b]) by {
        if a < m && b > m {
            lemma_lt_le_trans(order, s[a], s[m], s[b]);
        } else if a < m && b == m {
            assert(lt(order, s[a], s[m]));
        } else if a == m {
            assert(le(order, s[m], s[b]));
        }
    }
}

/// Sorts `v[lo..hi]` by recursive quicksort. `pred` is the index of an
/// element below the range that no element of it comes before; `limit` is the
/// number of imbalanced partitions allowed before heapsort takes over.
fn quicksort<T, F: Fn(&T, &T) -> Ordering>(
    v: &mut [T],
    lo: usize,
    hi: usize,
    compare: &F,
    Ghost(order): Ghost<spec_fn(T, T) -> Ordering>,
    pred: Option<usize>,
    limit: usize,
)
    requires
        lo <= hi <= old(v)@.len(),
        callable(*compare),
        pred_ok(*compare, order, old(v)@, lo as int, hi as int, pred),
    ensures
        frame(old(v)@, final(v)@, lo as int, hi as int),
        is_total_order(*compare, order) ==> sorted_range(order, final(v)@, lo as int, hi as int),
    decreases hi - lo,
{
    let ghost s0 = v@;
    let mut limit = limit;
    // Short ranges go to insertion sort; the threshold is lower for elements
    // larger than two words.
    let word = core::mem::size_of::<usize>();
    let size = core::mem::size_of::<T>();
    let max_insertion: usize = if size <= word || size - word <= word {
        32
    } else {
        16
    };

    let len = hi - lo;

    if len <= max_insertion {
        insertion_sort(v, lo, hi, compare, Ghost(order));
        return;
    }

    if limit == 0 {
        heapsort(v, lo, hi, compare, Ghost(order));
        return;
    }

    let pivot = choose_pivot(v, lo, hi, compare, Ghost(order));
    let ghost s1 = v@;
    proof {
        if let Some(p) = pred {
            if is_total_order(*compare, order) {
                let pv = s0[p as int];
                lemma_frame_keeps(s0, s1, lo as int, hi as int, |x: T| le(order, pv, x));
            }
        }
    }

    // If the pivot equals the predecessor, it is the least element of the
    // range: split off the elements equal to it and sort only the rest.
    if let Some(p) = pred {
        let c = compare(&v[p], &v[pivot]);
        if matches!(c, Ordering::Equal) {
            proof {
                if is_total_order(*compare, order) {
                    let pv = s1[p as int];
                    let qv = s1[pivot as int];
                    lemma_flip(order, pv, qv);
                    assert forall|k: int| lo <= k < hi implies le(order, qv, #[trigger] s1[k]) by {
                        lemma_le_trans(order, qv, pv, s1[k]);
                    }
                }
            }
            let mid = partition_equal(v, lo, hi, pivot, compare, Ghost(order));
            let ghost s2 = v@;
            proof {
                if is_total_order(*compare, order) {
                    let pv = s1[p as int];
                    let qv = s1[pivot as int];
                    lemma_frame_keeps(s1, s2, lo as int, hi as int, |x: T| le(order, pv, x));
                    lemma_frame_keeps(s1, s2, lo as int, hi as int, |x: T| le(order, qv, x));
                }
            }
            quicksort(v, lo + mid, hi, compare, Ghost(order), pred, limit);
            proof {
                lemma_frame_widen(s2, v@, lo as int, hi as int, lo + mid, hi as int);
                lemma_frame_trans(s1, s2, v@, lo as int, hi as int);
                lemma_frame_trans(s0, s1, v@, lo as int, hi as int);
                if is_total_order(*compare, order) {
                    let qv = s1[pivot as int];
                    lemma_frame_keeps(s2, v@, lo + mid, hi as int, |x: T| lt(order, qv, x));
                    assert forall|a: int, b: int| lo <= a < b < hi implies #[trigger] le(order, v@[a], v@[b]) by {
                        if b < lo + mid {
                            assert(le(order, s2[a], qv));
                            assert(le(order, qv, s2[b]));
                            lemma_le_trans(order, v@[a], qv, v@[b]);
                        } else if a < lo + mid {
                            assert(le(order, s2[a], qv));
                            assert(lt(order, qv, v@[b]));
                            lemma_le_trans(order, v@[a], qv, v@[b]);
                        }
                    }
                }
            }
            return;
        }
    }

    let (mid, was_partitioned) = partition(v, lo, hi, pivot, compare, Ghost(order));
    let m = lo + mid;
    let ghost pv = s1[pivot as int];
    let ghost s2 = v@;
    proof {
        lemma_frame_trans(s0, s1, s2, lo as int, hi as int);
        if let Some(p) = pred {
            if is_total_order(*compare, order) {
                let qv = s0[p as int];
                lemma_frame_keeps(s1, s2, lo as int, hi as int, |x: T| le(order, qv, x));
            }
        }
    }

    if mid < len / 8 || len - mid - 1 < len / 8 {
        // The partition is imbalanced: scatter some elements to break
        // patterns that might keep it so.
        limit -= 1;
        break_patterns(v, lo, m);
        let ghost s3 = v@;
        break_patterns(v, m + 1, hi);
        proof {
            lemma_frame_widen(s2, s3, lo as int, hi as int, lo as int, m as int);
            lemma_frame_widen(s3, v@, lo as int, hi as int, m + 1, hi as int);
            lemma_frame_trans(s2, s3, v@, lo as int, hi as int);
            lemma_frame_trans(s0, s2, v@, lo as int, hi as int);
            if is_total_order(*compare, order) {
                lemma_frame_keeps(s2, s3, lo as int, m as int, |x: T| lt(order, x, pv));
                lemma_frame_keeps(s3, v@, m + 1, hi as int, |x: T| le(order, pv, x));
                if let Some(p) = pred {
                    let qv = s0[p as int];
                    lemma_frame_keeps(s2, s3, lo as int, hi as int, |x: T| le(order, qv, x));
                    lemma_frame_keeps(s3, v@, lo as int, hi as int, |x: T| le(order, qv, x));
                }
            }
        }
    } else if was_partitioned {
        // A balanced partition of a range that was already partitioned: the
        // range is likely sorted or nearly so.
        if partial_insertion_sort(v, lo, m, compare, Ghost(order)) {
            let ghost s3 = v@;
            if partial_insertion_sort(v, m + 1, hi, compare, Ghost(order)) {
                proof {
                    lemma_frame_widen(s2, s3, lo as int, hi as int, lo as int, m as int);
                    lemma_frame_widen(s3, v@, lo as int, hi as int, m + 1, hi as int);
                    lemma_frame_trans(s2, s3, v@, lo as int, hi as int);
                    lemma_frame_trans(s0, s2, v@, lo as int, hi as int);
                    if is_total_order(*compare, order) {
                        lemma_frame_keeps(s2, s3, lo as int, m as int, |x: T| lt(order, x, pv));
                        lemma_frame_keeps(s3, v@, m + 1, hi as int, |x: T| le(order, pv, x));
                        lemma_join(order, v@, lo as int, m as int, hi as int);
                    }
                }
                return;
            }
            proof {
                lemma_frame_widen(s2, s3, lo as int, hi as int, lo as int, m as int);
                lemma_frame_widen(s3, v@, lo as int, hi as int, m + 1, hi as int);
                lemma_frame_trans(s2, s3, v@, lo as int, hi as int);
                lemma_frame_trans(s0, s2, v@, lo as int, hi as int);
                if is_total_order(*compare, order) {
                    lemma_frame_keeps(s2, s3, lo as int, m as int, |x: T| lt(order, x, pv));
                    lemma_frame_keeps(s3, v@, m + 1, hi as int, |x: T| le(order, pv, x));
                    if let Some(p) = pred {
                        let qv = s0[p as int];
                        lemma_frame_keeps(s2, s3, lo as int, hi as int, |x: T| le(order, qv, x));
                        lemma_frame_keeps(s3, v@, lo as int, hi as int, |x: T| le(order, qv, x));
                    }
                }
            }
        } else {
            proof {
                lemma_frame_widen(s2, v@, lo as int, hi as int, lo as int, m as int);
                lemma_frame_trans(s0, s2, v@, lo as int, hi as int);
                if is_total_order(*compare, order) {
                    lemma_frame_keeps(s2, v@, lo as int, m as int, |x: T| lt(order, x, pv));
                    if let Some(p) = pred {
                        let qv = s0[p as int];
                        lemma_frame_keeps(s2, v@, lo as int, hi as int, |x: T| le(order, qv, x));
                    }
                }
            }
        }
    } else {
        proof {
            lemma_frame_refl(s2, lo as int, hi as int);
        }
    }

    let ghost s4 = v@;
    assert(v@[m as int] == pv);
    quicksort(v, lo, m, compare, Ghost(order), pred, limit);
    let ghost s5 = v@;
    quicksort(v, m + 1, hi, compare, Ghost(order), Some(m), limit);
    proof {
        lemma_frame_widen(s4, s5, lo as int, hi as int, lo as int, m as int);
        lemma_frame_widen(s5, v@, lo as int, hi as int, m + 1, hi as int);
        lemma_frame_trans(s4, s5, v@, lo as int, hi as int);
        lemma_frame_trans(s0, s4, v@, lo as int, hi as int);
        if is_total_order(*compare, order) {
            lemma_frame_keeps(s4, s5, lo as int, m as int, |x: T| lt(order, x, pv));
            lemma_frame_keeps(s5, v@, m + 1, hi as int, |x: T| le(order, pv, x));
            lemma_join(order, v@, lo as int, m as int, hi as int);
        }
    }
}

/// `after` is `before` sorted by `order`: the same elements, in order, and
/// `before` itself when it was in order already.
pub open spec fn sorts<T>(order: spec_fn(T, T) -> Ordering, before: Seq<T>, after: Seq<T>) -> bool {
    &&& after.len() == before.len()
    &&& after.to_multiset() == before.to_multiset()
    &&& sorted_by(order, after)
    &&& sorted_by(order, before) ==> after == before
}

/// Sorts a slice with `compare`, which follows the total order `order` (a
/// ghost argument); see `sort_by`.
pub fn sort_by_order<T, F: Fn(&T, &T) -> Ordering>(
    v: &mut [T],
    compare: F,
    Ghost(order): Ghost<spec_fn(T, T) -> Ordering>,
)
    requires
        callable(compare),
    ensures
        final(v)@.to_multiset() == old(v)@.to_multiset(),
        answers_in_order(compare, old(v)@) ==> final(v)@ == old(v)@,
        vstd::layout::size_of::<T>() == 0 ==> final(v)@ == old(v)@,
        vstd::layout::size_of::<T>() != 0 && is_total_order(compare, order) ==> sorts(
            order,
            old(v)@,
            final(v)@,
        ),
{
    let ghost s0 = v@;
    // Sorting means nothing for zero-sized types.
    if core::mem::size_of::<T>() == 0 {
        proof {
            lemma_frame_refl(s0, 0, s0.len() as int);
            lemma_frame_whole(s0, v@);
        }
        return;
    }

    proof {
        if is_total_order(compare, order) && sorted_by(order, s0) {
            assert forall|k: int| 0 < k < s0.len() implies le(order, s0[k - 1], #[trigger] s0[k]) by {
                assert(order(s0[k - 1], s0[(k - 1) + 1]) != Ordering::Greater);
            }
            lemma_chain(order, s0, 0, s0.len() as int);
        }
    }
    if is_presorted(v, &compare, Ghost(order)) {
        proof {
            lemma_frame_whole(s0, v@);
            if is_total_order(compare, order) {
                assert forall|i: int| 0 <= i < v@.len() - 1 implies #[trigger] order(v@[i], v@[i + 1])
                    != Ordering::Greater by {
                    assert(le(order, v@[i], v@[i + 1]));
                }
            }
        }
        return;
    }

    let n = v.len();
    let len = n as u64;
    proof {
        vstd::std_specs::bits::axiom_u64_leading_zeros(len);
    }
    let limit = 64 - len.leading_zeros() as usize + 1;

    quicksort(v, 0, n, &compare, Ghost(order), None, limit);
    proof {
        lemma_frame_whole(s0, v@);
        if is_total_order(compare, order) {
            assert forall|i: int| 0 <= i < v@.len() - 1 implies #[trigger] order(v@[i], v@[i + 1])
                != Ordering::Greater by {
                assert(le(order, v@[i], v@[i + 1]));
            }
        }
    }
}

/// Sorts a slice with `compare`, in place, unstably, in `O(n log n)` time at
/// worst.
///
/// Whatever `compare` answers, the sort returns and the slice ends up holding
/// the same elements. When `compare` follows a total order, no two neighbours
/// end up with `Greater` between them. A slice already in order is left as it
/// is, and a slice of zero-sized elements, all alike, is not looked at.
pub fn sort_by<T, F: Fn(&T, &T) -> Ordering>(v: &mut [T], compare: F)
    requires
        callable(compare),
    ensures
        final(v)@.to_multiset() == old(v)@.to_multiset(),
        answers_in_order(compare, old(v)@) ==> final(v)@ == old(v)@,
        vstd::layout::size_of::<T>() == 0 ==> final(v)@ == old(v)@,
        vstd::layout::size_of::<T>() != 0 && follows_total_order(compare) ==> answers_in_order(
            compare,
            final(v)@,
        ),
{
    let ghost order = choose|order: spec_fn(T, T) -> Ordering| is_total_order(compare, order);
    sort_by_order(v, compare, Ghost(order));
}

/// The order that `Ord` gives, as its specification states it.
pub open spec fn natural_order<T: Ord>() -> spec_fn(T, T) -> Ordering {
    |a: T, b: T| a.cmp_spec(&b)
}

/// The natural order of the keys that `key` gives.
pub open spec fn key_order<T, B: Ord>(key: spec_fn(T) -> B) -> spec_fn(T, T) -> Ordering {
    |a: T, b: T| key(a).cmp_spec(&key(b))
}

/// Every answer of `f` is the one `key` gives.
pub open spec fn key_agrees<T, B, K: Fn(&T) -> B>(f: K, key: spec_fn(T) -> B) -> bool {
    forall|a: T, k: B| #[trigger] f.ensures((&a,), k) ==> k == key(a)
}

/// An `Ord` that keeps the laws of `Ord` gives a total order.
proof fn lemma_natural_order_laws<T: Ord>()
    requires
        obeys_cmp::<T>(),
    ensures
        order_laws(natural_order::<T>()),
{
    let order = natural_order::<T>();
    reveal(order_laws);
    reveal(obeys_cmp_ord);
    reveal(obeys_cmp_partial_ord);
    reveal(obeys_partial_cmp_spec_properties);
    reveal(obeys_eq_spec_properties);
    assert forall|a: T, b: T| #[trigger] order(b, a) == flip(order(a, b)) by {
        assert(a.partial_cmp_spec(&b) == Some(a.cmp_spec(&b)));
        assert(b.partial_cmp_spec(&a) == Some(b.cmp_spec(&a)));
        assert(a.eq_spec(&b) <==> b.eq_spec(&a));
    }
    assert forall|a: T, b: T, c: T| #[trigger] le(order, a, b) && #[trigger] le(order, b, c) implies le(
        order,
        a,
        c,
    ) by {
        assert(a.partial_cmp_spec(&b) == Some(a.cmp_spec(&b)));
        assert(b.partial_cmp_spec(&c) == Some(b.cmp_spec(&c)));
        assert(a.partial_cmp_spec(&c) == Some(a.cmp_spec(&c)));
        assert(c.partial_cmp_spec(&a) == Some(c.cmp_spec(&a)));
        assert(c.partial_cmp_spec(&b) == Some(c.cmp_spec(&b)));
        assert(b.partial_cmp_spec(&a) == Some(b.cmp_spec(&a)));
        if a.cmp_spec(&c) == Ordering::Greater {
            assert(c.partial_cmp_spec(&a) == Some(Ordering::Less));
            if a.cmp_spec(&b) == Ordering::Less {
                assert(c.partial_cmp_spec(&b) == Some(Ordering::Less));
                assert(b.partial_cmp_spec(&c) == Some(Ordering::Greater));
            } else {
                assert(a.eq_spec(&b));
                if b.cmp_spec(&c) == Ordering::Less {
                    assert(b.partial_cmp_spec(&a) == Some(Ordering::Less));
                } else {
                    assert(b.eq_spec(&c));
                    assert(a.eq_spec(&c));
                }
            }
        }
    }
}

/// Sorts a slice of an `Ord` type into its natural order; see `sort_by`.
pub fn sort<T: Ord>(v: &mut [T])
    ensures
        final(v)@.to_multiset() == old(v)@.to_multiset(),
        vstd::layout::size_of::<T>() == 0 ==> final(v)@ == old(v)@,
        vstd::layout::size_of::<T>() != 0 && obeys_cmp::<T>() ==> sorts(natural_order::<T>(), old(v)@, final(v)@),
{
    let compare = |a: &T, b: &T| -> (o: Ordering)
        ensures
            T::obeys_cmp_spec() ==> o == a.cmp_spec(b),
        { a.cmp(b) };
    proof {
        if obeys_cmp::<T>() {
            reveal(obeys_cmp_ord);
            lemma_natural_order_laws::<T>();
        }
    }
    sort_by_order(v, compare, Ghost(natural_order::<T>()));
}

/// Sorts a slice by the keys that `f` gives, in their natural order; `f`
/// is called on both sides of every comparison. See `sort_by`.
pub fn sort_by_key<T, B: Ord, K: Fn(&T) -> B>(v: &mut [T], f: K)
    requires
        forall|a: T| #[trigger] f.requires((&a,)),
    ensures
        final(v)@.to_multiset() == old(v)@.to_multiset(),
        vstd::layout::size_of::<T>() == 0 ==> final(v)@ == old(v)@,
        vstd::layout::size_of::<T>() != 0 && obeys_cmp::<B>() && (exists|key: spec_fn(T) -> B|
            key_agrees(f, key)) ==> forall|i: int, ka: B, kb: B|
            0 <= i < final(v)@.len() - 1 && #[trigger] f.ensures((&final(v)@[i],), ka) && #[trigger] f.ensures(
                (&final(v)@[i + 1],),
                kb,
            ) ==> ka.cmp_spec(&kb) != Ordering::Greater,
{
    let ghost key = choose|key: spec_fn(T) -> B| key_agrees(f, key);
    let key_fn = &f;
    let compare = |a: &T, b: &T| -> (o: Ordering)
        ensures
            exists|ka: B, kb: B|
                key_fn.ensures((a,), ka) && key_fn.ensures((b,), kb) && (B::obeys_cmp_spec() ==> o
                    == ka.cmp_spec(&kb)),
        {
            let ka = key_fn(a);
            let kb = key_fn(b);
            let o = ka.cmp(&kb);
            proof {
                assert(key_fn.ensures((a,), ka));
                assert(key_fn.ensures((b,), kb));
                assert(B::obeys_cmp_spec() ==> o == ka.cmp_spec(&kb));
            }
            o
        };
    let ghost order = key_order(key);
    proof {
        if obeys_cmp::<B>() && (exists|key: spec_fn(T) -> B| key_agrees(f, key)) {
            reveal(obeys_cmp_ord);
            lemma_natural_order_laws::<B>();
            let by_key = natural_order::<B>();
            reveal(order_laws);
            assert forall|a: T, b: T| #[trigger] order(b, a) == flip(order(a, b)) by {
                assert(by_key(key(b), key(a)) == flip(by_key(key(a), key(b))));
            }
            assert forall|a: T, b: T, c: T| #[trigger] le(order, a, b) && #[trigger] le(order, b, c) implies le(
                order,
                a,
                c,
            ) by {
                assert(le(by_key, key(a), key(b)) && le(by_key, key(b), key(c)));
            }
        }
    }
    let ghost s0 = v@;
    sort_by_order(v, compare, Ghost(order));
    proof {
        if vstd::layout::size_of::<T>() != 0 && obeys_cmp::<B>() && (exists|key: spec_fn(T) -> B|
            key_agrees(f, key)) {
            assert(is_total_order(compare, order));
            assert forall|i: int, ka: B, kb: B|
                0 <= i < v@.len() - 1 && #[trigger] f.ensures((&v@[i],), ka) && #[trigger] f.ensures(
                    (&v@[i + 1],),
                    kb,
                ) implies ka.cmp_spec(&kb) != Ordering::Greater by {
                assert(order(v@[i], v@[i + 1]) != Ordering::Greater);
            }
        }
    }
}

} // verus!
