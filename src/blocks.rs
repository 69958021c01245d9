//! Branchless partitioning of a range block by block.

use core::cmp::Ordering;
use vstd::prelude::*;
use crate::order::{callable, is_total_order, lt};
use crate::range::{frame, lemma_frame_refl, lemma_frame_trans, lemma_frame_widen, swap_in};

verus! {

/// Number of elements in one block.
const BLOCK: usize = 64;

/// Some recorded offset in `off[start..len]` equals `i`.
pub open spec fn pending(off: Seq<u8>, start: int, len: int, i: int) -> bool {
    exists|k: int| start <= k < len && off[k] as int == i
}

/// The recorded offsets `off[start..len]` rise strictly, and the last of them
/// leaves room for the ones before it inside a block of `block` elements.
pub open spec fn offsets_ok(off: Seq<u8>, start: int, len: int, block: int) -> bool {
    &&& 0 <= start <= len <= off.len()
    &&& forall|a: int, b: int| start <= a < b < len ==> #[trigger] off[a] < #[trigger] off[b]
    &&& forall|k: int| start <= k < len ==> #[trigger] off[k] + (len - k) <= block
}

/// In the block `s[base..base + block]`, the elements at recorded offsets are
/// the ones that do not come before `pivot`.
pub open spec fn left_claim<T>(
    order: spec_fn(T, T) -> Ordering,
    s: Seq<T>,
    pivot: T,
    base: int,
    block: int,
    off: Seq<u8>,
    start: int,
    len: int,
) -> bool {
    forall|i: int|
        0 <= i < block ==> (pending(off, start, len, i) <==> !lt(order, #[trigger] s[base + i], pivot))
}

/// In the block that ends just before `top`, counted from its end, the
/// elements at recorded offsets are the ones that come before `pivot`.
pub open spec fn right_claim<T>(
    order: spec_fn(T, T) -> Ordering,
    s: Seq<T>,
    pivot: T,
    top: int,
    block: int,
    off: Seq<u8>,
    start: int,
    len: int,
) -> bool {
    forall|i: int|
        0 <= i < block ==> (pending(off, start, len, i) <==> lt(order, #[trigger] s[top - 1 - i], pivot))
}

proof fn lemma_pending_empty(off: Seq<u8>, start: int, i: int)
    ensures
        !pending(off, start, start, i),
{
}

proof fn lemma_pending_push(off: Seq<u8>, start: int, len: int, i: int, x: u8)
    requires
        0 <= start <= len < off.len(),
    ensures
        pending(off.update(len, x), start, len + 1, i) <==> (pending(off, start, len, i) || i == x as int),
        pending(off.update(len, x), start, len, i) <==> pending(off, start, len, i),
{
    let o2 = off.update(len, x);
    if pending(off, start, len, i) {
        let k = choose|k: int| start <= k < len && off[k] as int == i;
        assert(o2[k] as int == i);
    }
    if i == x as int {
        assert(o2[len] as int == i);
    }
    if pending(o2, start, len, i) {
        let k = choose|k: int| start <= k < len && o2[k] as int == i;
        assert(off[k] as int == i);
    }
}

proof fn lemma_pending_pop_front(off: Seq<u8>, start: int, len: int, block: int, i: int)
    requires
        offsets_ok(off, start, len, block),
        start < len,
    ensures
        pending(off, start + 1, len, i) <==> (pending(off, start, len, i) && i != off[start] as int),
{
    if pending(off, start, len, i) && i != off[start] as int {
        let k = choose|k: int| start <= k < len && off[k] as int == i;
        assert(start + 1 <= k);
    }
    if pending(off, start + 1, len, i) {
        let k = choose|k: int| start + 1 <= k < len && off[k] as int == i;
        assert(off[start] < off[k]);
    }
}

proof fn lemma_pending_pop_back(off: Seq<u8>, start: int, len: int, block: int, i: int)
    requires
        offsets_ok(off, start, len, block),
        start < len,
    ensures
        pending(off, start, len - 1, i) <==> (pending(off, start, len, i) && i != off[len - 1] as int),
        pending(off, start, len, i) ==> i <= off[len - 1] as int,
{
    if pending(off, start, len, i) {
        let k = choose|k: int| start <= k < len && off[k] as int == i;
        if k < len - 1 {
            assert(off[k] < off[len - 1]);
        }
    }
    if pending(off, start, len - 1, i) {
        let k = choose|k: int| start <= k < len - 1 && off[k] as int == i;
        assert(off[k] < off[len - 1]);
    }
}

/// Compares each element of `v[base..base + block]` with `v[p]` and records,
/// in rising order, the offsets of those that do not come before it.
fn scan_left<T, F: Fn(&T, &T) -> Ordering>(
    v: &[T],
    base: usize,
    block: usize,
    p: usize,
    offsets: &mut [u8; BLOCK],
    compare: &F,
    Ghost(order): Ghost<spec_fn(T, T) -> Ordering>,
) -> (len: usize)
    requires
        base + block <= v@.len(),
        block <= BLOCK,
        p < v@.len(),
        callable(*compare),
    ensures
        len <= block,
        offsets_ok(final(offsets)@, 0, len as int, block as int),
        is_total_order(*compare, order) ==> left_claim(order,
            v@,
            v@[p as int],
            base as int,
            block as int,
            final(offsets)@,
            0,
            len as int,
        ),
{
    let total = v.len();
    let mut len: usize = 0;
    let mut i: usize = 0;
    while i < block
        invariant
            len <= i <= block <= BLOCK,
            v@.len() == total,
            base + block <= v@.len(),
            p < v@.len(),
            callable(*compare),
            offsets@.len() == BLOCK,
            offsets_ok(offsets@, 0, len as int, i as int),
            is_total_order(*compare, order) ==> left_claim(order, v@, v@[p as int], base as int, i as int, offsets@, 0, len as int),
        decreases block - i,
    {
        let c = compare(&v[base + i], &v[p]);
        let ghost before = offsets@;
        offsets[len] = i as u8;
        let ghost len0 = len;
        len += (!matches!(c, Ordering::Less)) as usize;
        proof {
            assert forall|a: int, b: int| 0 <= a < b < len implies #[trigger] offsets@[a] < #[trigger] offsets@[b] by {
                if b < len0 {
                    assert(before[a] < before[b]);
                }
            }
            assert forall|k: int| 0 <= k < len implies #[trigger] offsets@[k] + (len - k) <= i + 1 by {
                if k < len0 {
                    assert(before[k] + (len0 - k) <= i);
                }
            }
            if is_total_order(*compare, order) {
                assert forall|j: int| 0 <= j < i + 1 implies (pending(offsets@, 0, len as int, j) <==> !lt(order,
                    #[trigger] v@[base + j],
                    v@[p as int],
                )) by {
                    lemma_pending_push(before, 0, len0 as int, j, i as u8);
                }
            }
        }
        i += 1;
    }
    len
}

/// Compares each element of the block that ends just before `top` with
/// `v[p]`, from the end, and records in rising order the offsets of those that
/// come before it.
fn scan_right<T, F: Fn(&T, &T) -> Ordering>(
    v: &[T],
    top: usize,
    block: usize,
    p: usize,
    offsets: &mut [u8; BLOCK],
    compare: &F,
    Ghost(order): Ghost<spec_fn(T, T) -> Ordering>,
) -> (len: usize)
    requires
        block <= top <= v@.len(),
        block <= BLOCK,
        p < v@.len(),
        callable(*compare),
    ensures
        len <= block,
        offsets_ok(final(offsets)@, 0, len as int, block as int),
        is_total_order(*compare, order) ==> right_claim(order,
            v@,
            v@[p as int],
            top as int,
            block as int,
            final(offsets)@,
            0,
            len as int,
        ),
{
    let total = v.len();
    let mut len: usize = 0;
    let mut i: usize = 0;
    while i < block
        invariant
            len <= i <= block <= BLOCK,
            v@.len() == total,
            block <= top <= v@.len(),
            p < v@.len(),
            callable(*compare),
            offsets@.len() == BLOCK,
            offsets_ok(offsets@, 0, len as int, i as int),
            is_total_order(*compare, order) ==> right_claim(order, v@, v@[p as int], top as int, i as int, offsets@, 0, len as int),
        decreases block - i,
    {
        let c = compare(&v[top - i - 1], &v[p]);
        let ghost before = offsets@;
        offsets[len] = i as u8;
        let ghost len0 = len;
        len += (matches!(c, Ordering::Less)) as usize;
        proof {
            assert forall|a: int, b: int| 0 <= a < b < len implies #[trigger] offsets@[a] < #[trigger] offsets@[b] by {
                if b < len0 {
                    assert(before[a] < before[b]);
                }
            }
            assert forall|k: int| 0 <= k < len implies #[trigger] offsets@[k] + (len - k) <= i + 1 by {
                if k < len0 {
                    assert(before[k] + (len0 - k) <= i);
                }
            }
            if is_total_order(*compare, order) {
                assert forall|j: int| 0 <= j < i + 1 implies (pending(offsets@, 0, len as int, j) <==> lt(order,
                    #[trigger] v@[top - 1 - j],
                    v@[p as int],
                )) by {
                    lemma_pending_push(before, 0, len0 as int, j, i as u8);
                }
            }
        }
        i += 1;
    }
    len
}

/// Exchanges the displaced elements recorded for the left block `[l, l +
/// block_l)` with those recorded for the right block that ends at `r`, pair by
/// pair, until one side runs out; returns the new starts of both records.
fn swap_displaced<T, F: Fn(&T, &T) -> Ordering>(
    v: &mut [T],
    l: usize,
    block_l: usize,
    offsets_l: &[u8; BLOCK],
    start_l: usize,
    len_l: usize,
    r: usize,
    block_r: usize,
    offsets_r: &[u8; BLOCK],
    start_r: usize,
    len_r: usize,
    p: usize,
    compare: &F,
    Ghost(order): Ghost<spec_fn(T, T) -> Ordering>,
) -> (starts: (usize, usize))
    requires
        p < l,
        l + block_l + block_r <= r <= old(v)@.len(),
        offsets_ok(offsets_l@, start_l as int, len_l as int, block_l as int),
        offsets_ok(offsets_r@, start_r as int, len_r as int, block_r as int),
        is_total_order(*compare, order) ==> left_claim(order,
            old(v)@,
            old(v)@[p as int],
            l as int,
            block_l as int,
            offsets_l@,
            start_l as int,
            len_l as int,
        ),
        is_total_order(*compare, order) ==> right_claim(order,
            old(v)@,
            old(v)@[p as int],
            r as int,
            block_r as int,
            offsets_r@,
            start_r as int,
            len_r as int,
        ),
    ensures
        frame(old(v)@, final(v)@, l as int, r as int),
        start_l <= starts.0 <= len_l,
        start_r <= starts.1 <= len_r,
        starts.0 == len_l || starts.1 == len_r,
        offsets_ok(offsets_l@, starts.0 as int, len_l as int, block_l as int),
        offsets_ok(offsets_r@, starts.1 as int, len_r as int, block_r as int),
        is_total_order(*compare, order) ==> left_claim(order,
            final(v)@,
            old(v)@[p as int],
            l as int,
            block_l as int,
            offsets_l@,
            starts.0 as int,
            len_l as int,
        ),
        is_total_order(*compare, order) ==> right_claim(order,
            final(v)@,
            old(v)@[p as int],
            r as int,
            block_r as int,
            offsets_r@,
            starts.1 as int,
            len_r as int,
        ),
{
    let ghost s0 = v@;
    let ghost pv = s0[p as int];
    proof {
        lemma_frame_refl(s0, l as int, r as int);
    }
    let count = if len_l - start_l < len_r - start_r {
        len_l - start_l
    } else {
        len_r - start_r
    };
    let mut sl = start_l;
    let mut sr = start_r;
    let mut k: usize = 0;
    while k < count
        invariant
            p < l,
            l + block_l + block_r <= r <= v@.len(),
            sl == start_l + k,
            sr == start_r + k,
            k <= count,
            count <= len_l - start_l,
            count <= len_r - start_r,
            count == len_l - start_l || count == len_r - start_r,
            frame(s0, v@, l as int, r as int),
            offsets_ok(offsets_l@, sl as int, len_l as int, block_l as int),
            offsets_ok(offsets_r@, sr as int, len_r as int, block_r as int),
            is_total_order(*compare, order) ==> left_claim(order, v@, pv, l as int, block_l as int, offsets_l@, sl as int, len_l as int),
            is_total_order(*compare, order) ==> right_claim(order, v@, pv, r as int, block_r as int, offsets_r@, sr as int, len_r as int),
        decreases count - k,
    {
        let ol = offsets_l[sl] as usize;
        let or = offsets_r[sr] as usize;
        proof {
            assert(offsets_l@[sl as int] + (len_l - sl) <= block_l);
            assert(offsets_r@[sr as int] + (len_r - sr) <= block_r);
        }
        let ghost before = v@;
        swap_in(v, Ghost(l as int), Ghost(r as int), l + ol, r - or - 1);
        proof {
            lemma_frame_trans(s0, before, v@, l as int, r as int);
            if is_total_order(*compare, order) {
                assert(pending(offsets_l@, sl as int, len_l as int, ol as int));
                assert(pending(offsets_r@, sr as int, len_r as int, or as int));
                assert(!lt(order, before[l + ol], pv));
                assert(lt(order, before[r - 1 - or], pv));
                assert forall|i: int| 0 <= i < block_l implies (pending(offsets_l@, sl + 1, len_l as int, i) <==> !lt(order,
                    #[trigger] v@[l + i],
                    pv,
                )) by {
                    lemma_pending_pop_front(offsets_l@, sl as int, len_l as int, block_l as int, i);
                    if i != ol {
                        assert(v@[l + i] == before[l + i]);
                    }
                }
                assert forall|i: int| 0 <= i < block_r implies (pending(offsets_r@, sr + 1, len_r as int, i) <==> lt(order,
                    #[trigger] v@[r - 1 - i],
                    pv,
                )) by {
                    lemma_pending_pop_front(offsets_r@, sr as int, len_r as int, block_r as int, i);
                    if i != or {
                        assert(v@[r - 1 - i] == before[r - 1 - i]);
                    }
                }
            }
        }
        sl += 1;
        sr += 1;
        k += 1;
    }
    (sl, sr)
}

/// Partitions `v[lo..hi]` into the elements that come before `v[p]`, followed
/// by the others, and returns how many come before it. The pivot `v[p]` lies
/// below the range.
pub(crate) fn partition_in_blocks<T, F: Fn(&T, &T) -> Ordering>(
    v: &mut [T],
    lo: usize,
    hi: usize,
    p: usize,
    compare: &F,
    Ghost(order): Ghost<spec_fn(T, T) -> Ordering>,
) -> (mid: usize)
    requires
        p < lo <= hi <= old(v)@.len(),
        callable(*compare),
    ensures
        mid <= hi - lo,
        frame(old(v)@, final(v)@, lo as int, hi as int),
        is_total_order(*compare, order) ==> forall|k: int|
            lo <= k < lo + mid ==> lt(order, #[trigger] final(v)@[k], old(v)@[p as int]),
        is_total_order(*compare, order) ==> forall|k: int|
            lo + mid <= k < hi ==> !lt(order, #[trigger] final(v)@[k], old(v)@[p as int]),
{
    let ghost s0 = v@;
    let ghost pv = s0[p as int];
    proof {
        lemma_frame_refl(s0, lo as int, hi as int);
    }
    let total = v.len();

    // State on the left side.
    let mut l: usize = lo;
    let mut len_l: usize = 0;
    let mut start_l: usize = 0;
    let mut block_l: usize = BLOCK;
    let mut offsets_l = [0u8; BLOCK];

    // State on the right side.
    let mut r: usize = hi;
    let mut len_r: usize = 0;
    let mut start_r: usize = 0;
    let mut block_r: usize = BLOCK;
    let mut offsets_r = [0u8; BLOCK];

    // Repeat until the two sides meet: find a few elements on the left that
    // do not come before the pivot, a few on the right that do, and exchange
    // them.
    let mut is_done = false;
    while !is_done
        invariant
            p < lo <= l <= r <= hi <= v@.len(),
            v@.len() == total,
            callable(*compare),
            frame(s0, v@, lo as int, hi as int),
            v@[p as int] == pv,
            block_l <= BLOCK,
            block_r <= BLOCK,
            offsets_l@.len() == BLOCK,
            offsets_r@.len() == BLOCK,
            !is_done ==> block_l == BLOCK && block_r == BLOCK,
            start_l <= len_l <= BLOCK,
            start_r <= len_r <= BLOCK,
            !(start_l < len_l && start_r < len_r),
            start_l < len_l ==> l + block_l <= r,
            start_r < len_r ==> l + block_r <= r,
            offsets_ok(offsets_l@, start_l as int, len_l as int, block_l as int),
            offsets_ok(offsets_r@, start_r as int, len_r as int, block_r as int),
            is_total_order(*compare, order) && start_l < len_l ==> left_claim(order,
                v@,
                pv,
                l as int,
                block_l as int,
                offsets_l@,
                start_l as int,
                len_l as int,
            ),
            is_total_order(*compare, order) && start_r < len_r ==> right_claim(order,
                v@,
                pv,
                r as int,
                block_r as int,
                offsets_r@,
                start_r as int,
                len_r as int,
            ),
            is_total_order(*compare, order) ==> forall|k: int| lo <= k < l ==> lt(order, #[trigger] v@[k], pv),
            is_total_order(*compare, order) ==> forall|k: int| r <= k < hi ==> !lt(order, #[trigger] v@[k], pv),
            is_done ==> (start_l < len_l ==> r == l + block_l),
            is_done ==> (start_r < len_r ==> l + block_r == r),
            is_done ==> (start_l == len_l && start_r == len_r ==> l == r),
        decreases r - l + (if is_done { 0int } else { 1int }),
    {
        // Once the two sides are close, partition what is left.
        is_done = r - l <= 2 * BLOCK;

        if is_done {
            // Number of elements not yet compared with the pivot.
            let rem = r - l - ((start_l < len_l || start_r < len_r) as usize) * BLOCK;

            if start_l < len_l {
                block_r = rem;
            } else if start_r < len_r {
                block_l = rem;
            } else {
                block_l = rem / 2;
                block_r = rem - block_l;
            }
        }
        assert(l + block_l + block_r <= r);

        if start_l == len_l {
            // Trace `block_l` elements from the left side.
            start_l = 0;
            len_l = scan_left(v, l, block_l, p, &mut offsets_l, compare, Ghost(order));
        }

        if start_r == len_r {
            // Trace `block_r` elements from the right side.
            start_r = 0;
            len_r = scan_right(v, r, block_r, p, &mut offsets_r, compare, Ghost(order));
        }

        // Exchange displaced elements between the two sides.
        let ghost before = v@;
        let starts = swap_displaced(
            v,
            l,
            block_l,
            &offsets_l,
            start_l,
            len_l,
            r,
            block_r,
            &offsets_r,
            start_r,
            len_r,
            p,
            compare,
            Ghost(order),
        );
        start_l = starts.0;
        start_r = starts.1;
        let ghost l0 = l;
        let ghost r0 = r;
        proof {
            lemma_frame_widen(before, v@, lo as int, hi as int, l as int, r as int);
            lemma_frame_trans(s0, before, v@, lo as int, hi as int);
        }

        if start_l == len_l {
            // The left block is used up: move the left bound past it.
            l += block_l;
        }

        if start_r == len_r {
            // The right block is used up: move the right bound before it.
            r -= block_r;
        }
        proof {
            if is_total_order(*compare, order) {
                assert forall|k: int| lo <= k < l implies lt(order, #[trigger] v@[k], pv) by {
                    if k >= l0 {
                        lemma_pending_empty(offsets_l@, len_l as int, k - l0);
                        assert(v@[l0 + (k - l0)] == v@[k]);
                    } else {
                        assert(v@[k] == before[k]);
                    }
                }
                assert forall|k: int| r <= k < hi implies !lt(order, #[trigger] v@[k], pv) by {
                    if k < r0 {
                        lemma_pending_empty(offsets_r@, len_r as int, r0 - 1 - k);
                        assert(v@[r0 - 1 - (r0 - 1 - k)] == v@[k]);
                    } else {
                        assert(v@[k] == before[k]);
                    }
                }
            }
        }
    }

    if start_l < len_l {
        // Move the remaining displaced elements of the left block to the far
        // right.
        while start_l < len_l
            invariant
                p < lo <= l <= r <= hi <= v@.len(),
                v@.len() == total,
                frame(s0, v@, lo as int, hi as int),
                v@[p as int] == pv,
                start_l <= len_l <= BLOCK,
                offsets_l@.len() == BLOCK,
                offsets_ok(offsets_l@, start_l as int, len_l as int, r - l),
                is_total_order(*compare, order) ==> left_claim(order,
                    v@,
                    pv,
                    l as int,
                    r - l,
                    offsets_l@,
                    start_l as int,
                    len_l as int,
                ),
                is_total_order(*compare, order) ==> forall|k: int| lo <= k < l ==> lt(order, #[trigger] v@[k], pv),
                is_total_order(*compare, order) ==> forall|k: int| r <= k < hi ==> !lt(order, #[trigger] v@[k], pv),
            decreases len_l,
        {
            len_l -= 1;
            let o = offsets_l[len_l] as usize;
            proof {
                assert(offsets_l@[len_l as int] + 1 <= r - l);
            }
            let ghost before = v@;
            swap_in(v, Ghost(lo as int), Ghost(hi as int), l + o, r - 1);
            proof {
                lemma_frame_trans(s0, before, v@, lo as int, hi as int);
                if is_total_order(*compare, order) {
                    let top = r - 1 - l;
                    lemma_pending_pop_back(offsets_l@, start_l as int, len_l + 1, r - l, o as int);
                    assert(!lt(order, before[l + o], pv));
                    if (o as int) < top {
                        lemma_pending_pop_back(offsets_l@, start_l as int, len_l + 1, r - l, top);
                        assert(lt(order, before[l + top], pv));
                    }
                    assert forall|i: int| 0 <= i < r - 1 - l implies (pending(offsets_l@, start_l as int, len_l as int, i) <==> !lt(order,
                        #[trigger] v@[l + i],
                        pv,
                    )) by {
                        lemma_pending_pop_back(offsets_l@, start_l as int, len_l + 1, r - l, i);
                        if i != o {
                            assert(v@[l + i] == before[l + i]);
                        }
                    }
                    assert forall|a: int, b: int| start_l <= a < b < len_l implies #[trigger] offsets_l@[a] < #[trigger] offsets_l@[b] by {
                    }
                }
            }
            r -= 1;
        }
        proof {
            if is_total_order(*compare, order) {
                assert forall|k: int| lo <= k < r implies lt(order, #[trigger] v@[k], pv) by {
                    if k >= l {
                        lemma_pending_empty(offsets_l@, len_l as int, k - l);
                        assert(v@[l + (k - l)] == v@[k]);
                    }
                }
            }
        }
        r - lo
    } else {
        // Move the remaining displaced elements of the right block to the far
        // left.
        while start_r < len_r
            invariant
                p < lo <= l <= r <= hi <= v@.len(),
                v@.len() == total,
                frame(s0, v@, lo as int, hi as int),
                v@[p as int] == pv,
                start_r <= len_r <= BLOCK,
                offsets_r@.len() == BLOCK,
                offsets_ok(offsets_r@, start_r as int, len_r as int, r - l),
                is_total_order(*compare, order) ==> right_claim(order,
                    v@,
                    pv,
                    r as int,
                    r - l,
                    offsets_r@,
                    start_r as int,
                    len_r as int,
                ),
                is_total_order(*compare, order) ==> forall|k: int| lo <= k < l ==> lt(order, #[trigger] v@[k], pv),
                is_total_order(*compare, order) ==> forall|k: int| r <= k < hi ==> !lt(order, #[trigger] v@[k], pv),
            decreases len_r,
        {
            len_r -= 1;
            let o = offsets_r[len_r] as usize;
            proof {
                assert(offsets_r@[len_r as int] + 1 <= r - l);
            }
            let ghost before = v@;
            swap_in(v, Ghost(lo as int), Ghost(hi as int), l, r - o - 1);
            proof {
                lemma_frame_trans(s0, before, v@, lo as int, hi as int);
                if is_total_order(*compare, order) {
                    let top = r - 1 - l;
                    lemma_pending_pop_back(offsets_r@, start_r as int, len_r + 1, r - l, o as int);
                    assert(lt(order, before[r - 1 - o], pv));
                    if (o as int) < top {
                        lemma_pending_pop_back(offsets_r@, start_r as int, len_r + 1, r - l, top);
                        assert(!lt(order, before[r - 1 - top], pv));
                    }
                    assert forall|i: int| 0 <= i < r - 1 - l implies (pending(offsets_r@, start_r as int, len_r as int, i) <==> lt(order,
                        #[trigger] v@[r - 1 - i],
                        pv,
                    )) by {
                        lemma_pending_pop_back(offsets_r@, start_r as int, len_r + 1, r - l, i);
                        if i != o {
                            assert(v@[r - 1 - i] == before[r - 1 - i]);
                        }
                    }
                }
            }
            l += 1;
        }
        proof {
            if is_total_order(*compare, order) {
                assert forall|k: int| l <= k < hi implies !lt(order, #[trigger] v@[k], pv) by {
                    if k < r {
                        lemma_pending_empty(offsets_r@, len_r as int, r - 1 - k);
                        assert(v@[r - 1 - (r - 1 - k)] == v@[k]);
                    }
                }
            }
        }
        l - lo
    }
}

} // verus!
