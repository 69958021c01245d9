//! Index ranges of a slice that are permuted in place, and the one primitive
//! that moves elements: exchanging two of them.

use vstd::prelude::*;
use vstd::seq_lib::lemma_multiset_commutative;

verus! {

broadcast use vstd::seq_lib::group_to_multiset_ensures;

/// `s` with the elements at `i` and `j` exchanged.
pub open spec fn swapped<T>(s: Seq<T>, i: int, j: int) -> Seq<T> {
    s.update(i, s[j]).update(j, s[i])
}

/// `after` is `before` with only `[lo, hi)` rearranged: the elements inside
/// the range are the same multiset, those outside stay where they were.
pub open spec fn frame<T>(before: Seq<T>, after: Seq<T>, lo: int, hi: int) -> bool {
    &&& after.len() == before.len()
    &&& forall|k: int| 0 <= k < before.len() && !(lo <= k < hi) ==> after[k] == before[k]
    &&& after.subrange(lo, hi).to_multiset() == before.subrange(lo, hi).to_multiset()
}

/// Relies on `<[T]>::swap`: the elements at `i` and `j` trade places (it
/// panics when either index is out of bounds).
#[verifier::external_body]
fn slice_swap<T>(v: &mut [T], i: usize, j: usize)
    requires
        i < old(v)@.len(),
        j < old(v)@.len(),
    ensures
        final(v)@ == swapped(old(v)@, i as int, j as int),
{
    v.swap(i, j);
}

/// Exchanges `v[i]` and `v[j]`, both inside `[lo, hi)`.
pub(crate) fn swap_in<T>(v: &mut [T], Ghost(lo): Ghost<int>, Ghost(hi): Ghost<int>, i: usize, j: usize)
    requires
        0 <= lo <= i < hi <= old(v)@.len(),
        lo <= j < hi,
    ensures
        final(v)@ == swapped(old(v)@, i as int, j as int),
        frame(old(v)@, final(v)@, lo, hi),
{
    proof {
        lemma_swap_frame(v@, lo, hi, i as int, j as int);
    }
    slice_swap(v, i, j);
}

proof fn lemma_update_multiset<T>(s: Seq<T>, i: int, a: T)
    requires
        0 <= i < s.len(),
    ensures
        s.update(i, a).to_multiset() == s.to_multiset().insert(a).remove(s[i]),
{
}

pub proof fn lemma_swap_frame<T>(s: Seq<T>, lo: int, hi: int, i: int, j: int)
    requires
        0 <= lo <= i < hi <= s.len(),
        lo <= j < hi,
    ensures
        frame(s, swapped(s, i, j), lo, hi),
{
    let t = s.subrange(lo, hi);
    let w = swapped(s, i, j);
    assert(w.subrange(lo, hi) =~= swapped(t, i - lo, j - lo));
    if i != j {
        let t1 = t.update(i - lo, t[j - lo]);
        lemma_update_multiset(t, i - lo, t[j - lo]);
        lemma_update_multiset(t1, j - lo, t[i - lo]);
        assert(t1[j - lo] == t[j - lo]);
        assert(t.to_multiset().count(t[i - lo]) > 0);
        assert(t.to_multiset().count(t[j - lo]) > 0);
        assert(swapped(t, i - lo, j - lo).to_multiset() =~= t.to_multiset());
    } else {
        assert(swapped(t, i - lo, j - lo) =~= t);
    }
}

pub proof fn lemma_frame_refl<T>(s: Seq<T>, lo: int, hi: int)
    ensures
        frame(s, s, lo, hi),
{
}

pub proof fn lemma_frame_trans<T>(a: Seq<T>, b: Seq<T>, c: Seq<T>, lo: int, hi: int)
    requires
        frame(a, b, lo, hi),
        frame(b, c, lo, hi),
    ensures
        frame(a, c, lo, hi),
{
}

/// A frame over a range is a frame over any range around it.
pub proof fn lemma_frame_widen<T>(a: Seq<T>, b: Seq<T>, lo: int, hi: int, lo2: int, hi2: int)
    requires
        0 <= lo <= lo2 <= hi2 <= hi <= a.len(),
        frame(a, b, lo2, hi2),
    ensures
        frame(a, b, lo, hi),
{
    assert(a.subrange(lo, hi) =~= a.subrange(lo, lo2) + a.subrange(lo2, hi2) + a.subrange(hi2, hi));
    assert(b.subrange(lo, hi) =~= b.subrange(lo, lo2) + b.subrange(lo2, hi2) + b.subrange(hi2, hi));
    assert(a.subrange(lo, lo2) =~= b.subrange(lo, lo2));
    assert(a.subrange(hi2, hi) =~= b.subrange(hi2, hi));
    lemma_multiset_commutative(a.subrange(lo, lo2) + a.subrange(lo2, hi2), a.subrange(hi2, hi));
    lemma_multiset_commutative(a.subrange(lo, lo2), a.subrange(lo2, hi2));
    lemma_multiset_commutative(b.subrange(lo, lo2) + b.subrange(lo2, hi2), b.subrange(hi2, hi));
    lemma_multiset_commutative(b.subrange(lo, lo2), b.subrange(lo2, hi2));
}

/// Every element inside a framed range came from somewhere inside it.
pub proof fn lemma_frame_source<T>(a: Seq<T>, b: Seq<T>, lo: int, hi: int, k: int) -> (j: int)
    requires
        0 <= lo <= k < hi <= a.len(),
        frame(a, b, lo, hi),
    ensures
        lo <= j < hi,
        a[j] == b[k],
{
    let sa = a.subrange(lo, hi);
    let sb = b.subrange(lo, hi);
    assert(sb[k - lo] == b[k]);
    assert(sb.contains(b[k]));
    assert(sa.to_multiset().count(b[k]) > 0);
    assert(sa.contains(b[k]));
    let jj = choose|jj: int| 0 <= jj < sa.len() && sa[jj] == b[k];
    lo + jj
}

/// What holds of every element inside a framed range still holds after it.
pub proof fn lemma_frame_keeps<T>(a: Seq<T>, b: Seq<T>, lo: int, hi: int, prop: spec_fn(T) -> bool)
    requires
        0 <= lo <= hi <= a.len(),
        frame(a, b, lo, hi),
        forall|k: int| lo <= k < hi ==> prop(#[trigger] a[k]),
    ensures
        forall|k: int| lo <= k < hi ==> prop(#[trigger] b[k]),
{
    assert forall|k: int| lo <= k < hi implies prop(#[trigger] b[k]) by {
        let j = lemma_frame_source(a, b, lo, hi, k);
        assert(prop(a[j]));
    }
}

/// A frame of the whole sequence keeps its multiset of elements.
pub proof fn lemma_frame_whole<T>(a: Seq<T>, b: Seq<T>)
    requires
        frame(a, b, 0, a.len() as int),
    ensures
        b.to_multiset() == a.to_multiset(),
{
    assert(a.subrange(0, a.len() as int) =~= a);
    assert(b.subrange(0, b.len() as int) =~= b);
}

} // verus!
