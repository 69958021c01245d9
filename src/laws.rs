//! Laws that relate several sorts to each other.

use core::cmp::Ordering;
use vstd::prelude::*;
use crate::order::{order_laws, le, lemma_flip, lemma_le_trans, lemma_refl, sorted_by, sorted_range};
use crate::sort::sorts;

verus! {

broadcast use vstd::seq_lib::group_to_multiset_ensures;

/// Two elements are equivalent exactly when neither comes after the other.
proof fn lemma_equal_iff<T>(order: spec_fn(T, T) -> Ordering, a: T, b: T)
    requires
        order_laws(order),
    ensures
        order(a, b) == Ordering::Equal <==> le(order, a, b) && le(order, b, a),
{
    lemma_flip(order, a, b);
}

/// Neighbours in order make every pair in order.
proof fn lemma_sorted_pairs<T>(order: spec_fn(T, T) -> Ordering, s: Seq<T>)
    requires
        order_laws(order),
        sorted_by(order, s),
    ensures
        sorted_range(order, s, 0, s.len() as int),
    decreases s.len(),
{
    if s.len() >= 2 {
        let t = s.drop_last();
        assert forall|i: int| 0 <= i < t.len() - 1 implies #[trigger] order(t[i], t[i + 1])
            != Ordering::Greater by {
            assert(order(s[i], s[i + 1]) != Ordering::Greater);
        }
        lemma_sorted_pairs(order, t);
        let n = s.len() as int;
        assert forall|a: int, b: int| 0 <= a < b < n implies #[trigger] le(order, s[a], s[b]) by {
            if b < n - 1 {
                assert(le(order, t[a], t[b]));
            } else {
                assert(order(s[n - 2], s[(n - 2) + 1]) != Ordering::Greater);
                if a < n - 2 {
                    assert(le(order, t[a], t[n - 2]));
                    lemma_le_trans(order, s[a], s[n - 2], s[n - 1]);
                }
            }
        }
    }
}

/// Two ordered sequences with the same elements agree position by position,
/// up to equivalent elements.
proof fn lemma_sorted_equiv<T>(order: spec_fn(T, T) -> Ordering, x: Seq<T>, y: Seq<T>)
    requires
        order_laws(order),
        sorted_range(order, x, 0, x.len() as int),
        sorted_range(order, y, 0, y.len() as int),
        x.to_multiset() == y.to_multiset(),
    ensures
        x.len() == y.len(),
        forall|i: int| 0 <= i < x.len() ==> order(#[trigger] x[i], y[i]) == Ordering::Equal,
    decreases x.len(),
{
    assert(x.len() == x.to_multiset().len());
    assert(y.len() == y.to_multiset().len());
    let n = x.len() as int;
    if n == 0 {
        return;
    }
    assert(y.to_multiset().count(y[0]) > 0);
    assert(x.contains(y[0]));
    let j = choose|j: int| 0 <= j < n && x[j] == y[0];
    assert(x.to_multiset().count(x[0]) > 0);
    assert(y.contains(x[0]));
    let k = choose|k: int| 0 <= k < n && y[k] == x[0];
    if j > 0 {
        assert(le(order, x[0], x[j]));
    } else {
        lemma_refl(order, x[0]);
    }
    if k > 0 {
        assert(le(order, y[0], y[k]));
    } else {
        lemma_refl(order, y[0]);
    }
    lemma_equal_iff(order, x[0], y[0]);

    let x2 = x.remove(j);
    let y2 = y.remove(0);
    assert(x2.to_multiset() == x.to_multiset().remove(x[j]));
    assert(y2.to_multiset() == y.to_multiset().remove(y[0]));
    assert forall|a: int, b: int| 0 <= a < b < x2.len() implies #[trigger] le(order, x2[a], x2[b]) by {
        let a1 = if a < j { a } else { a + 1 };
        let b1 = if b < j { b } else { b + 1 };
        assert(le(order, x[a1], x[b1]));
    }
    assert forall|a: int, b: int| 0 <= a < b < y2.len() implies #[trigger] le(order, y2[a], y2[b]) by {
        assert(le(order, y[a + 1], y[b + 1]));
    }
    lemma_sorted_equiv(order, x2, y2);

    assert forall|i: int| 0 <= i < n implies order(#[trigger] x[i], y[i]) == Ordering::Equal by {
        if i > 0 {
            assert(order(x2[i - 1], y2[i - 1]) == Ordering::Equal);
            lemma_equal_iff(order, x2[i - 1], y2[i - 1]);
            lemma_equal_iff(order, x[i], y[i]);
            if i - 1 < j {
                // x[0] <= x[i - 1] <= x[i] <= x[j] = y[0], and y[0] is
                // equivalent to x[0]: the whole stretch is equivalent.
                assert(le(order, x[i - 1], x[i]));
                if i < j {
                    assert(le(order, x[i], x[j]));
                } else {
                    lemma_refl(order, x[i]);
                }
                lemma_le_trans(order, x[i], y[0], x[0]);
                if i - 1 > 0 {
                    assert(le(order, x[0], x[i - 1]));
                    lemma_le_trans(order, x[i], x[0], x[i - 1]);
                }
                lemma_le_trans(order, x[i], x[i - 1], y[i]);
                lemma_le_trans(order, y[i], x[i - 1], x[i]);
            }
        }
    }
}

/// Sorting what is already sorted changes nothing.
pub proof fn lemma_sort_idempotent<T>(
    order: spec_fn(T, T) -> Ordering,
    input: Seq<T>,
    once: Seq<T>,
    twice: Seq<T>,
)
    requires
        order_laws(order),
        sorts(order, input, once),
        sorts(order, once, twice),
    ensures
        twice == once,
{
}

/// Sorting by the reversed order gives the reverse of sorting by the order,
/// up to the order of equivalent elements: the two results hold the same
/// elements, and position by position the reverse of one is equivalent to
/// the other.
pub proof fn lemma_sort_reversed<T>(
    order: spec_fn(T, T) -> Ordering,
    reversed: spec_fn(T, T) -> Ordering,
    input: Seq<T>,
    forward: Seq<T>,
    backward: Seq<T>,
)
    requires
        order_laws(order),
        forall|a: T, b: T| #[trigger] reversed(a, b) == order(b, a),
        sorts(order, input, forward),
        sorts(reversed, input, backward),
    ensures
        backward.reverse().to_multiset() == forward.to_multiset(),
        sorted_by(order, backward.reverse()),
        backward.len() == forward.len(),
        forall|i: int|
            0 <= i < forward.len() ==> order(#[trigger] backward.reverse()[i], forward[i])
                == Ordering::Equal,
{
    let r = backward.reverse();
    let n = backward.len() as int;
    backward.lemma_reverse_to_multiset();
    assert forall|i: int| 0 <= i < r.len() - 1 implies #[trigger] order(r[i], r[i + 1]) != Ordering::Greater by {
        let k = n - 2 - i;
        assert(reversed(backward[k], backward[k + 1]) != Ordering::Greater);
        assert(r[i] == backward[k + 1]);
        assert(r[i + 1] == backward[k]);
    }
    lemma_sorted_pairs(order, r);
    lemma_sorted_pairs(order, forward);
    lemma_sorted_equiv(order, r, forward);
}

} // verus!
