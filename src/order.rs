//! What a comparator means: the order it follows, and the laws of a total
//! order.

use core::cmp::Ordering;
use vstd::prelude::*;

verus! {

/// `a` does not come after `b`.
pub open spec fn le<T>(order: spec_fn(T, T) -> Ordering, a: T, b: T) -> bool {
    order(a, b) != Ordering::Greater
}

/// `a` comes strictly before `b`.
pub open spec fn lt<T>(order: spec_fn(T, T) -> Ordering, a: T, b: T) -> bool {
    order(a, b) == Ordering::Less
}

/// The ordering seen from the other side.
pub open spec fn flip(o: Ordering) -> Ordering {
    match o {
        Ordering::Less => Ordering::Greater,
        Ordering::Equal => Ordering::Equal,
        Ordering::Greater => Ordering::Less,
    }
}

/// The pairs of `s` inside `[lo, hi)` are in order.
pub open spec fn sorted_range<T>(order: spec_fn(T, T) -> Ordering, s: Seq<T>, lo: int, hi: int) -> bool {
    forall|i: int, j: int| lo <= i < j < hi ==> #[trigger] le(order, s[i], s[j])
}

/// No element of `s` comes after its successor.
pub open spec fn sorted_by<T>(order: spec_fn(T, T) -> Ordering, s: Seq<T>) -> bool {
    forall|i: int| 0 <= i < s.len() - 1 ==> #[trigger] order(s[i], s[i + 1]) != Ordering::Greater
}

/// `compare` may be called on any two elements.
pub open spec fn callable<T, F: Fn(&T, &T) -> Ordering>(compare: F) -> bool {
    forall|a: T, b: T| #[trigger] compare.requires((&a, &b))
}

/// Every answer of `compare` is the one `order` gives.
pub open spec fn agrees<T, F: Fn(&T, &T) -> Ordering>(compare: F, order: spec_fn(T, T) -> Ordering) -> bool {
    forall|a: T, b: T, o: Ordering| #[trigger] compare.ensures((&a, &b), o) ==> o == order(a, b)
}

/// `order` is antisymmetric and transitive.
#[verifier::opaque]
pub open spec fn order_laws<T>(order: spec_fn(T, T) -> Ordering) -> bool {
    &&& forall|a: T, b: T| #[trigger] order(b, a) == flip(order(a, b))
    &&& forall|a: T, b: T, c: T| #[trigger] le(order, a, b) && #[trigger] le(order, b, c) ==> le(order, a, c)
}

/// `compare` can always be called and follows the total order `order`.
pub open spec fn is_total_order<T, F: Fn(&T, &T) -> Ordering>(compare: F, order: spec_fn(T, T) -> Ordering) -> bool {
    &&& callable(compare)
    &&& agrees(compare, order)
    &&& order_laws(order)
}

/// `compare` follows some total order.
pub open spec fn follows_total_order<T, F: Fn(&T, &T) -> Ordering>(compare: F) -> bool {
    exists|order: spec_fn(T, T) -> Ordering| is_total_order(compare, order)
}

/// Whatever `compare` answers for two neighbours of `s`, it is never
/// `Greater`.
pub open spec fn answers_in_order<T, F: Fn(&T, &T) -> Ordering>(compare: F, s: Seq<T>) -> bool {
    forall|i: int, o: Ordering|
        0 <= i < s.len() - 1 && #[trigger] compare.ensures((&s[i], &s[i + 1]), o) ==> o != Ordering::Greater
}

pub proof fn lemma_flip<T>(order: spec_fn(T, T) -> Ordering, a: T, b: T)
    requires
        order_laws(order),
    ensures
        order(b, a) == flip(order(a, b)),
        lt(order, a, b) <==> !le(order, b, a),
        le(order, a, b) || le(order, b, a),
{
    reveal(order_laws);
    assert(order(b, a) == flip(order(a, b)));
}

pub proof fn lemma_refl<T>(order: spec_fn(T, T) -> Ordering, a: T)
    requires
        order_laws(order),
    ensures
        order(a, a) == Ordering::Equal,
{
    lemma_flip(order, a, a);
}

pub proof fn lemma_le_trans<T>(order: spec_fn(T, T) -> Ordering, a: T, b: T, c: T)
    requires
        order_laws(order),
        le(order, a, b),
        le(order, b, c),
    ensures
        le(order, a, c),
{
    reveal(order_laws);
    assert(le(order, a, b) && le(order, b, c));
}

pub proof fn lemma_lt_le_trans<T>(order: spec_fn(T, T) -> Ordering, a: T, b: T, c: T)
    requires
        order_laws(order),
        lt(order, a, b),
        le(order, b, c),
    ensures
        lt(order, a, c),
{
    lemma_flip(order, a, b);
    lemma_flip(order, a, c);
    if !lt(order, a, c) {
        lemma_le_trans(order, b, c, a);
    }
}

} // verus!
