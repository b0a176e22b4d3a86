//! Comparing the values that decisions are made by.
//!
//! Expected values and amounts are numbers of a type that the caller picks. The decisions only
//! compare them, by the order of that type.

use core::cmp::Ordering;
use vstd::prelude::*;
use vstd::std_specs::cmp::PartialOrdSpec;

verus! {

/// Whether the operators of the type follow its order.
pub open spec fn comparable<E: PartialOrd>() -> bool {
    E::obeys_partial_cmp_spec()
}

/// Whether one value is above another.
pub open spec fn above<E: PartialOrd>(a: E, b: E) -> bool {
    a.partial_cmp_spec(&b) == Some(Ordering::Greater)
}

/// Whether one value is above another or equal to it.
pub open spec fn reaches<E: PartialOrd>(a: E, b: E) -> bool {
    a.partial_cmp_spec(&b) == Some(Ordering::Greater) || a.partial_cmp_spec(&b) == Some(
        Ordering::Equal,
    )
}

/// Whether values are in linear order: of two of them one is above the other or they rank alike,
/// and being above and ranking alike carry over from one pair to the next. So are all numbers of
/// a floating-point type, without what is not a number.
pub open spec fn linear<E: PartialOrd>(values: Set<E>) -> bool {
    &&& forall|a: E, b: E|
        #![trigger above(a, b)]
        values.contains(a) && values.contains(b) && above(a, b) ==> !above(b, a)
    &&& forall|a: E, b: E, c: E|
        #![trigger above(a, b), above(b, c)]
        values.contains(a) && values.contains(b) && values.contains(c) && above(a, b) && above(b, c)
            ==> above(a, c)
    &&& forall|a: E, b: E, c: E|
        #![trigger above(a, b), above(b, c)]
        values.contains(a) && values.contains(b) && values.contains(c) && !above(a, b) && !above(
            b,
            c,
        ) ==> !above(a, c)
    &&& forall|a: E, b: E|
        #![trigger reaches(a, b)]
        values.contains(a) && values.contains(b) ==> (reaches(a, b) <==> !above(b, a))
}

/// The integers are in linear order.
pub proof fn lemma_integers_are_linear()
    ensures
        comparable::<i64>(),
        linear::<i64>(Set::full()),
{
}

/// Tells whether one value is above another.
pub fn is_above<E: Copy + PartialOrd>(a: E, b: E) -> (result: bool)
    ensures
        comparable::<E>() ==> result == above(a, b),
{
    a > b
}

/// Tells whether one value is above another or equal to it.
pub fn has_reached<E: Copy + PartialOrd>(a: E, b: E) -> (result: bool)
    ensures
        comparable::<E>() ==> result == reaches(a, b),
{
    a >= b
}

/// Whether two values rank alike.
pub open spec fn alike<E: PartialOrd>(a: E, b: E) -> bool {
    a.partial_cmp_spec(&b) == Some(Ordering::Equal)
}

/// Tells whether two values rank alike.
pub fn are_alike<E: Copy + PartialOrd>(a: E, b: E) -> (result: bool)
    ensures
        comparable::<E>() ==> result == alike(a, b),
{
    has_reached(a, b) && !is_above(a, b)
}

/// The lower of two values, the first where they rank alike.
pub open spec fn lower<E: PartialOrd>(a: E, b: E) -> E {
    if reaches(b, a) {
        a
    } else {
        b
    }
}

/// Picks the lower of two values, the first where they rank alike.
pub fn lower_of<E: Copy + PartialOrd>(a: E, b: E) -> (result: E)
    ensures
        comparable::<E>() ==> result == lower(a, b),
{
    if has_reached(b, a) {
        a
    } else {
        b
    }
}

/// The higher of two values, the first where they rank alike.
pub open spec fn higher<E: PartialOrd>(a: E, b: E) -> E {
    if above(b, a) {
        b
    } else {
        a
    }
}

/// Picks the higher of two values, the first where they rank alike.
pub fn higher_of<E: Copy + PartialOrd>(a: E, b: E) -> (result: E)
    ensures
        comparable::<E>() ==> result == higher(a, b),
{
    if is_above(b, a) {
        b
    } else {
        a
    }
}

/// The position of the largest of the first values, the earliest where several rank alike.
pub open spec fn first_best<E: PartialOrd>(values: Seq<E>, count: int) -> int
    decreases count,
{
    if count <= 1 {
        0
    } else {
        let best = first_best(values, count - 1);
        if above(values[count - 1], values[best]) {
            count - 1
        } else {
            best
        }
    }
}

/// The first best position lies among the first values.
pub proof fn lemma_first_best_in_range<E: PartialOrd>(values: Seq<E>, count: int)
    requires
        0 < count <= values.len(),
    ensures
        0 <= first_best(values, count) < count,
    decreases count,
{
    if count > 1 {
        lemma_first_best_in_range(values, count - 1);
    }
}

/// In a linear order no value is above the one at the first best position, and that one is
/// above every value before it.
pub proof fn lemma_first_best_is_the_maximum<E: PartialOrd>(
    values: Seq<E>,
    count: int,
    ordered: Set<E>,
)
    requires
        0 < count <= values.len(),
        linear(ordered),
        forall|i: int| 0 <= i < count ==> ordered.contains(#[trigger] values[i]),
    ensures
        0 <= first_best(values, count) < count,
        forall|i: int|
            #![trigger values[i]]
            0 <= i < count ==> !above(values[i], values[first_best(values, count)]),
        forall|i: int|
            #![trigger values[i]]
            0 <= i < first_best(values, count) ==> above(
                values[first_best(values, count)],
                values[i],
            ),
    decreases count,
{
    if count > 1 {
        lemma_first_best_is_the_maximum(values, count - 1, ordered);
        let best = first_best(values, count - 1);
        let last = values[count - 1];
        let now = first_best(values, count);
        assert forall|i: int| #![trigger values[i]] 0 <= i < count implies !above(
            values[i],
            values[now],
        ) by {
            if i < count - 1 {
                assert(!above(values[i], values[best]));
                if above(last, values[best]) {
                    assert(!above(values[best], last));
                }
            } else if now == count - 1 {
                if above(last, last) {
                    assert(!above(last, last));
                }
            }
        }
        assert forall|i: int| #![trigger values[i]] 0 <= i < now implies above(
            values[now],
            values[i],
        ) by {
            if now == count - 1 {
                assert(above(last, values[best]));
                assert(!above(values[i], values[best]));
                if !above(last, values[i]) {
                    assert(!above(last, values[i]) && !above(values[i], values[best]));
                    assert(!above(last, values[best]));
                }
            }
        }
    }
}

} // verus!
