//! The arithmetic that expected values, probabilities and amounts are computed with.
//!
//! The numbers are of a type that the caller picks, such as a floating-point type: it has the
//! four operations and an order, and every small count has a number in it. A function that
//! computes with such numbers asks that [`arithmetic`] holds of the type; its contract then
//! says which operations it applies to which operands, in which order.

use core::ops::{Add, Div, Mul, Sub};
use vstd::prelude::*;
use vstd::std_specs::convert::FromSpec;
use vstd::std_specs::ops::{AddSpec, DivSpec, MulSpec, SubSpec};

use crate::order;

verus! {

/// A type of numbers.
pub trait Number: Copy + PartialOrd + Add<Output = Self> + Sub<Output = Self> + Mul<
    Output = Self,
> + Div<Output = Self> + From<u32> {

}

impl<T> Number for T where
    T: Copy + PartialOrd + Add<Output = T> + Sub<Output = T> + Mul<Output = T> + Div<
        Output = T,
    > + From<u32>,
 {

}

/// Whether the operations of a type have a result for all operands, which depends on the
/// operands alone, and its operators follow its order.
pub open spec fn arithmetic<E: Number>() -> bool {
    &&& order::comparable::<E>()
    &&& E::obeys_add_spec()
    &&& E::obeys_sub_spec()
    &&& E::obeys_mul_spec()
    &&& E::obeys_div_spec()
    &&& <E as FromSpec<u32>>::obeys_from_spec()
    &&& forall|a: E, b: E| #[trigger] a.add_req(b)
    &&& forall|a: E, b: E| #[trigger] a.sub_req(b)
    &&& forall|a: E, b: E| #[trigger] a.mul_req(b)
    &&& forall|a: E, b: E| #[trigger] a.div_req(b)
}

/// The sum of two numbers.
pub open spec fn sum<E: Number>(a: E, b: E) -> E {
    a.add_spec(b)
}

/// The difference of two numbers.
pub open spec fn difference<E: Number>(a: E, b: E) -> E {
    a.sub_spec(b)
}

/// The product of two numbers.
pub open spec fn product<E: Number>(a: E, b: E) -> E {
    a.mul_spec(b)
}

/// The quotient of two numbers.
pub open spec fn quotient<E: Number>(a: E, b: E) -> E {
    a.div_spec(b)
}

/// The number of a small count.
pub open spec fn small<E: Number>(count: int) -> E {
    E::from_spec(count as u32)
}

/// The number of a count, put together from its two halves.
pub open spec fn whole<E: Number>(count: int) -> E {
    sum(
        product(
            small::<E>(count / 0x1_0000_0000),
            product(small::<E>(0x1_0000), small::<E>(0x1_0000)),
        ),
        small::<E>(count % 0x1_0000_0000),
    )
}

/// Whether the operations are exact: what is divided comes back when it is multiplied, a product
/// with a sum is the sum of products, and signs multiply. Fractions of whole numbers are exact;
/// floating-point numbers are rounded.
pub open spec fn exact<E: Number>() -> bool {
    let zero = small::<E>(0);
    &&& order::linear::<E>(Set::full())
    &&& forall|a: E| #[trigger] product(a, small::<E>(1)) == a
    &&& forall|a: E| #[trigger] product(zero, a) == zero
    &&& forall|a: E, b: E, c: E| #[trigger]
        product(sum(a, b), c) == sum(product(a, c), product(b, c))
    &&& forall|a: E, b: E|
        order::above(b, zero) ==> product(b, #[trigger] quotient(a, b)) == a
    &&& forall|a: E, b: E|
        order::above(a, zero) ==> (order::above(#[trigger] product(a, b), zero) <==> order::above(
            b,
            zero,
        ))
}

/// Whether the order of two summands does not matter.
#[verifier::opaque]
pub open spec fn sums_commute<E: Number>() -> bool {
    forall|a: E, b: E| #[trigger] sum(a, b) == sum(b, a)
}

/// Whether summands can be taken together in any way.
#[verifier::opaque]
pub open spec fn sums_associate<E: Number>() -> bool {
    forall|a: E, b: E, c: E| #[trigger] sum(sum(a, b), c) == sum(a, sum(b, c))
}

/// Whether differences undo sums, and zero adds nothing.
#[verifier::opaque]
pub open spec fn differences_undo<E: Number>() -> bool {
    &&& forall|a: E| #[trigger] sum(a, small::<E>(0)) == a
    &&& forall|a: E, b: E| sum(#[trigger] difference(a, b), b) == a
    &&& forall|a: E, b: E| #[trigger] difference(sum(a, b), b) == a
}

/// Whether numbers that rank alike are equal.
#[verifier::opaque]
pub open spec fn alike_is_equal<E: Number>() -> bool {
    forall|a: E, b: E| !order::above(a, b) && !(#[trigger] order::above(b, a)) ==> a == b
}

/// Whether sums are exact: they can be taken in any order, differences undo them, and numbers
/// that rank alike are equal. Floating-point numbers are rounded.
pub open spec fn exact_sums<E: Number>() -> bool {
    &&& sums_commute::<E>()
    &&& sums_associate::<E>()
    &&& differences_undo::<E>()
    &&& alike_is_equal::<E>()
}

/// Gives the number of a count.
pub fn number_of<E: Number>(count: u64) -> (number: E)
    requires
        arithmetic::<E>(),
    ensures
        number == whole::<E>(count as int),
{
    let high: u32 = (count / 0x1_0000_0000) as u32;
    let low: u32 = (count % 0x1_0000_0000) as u32;
    let unit: E = E::from(0x1_0000u32) * E::from(0x1_0000u32);
    E::from(high) * unit + E::from(low)
}

/// The share that one count has of another.
pub open spec fn share<E: Number>(part: int, total: int) -> E {
    quotient(whole::<E>(part), whole::<E>(total))
}

/// Gives the share that one count has of another.
pub fn share_of<E: Number>(part: u64, total: u64) -> (share: E)
    requires
        arithmetic::<E>(),
    ensures
        share == self::share::<E>(part as int, total as int),
{
    number_of::<E>(part) / number_of::<E>(total)
}

proof fn lemma_commute<E: Number>(a: E, b: E)
    requires
        sums_commute::<E>(),
    ensures
        sum(a, b) == sum(b, a),
{
    reveal(sums_commute);
}

proof fn lemma_associate<E: Number>(a: E, b: E, c: E)
    requires
        sums_associate::<E>(),
    ensures
        sum(sum(a, b), c) == sum(a, sum(b, c)),
{
    reveal(sums_associate);
}

/// Exact differences undo sums, and zero adds nothing.
pub proof fn lemma_difference_undoes<E: Number>(a: E, b: E)
    requires
        exact_sums::<E>(),
    ensures
        sum(a, small::<E>(0)) == a,
        sum(small::<E>(0), a) == a,
        sum(difference(a, b), b) == a,
        difference(sum(a, b), b) == a,
        difference(sum(b, a), b) == a,
{
    assert(sum(a, small::<E>(0)) == a && sum(difference(a, b), b) == a && difference(sum(a, b), b)
        == a) by {
        reveal(differences_undo);
    }
    lemma_commute(a, b);
    lemma_commute(a, small::<E>(0));
}

/// What is added last to an exact sum can be added first.
pub proof fn lemma_sums_swap<E: Number>(a: E, b: E, c: E)
    requires
        exact_sums::<E>(),
    ensures
        sum(sum(a, b), c) == sum(sum(a, c), b),
        sum(sum(a, b), c) == sum(a, sum(b, c)),
{
    lemma_associate(a, b, c);
    lemma_associate(a, c, b);
    lemma_commute(b, c);
}

/// Exact sums of two sums can be taken crosswise.
pub proof fn lemma_sums_cross<E: Number>(a: E, b: E, c: E, d: E)
    requires
        exact_sums::<E>(),
    ensures
        sum(sum(a, b), sum(c, d)) == sum(sum(a, c), sum(b, d)),
{
    lemma_associate(a, b, sum(c, d));
    lemma_associate(b, c, d);
    lemma_commute(b, c);
    lemma_associate(c, b, d);
    lemma_associate(a, c, sum(b, d));
}

/// An exact difference grows with what is added to it.
pub proof fn lemma_difference_grows<E: Number>(a: E, b: E, x: E)
    requires
        exact_sums::<E>(),
    ensures
        difference(sum(a, x), b) == sum(difference(a, b), x),
        difference(a, sum(b, difference(small::<E>(0), x))) == sum(difference(a, b), x),
{
    let d = difference(a, b);
    let y = difference(small::<E>(0), x);
    lemma_difference_undoes(a, b);
    lemma_difference_undoes(small::<E>(0), x);
    lemma_commute(x, y);
    lemma_sums_swap(d, x, b);
    lemma_sums_cross(d, x, b, y);
    lemma_difference_undoes(sum(d, x), b);
    lemma_difference_undoes(sum(d, x), sum(b, y));
}

} // verus!
