//! Exact numbers: what the results of the operations are where nothing is rounded.
//!
//! A law on numbers takes a function from the numbers of a type to the real numbers they stand
//! for, and asks that it is [`exact`].

use vstd::prelude::*;

use crate::number;
use crate::number::Number;
use crate::order;

verus! {

/// Whether every number stands for a real number, the operations compute with these without
/// rounding, and the order is theirs. Fractions of whole numbers are exact in this sense;
/// floating-point numbers are rounded.
pub open spec fn exact<E: Number>(value: spec_fn(E) -> real) -> bool {
    &&& forall|n: int| 0 <= n <= u32::MAX ==> value(#[trigger] number::small::<E>(n)) == n as real
    &&& forall|a: E, b: E| value(#[trigger] number::sum(a, b)) == value(a) + value(b)
    &&& forall|a: E, b: E| value(#[trigger] number::difference(a, b)) == value(a) - value(b)
    &&& forall|a: E, b: E| value(#[trigger] number::product(a, b)) == value(a) * value(b)
    &&& forall|a: E, b: E|
        value(b) != 0 as real ==> value(#[trigger] number::quotient(a, b)) * value(b) == value(a)
    &&& forall|a: E, b: E| #[trigger] order::above(a, b) <==> value(a) > value(b)
    &&& forall|a: E, b: E| #[trigger] order::reaches(a, b) <==> value(a) >= value(b)
    &&& forall|a: E, b: E| #[trigger] order::alike(a, b) <==> value(a) == value(b)
}

/// The number of a count stands for the count.
pub proof fn lemma_whole<E: Number>(value: spec_fn(E) -> real, n: int)
    requires
        exact(value),
        0 <= n <= u64::MAX,
    ensures
        value(number::whole::<E>(n)) == n as real,
{
    let high = n / 0x1_0000_0000;
    let low = n % 0x1_0000_0000;
    assert(0 <= high <= u32::MAX && 0 <= low <= u32::MAX);
    let a = number::small::<E>(0x1_0000);
    assert(0x1_0000int as real * 0x1_0000int as real == 0x1_0000_0000int as real);
    assert(value(number::product(a, a)) == 0x1_0000_0000int as real);
    assert(high as real * 0x1_0000_0000int as real == (high * 0x1_0000_0000) as real);
    assert((high * 0x1_0000_0000) as real + low as real == n as real);
}

/// The share that a count has of another, times the other, is the count.
pub proof fn lemma_share<E: Number>(value: spec_fn(E) -> real, part: int, total: int)
    requires
        exact(value),
        0 <= part <= u64::MAX,
        0 < total <= u64::MAX,
    ensures
        value(number::share::<E>(part, total)) * total as real == part as real,
{
    lemma_whole(value, part);
    lemma_whole(value, total);
}

/// The lower of two numbers is at most both, and one of them; so is the higher at least both.
pub proof fn lemma_extremes<E: Number>(value: spec_fn(E) -> real, a: E, b: E)
    requires
        exact(value),
    ensures
        value(order::lower(a, b)) <= value(a),
        value(order::lower(a, b)) <= value(b),
        value(order::lower(a, b)) == value(a) || value(order::lower(a, b)) == value(b),
        value(order::higher(a, b)) >= value(a),
        value(order::higher(a, b)) >= value(b),
        value(order::higher(a, b)) == value(a) || value(order::higher(a, b)) == value(b),
{
    assert(order::reaches(b, a) <==> value(b) >= value(a));
    assert(order::above(b, a) <==> value(b) > value(a));
}

/// Products of real numbers that are not negative are not negative.
pub proof fn lemma_product_sign(a: real, b: real)
    ensures
        a >= 0 as real && b >= 0 as real ==> a * b >= 0 as real,
        a > 0 as real && b > 0 as real ==> a * b > 0 as real,
{
    assert(a >= 0 as real && b >= 0 as real ==> a * b >= 0 as real) by (nonlinear_arith);
    assert(a > 0 as real && b > 0 as real ==> a * b > 0 as real) by (nonlinear_arith);
}

/// A factor that is not zero can be left out on both sides.
pub proof fn lemma_cancel(a: real, b: real, c: real)
    requires
        a * c == b * c,
        c != 0 as real,
    ensures
        a == b,
{
    lemma_distribute(c, a, b);
    assert((a - b) * c == 0 as real);
    if a > b {
        lemma_product_sign(a - b, c);
        lemma_product_sign(a - b, -c);
        lemma_opposite(a - b, c);
    } else if a < b {
        lemma_product_sign(b - a, c);
        lemma_product_sign(b - a, -c);
        lemma_opposite(b - a, c);
        lemma_distribute(c, b, a);
    }
}

/// A product with a sum is the sum of the products.
pub proof fn lemma_distribute(a: real, b: real, c: real)
    ensures
        a * (b + c) == a * b + a * c,
        (b + c) * a == b * a + c * a,
        a * (b - c) == a * b - a * c,
        (b - c) * a == b * a - c * a,
{
    assert(a * (b + c) == a * b + a * c) by (nonlinear_arith);
    assert((b + c) * a == b * a + c * a) by (nonlinear_arith);
    assert(a * (b - c) == a * b - a * c) by (nonlinear_arith);
    assert((b - c) * a == b * a - c * a) by (nonlinear_arith);
}

/// Factors can be taken in any order.
pub proof fn lemma_factors(a: real, b: real, c: real)
    ensures
        a * b == b * a,
        (a * b) * c == a * (b * c),
        (a * b) * c == (a * c) * b,
{
    assert(a * b == b * a) by (nonlinear_arith);
    assert((a * b) * c == a * (b * c)) by (nonlinear_arith);
    assert((a * b) * c == (a * c) * b) by (nonlinear_arith);
}

/// A positive factor keeps an order.
pub proof fn lemma_scale_order(a: real, b: real, c: real)
    requires
        c > 0 as real,
    ensures
        a <= b <==> a * c <= b * c,
        a < b <==> a * c < b * c,
{
    lemma_distribute(c, b, a);
    lemma_product_sign(b - a, c);
    lemma_product_sign(a - b, c);
    lemma_distribute(c, a, b);
}

/// Products with the opposite of a number, and with nothing and one.
pub proof fn lemma_opposite(a: real, b: real)
    ensures
        a * (-b) == -(a * b),
        (-a) * b == -(a * b),
        (-a) * (-b) == a * b,
        a * (0 as real) == 0 as real,
        (0 as real) * a == 0 as real,
        a * (1 as real) == a,
        (1 as real) * a == a,
{
    assert(a * (-b) == -(a * b)) by (nonlinear_arith);
    assert((-a) * b == -(a * b)) by (nonlinear_arith);
    assert((-a) * (-b) == a * b) by (nonlinear_arith);
    assert(a * (0 as real) == 0 as real) by (nonlinear_arith);
    assert((0 as real) * a == 0 as real) by (nonlinear_arith);
    assert(a * (1 as real) == a) by (nonlinear_arith);
    assert((1 as real) * a == a) by (nonlinear_arith);
}

/// Equal numbers have equal products.
pub proof fn lemma_substitute(a: real, b: real, c: real)
    requires
        a == b,
    ensures
        a * c == b * c,
        c * a == c * b,
{
}

/// A quotient by a positive number has the sign of what was divided.
pub proof fn lemma_quotient_sign(q: real, d: real, k: real)
    requires
        q * d == k,
        d > 0 as real,
    ensures
        q > 0 as real <==> k > 0 as real,
        q >= 0 as real <==> k >= 0 as real,
{
    lemma_scale_order(0 as real, q, d);
    lemma_opposite(d, q);
}

/// A part of a sum, times what it is a part of: `q` is the part `k` of `d`.
pub proof fn lemma_part_of_sum(b: real, q: real, r: real, d: real, k: real)
    requires
        q * d == k,
    ensures
        (b + q * r) * d == b * d + k * r,
{
    lemma_distribute(d, b, q * r);
    lemma_factors(q, r, d);
    lemma_substitute(q * d, k, r);
}

/// The product of two counts is the count of the product.
pub proof fn lemma_product_of_counts(a: int, b: int)
    requires
        0 <= b,
    ensures
        a as real * b as real == (a * b) as real,
    decreases b,
{
    lemma_opposite(a as real, 1 as real);
    if b > 0 {
        lemma_product_of_counts(a, b - 1);
        lemma_distribute(a as real, (b - 1) as real, 1 as real);
        assert((b - 1) as real + 1 as real == b as real);
        assert(a * (b - 1) == a * b - a) by (nonlinear_arith);
    } else {
        assert(a * 0 == 0);
    }
}

} // verus!
