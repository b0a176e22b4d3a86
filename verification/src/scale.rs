//! The numbers that amounts and fractions are checked against.

use vstd::prelude::*;

use crate::order;

verus! {

/// The numbers that amounts and fractions are checked against.
#[derive(Debug, Clone, Copy, PartialEq, Eq)]
pub struct Scale<E> {
    /// The least finite number.
    pub least: E,
    pub zero: E,
    pub one: E,
    /// The largest finite number.
    pub largest: E,
}

impl<E: Copy + PartialOrd> Scale<E> {
    /// Whether a number is finite.
    pub open spec fn finite(self, value: E) -> bool {
        order::reaches(value, self.least) && order::reaches(self.largest, value)
    }

    /// Whether a number is finite and at least zero.
    pub open spec fn amount(self, value: E) -> bool {
        order::reaches(value, self.zero) && order::reaches(self.largest, value)
    }

    /// Whether a number is finite and above zero.
    pub open spec fn positive(self, value: E) -> bool {
        order::above(value, self.zero) && order::reaches(self.largest, value)
    }

    /// Whether a number is a fraction of one.
    pub open spec fn fraction(self, value: E) -> bool {
        order::reaches(value, self.zero) && order::reaches(self.one, value)
    }

    /// Tells whether a number is finite.
    pub fn is_finite(self, value: E) -> (result: bool)
        ensures
            order::comparable::<E>() ==> result == self.finite(value),
    {
        order::has_reached(value, self.least) && order::has_reached(self.largest, value)
    }

    /// Tells whether a number is finite and at least zero.
    pub fn is_amount(self, value: E) -> (result: bool)
        ensures
            order::comparable::<E>() ==> result == self.amount(value),
    {
        order::has_reached(value, self.zero) && order::has_reached(self.largest, value)
    }

    /// Tells whether a number is finite and above zero.
    pub fn is_positive(self, value: E) -> (result: bool)
        ensures
            order::comparable::<E>() ==> result == self.positive(value),
    {
        order::is_above(value, self.zero) && order::has_reached(self.largest, value)
    }

    /// Tells whether a number is a fraction of one.
    pub fn is_fraction(self, value: E) -> (result: bool)
        ensures
            order::comparable::<E>() ==> result == self.fraction(value),
    {
        order::has_reached(value, self.zero) && order::has_reached(self.one, value)
    }
}

} // verus!
