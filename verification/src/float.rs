//! The numeric capability set of the transform engine.

use vstd::prelude::*;

verus! {

/// The arithmetic a sample type must offer: addition, multiplication,
/// negation, an additive identity, and the constant `1 / sqrt(2)` from
/// which the Haar filter coefficients are built.
///
/// Each executable operation is pinned to a specification-level twin, so
/// that the engine's contracts can speak about the exact value a transform
/// produces without fixing a concrete number representation.
pub trait Float: Sized + Copy {
    /// The meaning of addition for this type.
    spec fn add_spec(self, rhs: Self) -> Self;

    /// The meaning of multiplication for this type.
    spec fn mul_spec(self, rhs: Self) -> Self;

    /// The meaning of negation for this type.
    spec fn neg_spec(self) -> Self;

    /// The additive identity.
    spec fn zero_spec() -> Self;

    /// The value `1 / sqrt(2)`.
    spec fn frac_1_sqrt_2_spec() -> Self;

    /// Add two values.
    fn plus(self, rhs: Self) -> (r: Self)
        ensures
            r == self.add_spec(rhs),
    ;

    /// Multiply two values.
    fn times(self, rhs: Self) -> (r: Self)
        ensures
            r == self.mul_spec(rhs),
    ;

    /// Negate a value.
    fn negate(self) -> (r: Self)
        ensures
            r == self.neg_spec(),
    ;

    /// Return the additive identity.
    fn zero() -> (r: Self)
        ensures
            r == Self::zero_spec(),
    ;

    /// Return `1 / sqrt(2)`.
    fn frac_1_sqrt_2() -> (r: Self)
        ensures
            r == Self::frac_1_sqrt_2_spec(),
    ;

    /// The additive identity is neutral on the left, which is what lets a
    /// freshly zeroed scratch cell absorb an accumulated sum unchanged.
    proof fn add_zero_left(x: Self)
        ensures
            Self::zero_spec().add_spec(x) == x,
    ;
}

} // verus!
