//! Discrete wavelet transform.
//!
//! The transform decomposes a sample buffer into approximation and detail
//! coefficients (forward) or reconstructs the samples from them (inverse),
//! in place, over a caller-chosen number of resolution levels.

use vstd::prelude::*;
use vstd::arithmetic::power2::pow2;

pub mod fixed;
pub mod float;
pub mod transform;
pub mod wavelet;

pub use transform::Transform;

use crate::float::Float;
use crate::transform::{fits, forward_levels, inverse_levels, transform_spec};
use crate::wavelet::Wavelet;

verus! {

/// A transform operation.
#[derive(Clone, Copy, Debug, Eq, PartialEq, Structural)]
pub enum Operation {
    /// The forward transform.
    Forward,
    /// The inverse transform.
    Inverse,
}

/// A transform error.
#[derive(Clone, Copy, Debug, Eq, PartialEq, Structural)]
pub enum Error {
    /// The number of points is not divisible by two to the power of the
    /// level count.
    InvalidLength,
    /// A wavelet descriptor whose filters do not match its tap count or
    /// whose offset exceeds it.
    InvalidWavelet,
}

/// Perform the transform.
///
/// The function is a shortcut for `Transform::transform`.
pub fn transform<T: Float>(
    data: &mut Vec<T>,
    operation: Operation,
    wavelet: &Wavelet<T>,
    level: usize,
) -> (r: Result<(), Error>)
    requires
        (level > 0 && wavelet@.valid() && old(data)@.len() as int % (pow2(level as nat) as int)
            == 0) ==> fits(wavelet@.length as int, old(data)@.len() as int),
    ensures
        final(data).len() == old(data).len(),
        level == 0 ==> r == Ok::<(), Error>(()) && final(data)@ == old(data)@,
        level > 0 && old(data)@.len() as int % (pow2(level as nat) as int) != 0 ==> r == Err::<
            (),
            Error,
        >(Error::InvalidLength) && final(data)@ == old(data)@,
        level > 0 && old(data)@.len() as int % (pow2(level as nat) as int) == 0
            && !wavelet@.valid() ==> r == Err::<(), Error>(Error::InvalidWavelet) && final(data)@
            == old(data)@,
        level > 0 && old(data)@.len() as int % (pow2(level as nat) as int) == 0
            && wavelet@.valid() ==> r == Ok::<(), Error>(()) && final(data)@ == transform_spec(
            operation,
            wavelet@,
            old(data)@,
            level as int,
        ),
{
    Transform::transform(data, operation, wavelet, level)
}

/// Perform the forward transform: decompose the samples into approximation
/// and detail coefficients.
pub fn forward<T: Float>(data: &mut Vec<T>, wavelet: &Wavelet<T>, level: usize) -> (r: Result<
    (),
    Error,
>)
    requires
        (level > 0 && wavelet@.valid() && old(data)@.len() as int % (pow2(level as nat) as int)
            == 0) ==> fits(wavelet@.length as int, old(data)@.len() as int),
    ensures
        final(data).len() == old(data).len(),
        level == 0 ==> r == Ok::<(), Error>(()) && final(data)@ == old(data)@,
        level > 0 && old(data)@.len() as int % (pow2(level as nat) as int) != 0 ==> r == Err::<
            (),
            Error,
        >(Error::InvalidLength) && final(data)@ == old(data)@,
        level > 0 && old(data)@.len() as int % (pow2(level as nat) as int) == 0
            && !wavelet@.valid() ==> r == Err::<(), Error>(Error::InvalidWavelet) && final(data)@
            == old(data)@,
        level > 0 && old(data)@.len() as int % (pow2(level as nat) as int) == 0
            && wavelet@.valid() ==> r == Ok::<(), Error>(()) && final(data)@ == forward_levels(
            wavelet@,
            old(data)@,
            old(data)@.len() as int,
            level as int,
        ),
{
    transform(data, Operation::Forward, wavelet, level)
}

/// Perform the inverse transform: reconstruct the samples from the
/// approximation and detail coefficients.
pub fn inverse<T: Float>(data: &mut Vec<T>, wavelet: &Wavelet<T>, level: usize) -> (r: Result<
    (),
    Error,
>)
    requires
        (level > 0 && wavelet@.valid() && old(data)@.len() as int % (pow2(level as nat) as int)
            == 0) ==> fits(wavelet@.length as int, old(data)@.len() as int),
    ensures
        final(data).len() == old(data).len(),
        level == 0 ==> r == Ok::<(), Error>(()) && final(data)@ == old(data)@,
        level > 0 && old(data)@.len() as int % (pow2(level as nat) as int) != 0 ==> r == Err::<
            (),
            Error,
        >(Error::InvalidLength) && final(data)@ == old(data)@,
        level > 0 && old(data)@.len() as int % (pow2(level as nat) as int) == 0
            && !wavelet@.valid() ==> r == Err::<(), Error>(Error::InvalidWavelet) && final(data)@
            == old(data)@,
        level > 0 && old(data)@.len() as int % (pow2(level as nat) as int) == 0
            && wavelet@.valid() ==> r == Ok::<(), Error>(()) && final(data)@ == inverse_levels(
            wavelet@,
            old(data)@,
            old(data)@.len() as int,
            level as int,
        ),
{
    transform(data, Operation::Inverse, wavelet, level)
}

} // verus!
