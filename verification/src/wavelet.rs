//! Wavelets.

use vstd::prelude::*;
use crate::float::Float;

verus! {

/// The mathematical content of a wavelet descriptor: the tap count, the
/// phase offset, and the four filters as sequences.
pub struct WaveletModel<T> {
    /// The number of coefficients.
    pub length: nat,
    /// The offset of the coefficients.
    pub offset: nat,
    /// The decomposition low-pass filter.
    pub dec_lo: Seq<T>,
    /// The decomposition high-pass filter.
    pub dec_hi: Seq<T>,
    /// The reconstruction low-pass filter.
    pub rec_lo: Seq<T>,
    /// The reconstruction high-pass filter.
    pub rec_hi: Seq<T>,
}

impl<T> WaveletModel<T> {
    /// A descriptor is well formed when all four filters hold exactly
    /// `length` taps and the phase offset does not exceed the tap count,
    /// which keeps the base index of the circular convolution non-negative.
    pub open spec fn valid(self) -> bool {
        &&& self.dec_lo.len() == self.length
        &&& self.dec_hi.len() == self.length
        &&& self.rec_lo.len() == self.length
        &&& self.rec_hi.len() == self.length
        &&& self.offset <= self.length
    }
}

/// A wavelet.
pub struct Wavelet<T> {
    /// The number of coefficients.
    pub length: usize,
    /// The offset of the coefficients.
    pub offset: usize,
    /// The coefficients of the decomposition low-pass filter.
    pub dec_lo: Vec<T>,
    /// The coefficients of the decomposition high-pass filter.
    pub dec_hi: Vec<T>,
    /// The coefficients of the reconstruction low-pass filter.
    pub rec_lo: Vec<T>,
    /// The coefficients of the reconstruction high-pass filter.
    pub rec_hi: Vec<T>,
}

impl<T> View for Wavelet<T> {
    type V = WaveletModel<T>;

    open spec fn view(&self) -> WaveletModel<T> {
        WaveletModel {
            length: self.length as nat,
            offset: self.offset as nat,
            dec_lo: self.dec_lo@,
            dec_hi: self.dec_hi@,
            rec_lo: self.rec_lo@,
            rec_hi: self.rec_hi@,
        }
    }
}

impl<T> Wavelet<T> {
    /// Check that the descriptor is well formed.
    pub fn is_valid(&self) -> (r: bool)
        ensures
            r == self@.valid(),
    {
        self.dec_lo.len() == self.length
            && self.dec_hi.len() == self.length
            && self.rec_lo.len() == self.length
            && self.rec_hi.len() == self.length
            && self.offset <= self.length
    }
}

/// A Haar wavelet.
pub struct Haar;

impl Haar {
    /// Create a wavelet: two taps, no offset, and every filter built from
    /// the constant `1 / sqrt(2)`.
    pub fn new<T: Float>() -> (r: Wavelet<T>)
        ensures
            r@.valid(),
            r@.length == 2,
            r@.offset == 0,
            r@.dec_lo =~= seq![T::frac_1_sqrt_2_spec(), T::frac_1_sqrt_2_spec()],
            r@.dec_hi =~= seq![T::frac_1_sqrt_2_spec(), T::frac_1_sqrt_2_spec().neg_spec()],
            r@.rec_lo =~= seq![T::frac_1_sqrt_2_spec(), T::frac_1_sqrt_2_spec()],
            r@.rec_hi =~= seq![T::frac_1_sqrt_2_spec(), T::frac_1_sqrt_2_spec().neg_spec()],
    {
        let value = T::frac_1_sqrt_2();
        Wavelet {
            length: 2,
            offset: 0,
            dec_lo: vec![value, value],
            dec_hi: vec![value, value.negate()],
            rec_lo: vec![value, value],
            rec_hi: vec![value, value.negate()],
        }
    }
}

} // verus!
