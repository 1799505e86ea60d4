//! A fixed-point sample type, the crate's own instance of the numeric
//! capability set.

use vstd::prelude::*;
use crate::float::Float;

verus! {

/// The denominator of the fixed-point representation: `2^32`.
pub const SCALE: u128 = 4294967296;

/// Clamp an unbounded integer into the range of `i64`.
pub open spec fn clip_i64(x: int) -> i64 {
    if x > i64::MAX as int {
        i64::MAX
    } else if x < i64::MIN as int {
        i64::MIN
    } else {
        x as i64
    }
}

/// The scaled product of two fixed-point bit patterns: the full product,
/// rescaled by `2^32` with truncation toward zero.
pub open spec fn scaled_product(a: int, b: int) -> int {
    let p = a * b;
    if p >= 0 {
        p / (SCALE as int)
    } else {
        -((-p) / (SCALE as int))
    }
}

/// A saturating fixed-point number with 32 fractional bits: the value
/// represented is `bits / 2^32`.
#[derive(Clone, Copy, Debug, PartialEq, Eq, Structural)]
pub struct Fixed {
    /// The represented value, scaled by `2^32`.
    pub bits: i64,
}

impl Float for Fixed {
    open spec fn add_spec(self, rhs: Self) -> Self {
        Fixed { bits: clip_i64(self.bits + rhs.bits) }
    }

    open spec fn mul_spec(self, rhs: Self) -> Self {
        Fixed { bits: clip_i64(scaled_product(self.bits as int, rhs.bits as int)) }
    }

    open spec fn neg_spec(self) -> Self {
        Fixed { bits: clip_i64(-(self.bits as int)) }
    }

    open spec fn zero_spec() -> Self {
        Fixed { bits: 0 }
    }

    open spec fn frac_1_sqrt_2_spec() -> Self {
        Fixed { bits: 3037000500 }
    }

    fn plus(self, rhs: Self) -> (r: Self) {
        let s: i128 = self.bits as i128 + rhs.bits as i128;
        let b: i64 = if s > i64::MAX as i128 {
            i64::MAX
        } else if s < i64::MIN as i128 {
            i64::MIN
        } else {
            s as i64
        };
        Fixed { bits: b }
    }

    fn times(self, rhs: Self) -> (r: Self) {
        proof {
            assert((self.bits as int) * (rhs.bits as int) <= i128::MAX as int
                && (self.bits as int) * (rhs.bits as int) > i128::MIN as int)
                by (nonlinear_arith)
                requires
                    i64::MIN as int <= self.bits as int <= i64::MAX as int,
                    i64::MIN as int <= rhs.bits as int <= i64::MAX as int,
            ;
        }
        let p: i128 = self.bits as i128 * rhs.bits as i128;
        let negative: bool = p < 0;
        let mag: u128 = if negative { (-p) as u128 } else { p as u128 };
        let q: u128 = mag / 4294967296u128;
        let b: i64 = if negative {
            if q >= 9223372036854775808u128 {
                i64::MIN
            } else {
                -(q as i64)
            }
        } else {
            if q > i64::MAX as u128 {
                i64::MAX
            } else {
                q as i64
            }
        };
        Fixed { bits: b }
    }

    fn negate(self) -> (r: Self) {
        let b: i64 = if self.bits == i64::MIN {
            i64::MAX
        } else {
            -self.bits
        };
        Fixed { bits: b }
    }

    fn zero() -> (r: Self) {
        Fixed { bits: 0 }
    }

    fn frac_1_sqrt_2() -> (r: Self) {
        Fixed { bits: 3037000500 }
    }

    proof fn add_zero_left(x: Self) {
    }
}

} // verus!
