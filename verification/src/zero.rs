use crate::binary64::Binary64;
use vstd::arithmetic::power2::pow2;
use vstd::prelude::*;

verus! {

/// The imaginary part of a zero, as a data file encodes it: the base of its
/// block, raised by `offset` steps of `2^-101`.
///
/// `precision` is the number of binary digits at which the block asks for the
/// sum to be held. The library itself keeps the sum exact.
#[derive(Clone, Copy, Debug, PartialEq, Eq, Structural)]
pub struct Zero {
    pub base: Binary64,
    pub offset: u128,
    pub precision: i32,
}

impl Zero {
    /// The base is a number, so that the zero has a value.
    pub open spec fn wf(self) -> bool {
        self.base.finite()
    }

    /// The value, in units of `2^-1074`.
    pub open spec fn scaled(self) -> int {
        self.base.scaled() + self.offset * pow2(973)
    }

    /// The value is at least `threshold`. Nothing reaches a NaN or the positive
    /// infinity, and everything reaches the negative infinity.
    pub open spec fn reaches(self, threshold: Binary64) -> bool {
        if threshold.finite() {
            self.scaled() >= threshold.scaled()
        } else {
            !threshold.nan() && threshold.negative()
        }
    }

    /// Whether the value is at least `threshold`.
    pub fn at_least(&self, threshold: Binary64) -> (reached: bool)
        requires
            self.wf(),
        ensures
            reached == self.reaches(threshold),
    {
        if threshold.is_finite() {
            self.base.raised_reaches(self.offset, &threshold)
        } else {
            !threshold.is_nan() && threshold.is_negative()
        }
    }
}

} // verus!
