//! Double-precision numbers as bit patterns, as far as they are compared.
use vstd::prelude::*;

verus! {

/// A double-precision number as its bit pattern.
#[derive(Debug, Clone, Copy, PartialEq, Eq, Structural)]
pub struct F64(pub u64);

impl F64 {
    /// The bits below the sign.
    pub open spec fn magnitude(self) -> int {
        (self.0 % 0x8000_0000_0000_0000) as int
    }

    /// Whether the pattern is no number.
    pub open spec fn nan(self) -> bool {
        self.magnitude() > 0x7FF0_0000_0000_0000
    }

    /// Where the number stands among all numbers; both zeros at the same place.
    pub open spec fn rank(self) -> int {
        if self.0 >= 0x8000_0000_0000_0000 {
            -self.magnitude()
        } else {
            self.magnitude()
        }
    }

    /// `self < other`.
    pub open spec fn below(self, other: F64) -> bool {
        !self.nan() && !other.nan() && self.rank() < other.rank()
    }

    /// `self < other`.
    pub fn lt(self, other: F64) -> (b: bool)
        ensures
            b == self.below(other),
    {
        let a: u64 = self.0 % 0x8000_0000_0000_0000;
        let c: u64 = other.0 % 0x8000_0000_0000_0000;
        if a > 0x7FF0_0000_0000_0000 || c > 0x7FF0_0000_0000_0000 {
            return false;
        }
        let x: i128 = if self.0 >= 0x8000_0000_0000_0000 {
            -(a as i128)
        } else {
            a as i128
        };
        let y: i128 = if other.0 >= 0x8000_0000_0000_0000 {
            -(c as i128)
        } else {
            c as i128
        };
        x < y
    }
}

} // verus!
