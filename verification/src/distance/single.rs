//! IEEE 754 single-precision numbers as bit patterns.
use vstd::prelude::*;

verus! {

/// A single-precision number, held as its bit pattern: one sign bit, eight exponent bits (bias
/// 127), twenty-three fraction bits.
#[derive(Debug, Clone, Copy, PartialEq, Eq, Structural)]
pub struct F32(pub u32);

/// A distance between two vectors.
pub type Distance = F32;

/// The pattern of one.
pub const ONE_BITS: u32 = 0x3F80_0000;

/// The pattern of `0.1`.
pub const ONE_TENTH_BITS: u32 = 0x3DCC_CCCD;

/// The pattern of `0.2`.
pub const TWO_TENTHS_BITS: u32 = 0x3E4C_CCCD;

/// The pattern of `0.3`.
pub const THREE_TENTHS_BITS: u32 = 0x3E99_999A;

/// The pattern of `0.4`.
pub const FOUR_TENTHS_BITS: u32 = 0x3ECC_CCCD;

/// The pattern of `0.5`.
pub const ONE_HALF_BITS: u32 = 0x3F00_0000;

/// The pattern of `1.2`.
pub const ONE_POINT_TWO_BITS: u32 = 0x3F99_999A;

/// The pattern of `1.3`.
pub const ONE_POINT_THREE_BITS: u32 = 0x3FA6_6666;

/// The pattern of `1.5`.
pub const ONE_POINT_FIVE_BITS: u32 = 0x3FC0_0000;

/// The pattern of `2.0`.
pub const TWO_BITS: u32 = 0x4000_0000;

/// The pattern of the greatest finite number.
pub const MAX_BITS: u32 = 0x7F7F_FFFF;

impl F32 {
    /// The bits below the sign.
    pub open spec fn magnitude(self) -> int {
        (self.0 % 0x8000_0000) as int
    }

    /// Whether the sign bit is set.
    pub open spec fn negative(self) -> bool {
        self.0 >= 0x8000_0000
    }

    /// Whether the pattern stands for no number.
    pub open spec fn nan(self) -> bool {
        self.magnitude() > 0x7F80_0000
    }

    /// Where the number stands among all numbers: the pattern of a non-negative number grows with
    /// the number, and the two zeros are the same number.
    pub open spec fn rank(self) -> int {
        if self.negative() {
            -self.magnitude()
        } else {
            self.magnitude()
        }
    }

    /// Where the pattern stands in the total order of patterns: as `rank`, but `-0` stands before
    /// `+0`, and the patterns that are no number stand at the two ends by their sign.
    pub open spec fn total_rank(self) -> int {
        if self.negative() {
            -self.magnitude() - 1
        } else {
            self.magnitude()
        }
    }

    /// `self < other`, which is false where either is no number.
    pub open spec fn below(self, other: F32) -> bool {
        !self.nan() && !other.nan() && self.rank() < other.rank()
    }

    /// `self <= other`, which is false where either is no number.
    pub open spec fn at_most(self, other: F32) -> bool {
        !self.nan() && !other.nan() && self.rank() <= other.rank()
    }

    /// The smaller of two numbers, the other one where one of them is no number.
    pub open spec fn lesser(self, other: F32) -> F32 {
        if self.nan() || other.below(self) {
            other
        } else {
            self
        }
    }

    /// The greater of two numbers, the other one where one of them is no number.
    pub open spec fn greater(self, other: F32) -> F32 {
        if self.nan() || self.below(other) {
            other
        } else {
            self
        }
    }

    /// Whether the number is zero.
    pub open spec fn zero(self) -> bool {
        self.magnitude() == 0
    }

    /// Whether the pattern stands for no number.
    pub fn is_nan(self) -> (b: bool)
        ensures
            b == self.nan(),
    {
        self.0 % 0x8000_0000 > 0x7F80_0000
    }

    /// Where the number stands among all numbers.
    pub fn rank_of(self) -> (r: i64)
        ensures
            r == self.rank(),
    {
        if self.0 >= 0x8000_0000 {
            -((self.0 % 0x8000_0000) as i64)
        } else {
            self.0 as i64
        }
    }

    /// The place of the pattern in the total order of patterns.
    pub fn total_rank_of(self) -> (r: i64)
        ensures
            r == self.total_rank(),
    {
        if self.0 >= 0x8000_0000 {
            -((self.0 % 0x8000_0000) as i64) - 1
        } else {
            self.0 as i64
        }
    }

    /// `self < other`.
    pub fn lt(self, other: F32) -> (b: bool)
        ensures
            b == self.below(other),
    {
        !self.is_nan() && !other.is_nan() && self.rank_of() < other.rank_of()
    }

    /// `self <= other`.
    pub fn le(self, other: F32) -> (b: bool)
        ensures
            b == self.at_most(other),
    {
        !self.is_nan() && !other.is_nan() && self.rank_of() <= other.rank_of()
    }

    /// The smaller of two numbers, the other one where one of them is no number.
    pub fn min(self, other: F32) -> (m: F32)
        ensures
            m == self.lesser(other),
    {
        if self.is_nan() || other.lt(self) {
            other
        } else {
            self
        }
    }

    /// The greater of two numbers, the other one where one of them is no number.
    pub fn max(self, other: F32) -> (m: F32)
        ensures
            m == self.greater(other),
    {
        if self.is_nan() || self.lt(other) {
            other
        } else {
            self
        }
    }

    /// Whether the number is zero.
    pub fn is_zero(self) -> (b: bool)
        ensures
            b == self.zero(),
    {
        self.0 % 0x8000_0000 == 0
    }

    /// `self > other`.
    pub fn gt(self, other: F32) -> (b: bool)
        ensures
            b == other.below(self),
    {
        other.lt(self)
    }

    /// `self >= other`.
    pub fn ge(self, other: F32) -> (b: bool)
        ensures
            b == other.at_most(self),
    {
        other.le(self)
    }
}

} // verus!
