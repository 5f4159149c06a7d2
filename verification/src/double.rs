//! Binary64 numbers as bit patterns, with the IEEE 754 comparison predicates.

use vstd::prelude::*;

verus! {

/// The sign bit of a binary64 bit pattern.
pub const SIGN_BIT: u64 = 0x8000_0000_0000_0000;

/// The bit pattern of positive infinity; every larger magnitude is a NaN.
pub const INFINITY_BITS: u64 = 0x7ff0_0000_0000_0000;

/// A binary64 floating-point number, held as its IEEE 754 bit pattern.
#[derive(Clone, Copy, Debug)]
pub struct Double {
    pub bits: u64,
}

impl Double {
    /// The bit pattern with the sign bit cleared.
    pub open spec fn magnitude(self) -> int {
        if self.bits >= SIGN_BIT {
            self.bits - SIGN_BIT
        } else {
            self.bits as int
        }
    }

    pub open spec fn is_negative(self) -> bool {
        self.bits >= SIGN_BIT
    }

    pub open spec fn is_nan(self) -> bool {
        self.magnitude() > INFINITY_BITS
    }

    /// An integer that orders the numbers as IEEE 754 does: for `x`, `y` that are
    /// not NaN, `x < y` exactly when `x.rank() < y.rank()`. Both zeros have rank 0.
    pub open spec fn rank(self) -> int {
        if self.is_negative() {
            -self.magnitude()
        } else {
            self.magnitude()
        }
    }

    /// IEEE 754 `<`: false whenever an operand is NaN.
    pub open spec fn lt_spec(self, other: Double) -> bool {
        !self.is_nan() && !other.is_nan() && self.rank() < other.rank()
    }

    /// IEEE 754 `<=`: false whenever an operand is NaN.
    pub open spec fn le_spec(self, other: Double) -> bool {
        !self.is_nan() && !other.is_nan() && self.rank() <= other.rank()
    }

    /// IEEE 754 `>`: false whenever an operand is NaN.
    pub open spec fn gt_spec(self, other: Double) -> bool {
        other.lt_spec(self)
    }

    /// IEEE 754 `>=`: false whenever an operand is NaN.
    pub open spec fn ge_spec(self, other: Double) -> bool {
        other.le_spec(self)
    }

    /// IEEE 754 `==`: false whenever an operand is NaN; the two zeros are equal.
    pub open spec fn eq_spec(self, other: Double) -> bool {
        !self.is_nan() && !other.is_nan() && self.rank() == other.rank()
    }

    /// IEEE 754 `!=`: the negation of `==`, so true whenever an operand is NaN.
    pub open spec fn ne_spec(self, other: Double) -> bool {
        !self.eq_spec(other)
    }

    pub open spec fn abs_spec(self) -> Double {
        Double { bits: self.magnitude() as u64 }
    }

    /// The number with its sign changed.
    pub open spec fn neg_spec(self) -> Double {
        Double {
            bits: if self.bits >= SIGN_BIT {
                (self.bits - SIGN_BIT) as u64
            } else {
                (self.bits + SIGN_BIT) as u64
            },
        }
    }

    /// The larger of two numbers. A NaN is passed over: if one operand is a NaN
    /// the result is the other one. Of two equal operands it is the second.
    pub open spec fn max_spec(self, other: Double) -> Double {
        if self.is_nan() {
            other
        } else if other.is_nan() {
            self
        } else if self.gt_spec(other) {
            self
        } else {
            other
        }
    }

    pub fn from_bits(bits: u64) -> (r: Double)
        ensures
            r.bits == bits,
    {
        Double { bits }
    }

    pub fn to_bits(self) -> (bits: u64)
        ensures
            bits == self.bits,
    {
        self.bits
    }

    pub fn zero() -> (r: Double)
        ensures
            r.bits == 0,
    {
        Double { bits: 0 }
    }

    /// The largest finite number.
    pub fn largest() -> (r: Double)
        ensures
            r == Self::largest_spec(),
    {
        Double { bits: 0x7fef_ffff_ffff_ffff }
    }

    pub open spec fn largest_spec() -> Double {
        Double { bits: 0x7fef_ffff_ffff_ffff }
    }

    fn magnitude_bits(self) -> (m: u64)
        ensures
            m == self.magnitude(),
            m < SIGN_BIT,
    {
        if self.bits >= SIGN_BIT {
            self.bits - SIGN_BIT
        } else {
            self.bits
        }
    }

    fn rank_value(self) -> (k: i64)
        ensures
            k == self.rank(),
    {
        let m: u64 = self.magnitude_bits();
        if self.bits >= SIGN_BIT {
            -(m as i64)
        } else {
            m as i64
        }
    }

    pub fn is_nan_value(self) -> (r: bool)
        ensures
            r == self.is_nan(),
    {
        self.magnitude_bits() > INFINITY_BITS
    }

    pub fn lt(self, other: Double) -> (r: bool)
        ensures
            r == self.lt_spec(other),
    {
        !self.is_nan_value() && !other.is_nan_value() && self.rank_value() < other.rank_value()
    }

    pub fn le(self, other: Double) -> (r: bool)
        ensures
            r == self.le_spec(other),
    {
        !self.is_nan_value() && !other.is_nan_value() && self.rank_value() <= other.rank_value()
    }

    pub fn gt(self, other: Double) -> (r: bool)
        ensures
            r == self.gt_spec(other),
    {
        other.lt(self)
    }

    pub fn ge(self, other: Double) -> (r: bool)
        ensures
            r == self.ge_spec(other),
    {
        other.le(self)
    }

    pub fn eq(self, other: Double) -> (r: bool)
        ensures
            r == self.eq_spec(other),
    {
        !self.is_nan_value() && !other.is_nan_value() && self.rank_value() == other.rank_value()
    }

    pub fn ne(self, other: Double) -> (r: bool)
        ensures
            r == self.ne_spec(other),
    {
        !self.eq(other)
    }

    pub fn abs(self) -> (r: Double)
        ensures
            r == self.abs_spec(),
    {
        Double { bits: self.magnitude_bits() }
    }

    pub fn neg(self) -> (r: Double)
        ensures
            r == self.neg_spec(),
    {
        if self.bits >= SIGN_BIT {
            Double { bits: self.bits - SIGN_BIT }
        } else {
            Double { bits: self.bits + SIGN_BIT }
        }
    }

    pub fn max(self, other: Double) -> (r: Double)
        ensures
            r == self.max_spec(other),
    {
        if self.is_nan_value() {
            other
        } else if other.is_nan_value() {
            self
        } else if self.gt(other) {
            self
        } else {
            other
        }
    }
}

} // verus!
