//! Numbers read from workbooks and thresholds of the standard, held as the
//! bit pattern of an IEEE-754 binary64 value.
//!
//! Two non-NaN binary64 values compare as their signed magnitudes compare:
//! the magnitude is the pattern without its sign bit, negated when the sign
//! bit is set (so that `+0.0` and `-0.0` are equal). NaN is unordered.

use vstd::prelude::*;

verus! {

/// The largest magnitude of a finite value; larger magnitudes are NaN and
/// exactly this one is infinity.
pub const INFINITY_MAGNITUDE: u64 = 0x7ff0_0000_0000_0000;

pub const SIGN_BIT: u64 = 0x8000_0000_0000_0000;

/// A binary64 value, held by its bit pattern (`f64::to_bits`).
#[derive(Clone, Copy, Debug, PartialEq, Eq, Structural)]
pub struct Number {
    pub bits: u64,
}

impl Number {
    pub open spec fn spec_bits(self) -> u64 {
        self.bits
    }

    /// The pattern without its sign bit.
    pub open spec fn magnitude(self) -> int {
        if self.bits >= SIGN_BIT {
            self.bits - SIGN_BIT
        } else {
            self.bits as int
        }
    }

    pub open spec fn negative_sign(self) -> bool {
        self.bits >= SIGN_BIT
    }

    /// An integer that orders non-NaN values as binary64 comparison does.
    pub open spec fn order_key(self) -> int {
        if self.negative_sign() {
            -self.magnitude()
        } else {
            self.magnitude()
        }
    }

    pub open spec fn spec_is_nan(self) -> bool {
        self.magnitude() > INFINITY_MAGNITUDE
    }

    pub open spec fn spec_is_finite(self) -> bool {
        self.magnitude() < INFINITY_MAGNITUDE
    }

    /// `self < other` on binary64 values.
    pub open spec fn spec_lt(self, other: Number) -> bool {
        !self.spec_is_nan() && !other.spec_is_nan() && self.order_key() < other.order_key()
    }

    /// `self >= other` on binary64 values.
    pub open spec fn spec_ge(self, other: Number) -> bool {
        !self.spec_is_nan() && !other.spec_is_nan() && self.order_key() >= other.order_key()
    }

    /// `self > other` on binary64 values.
    pub open spec fn spec_gt(self, other: Number) -> bool {
        other.spec_lt(self)
    }

    /// `self >= 0.0`.
    pub open spec fn spec_is_non_negative(self) -> bool {
        !self.spec_is_nan() && self.order_key() >= 0
    }

    pub fn from_bits(bits: u64) -> (r: Number)
        ensures
            r.spec_bits() == bits,
    {
        Number { bits }
    }

    pub fn bits(&self) -> (r: u64)
        ensures
            r == self.spec_bits(),
    {
        self.bits
    }

    /// The value `0.0`.
    pub fn zero() -> (r: Number)
        ensures
            r.spec_bits() == 0,
            r.order_key() == 0,
            !r.spec_is_nan(),
    {
        Number { bits: 0 }
    }

    fn key(&self) -> (r: i64)
        ensures
            r == self.order_key(),
    {
        if self.bits >= SIGN_BIT {
            -((self.bits - SIGN_BIT) as i64)
        } else {
            self.bits as i64
        }
    }

    fn magnitude_of(&self) -> (r: u64)
        ensures
            r == self.magnitude(),
    {
        if self.bits >= SIGN_BIT {
            self.bits - SIGN_BIT
        } else {
            self.bits
        }
    }

    pub fn is_nan(&self) -> (r: bool)
        ensures
            r == self.spec_is_nan(),
    {
        self.magnitude_of() > INFINITY_MAGNITUDE
    }

    pub fn is_finite(&self) -> (r: bool)
        ensures
            r == self.spec_is_finite(),
    {
        self.magnitude_of() < INFINITY_MAGNITUDE
    }

    pub fn lt(&self, other: &Number) -> (r: bool)
        ensures
            r == self.spec_lt(*other),
    {
        !self.is_nan() && !other.is_nan() && self.key() < other.key()
    }

    pub fn ge(&self, other: &Number) -> (r: bool)
        ensures
            r == self.spec_ge(*other),
    {
        !self.is_nan() && !other.is_nan() && self.key() >= other.key()
    }

    pub fn gt(&self, other: &Number) -> (r: bool)
        ensures
            r == self.spec_gt(*other),
    {
        other.lt(self)
    }

    pub fn is_non_negative(&self) -> (r: bool)
        ensures
            r == self.spec_is_non_negative(),
    {
        !self.is_nan() && self.key() >= 0
    }
}

} // verus!
