//! Double-precision numbers carried by their bit pattern.
//!
//! The order of two numbers, and whether a number is finite, can be read off the bits, so
//! decisions that only compare numbers need no arithmetic on them.
use vstd::prelude::*;

verus! {

/// The bits of an infinite magnitude: every larger magnitude is not a number.
pub const INFINITE_MAGNITUDE: u64 = 0x7ff0_0000_0000_0000;

/// The weight of the sign bit.
pub const SIGN_BIT: u64 = 0x8000_0000_0000_0000;

/// A double-precision number, as its IEEE 754 bit pattern.
#[derive(Clone, Copy, Debug, PartialEq, Eq, Structural)]
pub struct Real64 {
    pub bits: u64,
}

impl Real64 {
    /// The bits without the sign.
    pub open spec fn magnitude(self) -> int {
        if self.bits >= SIGN_BIT {
            self.bits - SIGN_BIT
        } else {
            self.bits as int
        }
    }

    /// An integer that orders numbers as their values are ordered; both zeros map to 0.
    pub open spec fn rank(self) -> int {
        if self.bits >= SIGN_BIT {
            -self.magnitude()
        } else {
            self.magnitude()
        }
    }

    pub open spec fn spec_is_nan(self) -> bool {
        self.magnitude() > INFINITE_MAGNITUDE
    }

    pub open spec fn spec_is_finite(self) -> bool {
        self.magnitude() < INFINITE_MAGNITUDE
    }

    /// `self > other` as numbers: false where either side is not a number.
    pub open spec fn spec_above(self, other: Real64) -> bool {
        !self.spec_is_nan() && !other.spec_is_nan() && self.rank() > other.rank()
    }

    /// `self == other` as numbers: false where either side is not a number, and true of the
    /// two zeros.
    pub open spec fn spec_same(self, other: Real64) -> bool {
        !self.spec_is_nan() && !other.spec_is_nan() && self.rank() == other.rank()
    }

    /// Positive zero.
    pub open spec fn spec_zero() -> Real64 {
        Real64 { bits: 0 }
    }

    /// Negative infinity.
    pub open spec fn spec_neg_infinity() -> Real64 {
        Real64 { bits: 0xfff0_0000_0000_0000 }
    }

    pub fn zero() -> (r: Real64)
        ensures
            r == Self::spec_zero(),
    {
        Real64 { bits: 0 }
    }

    pub fn neg_infinity() -> (r: Real64)
        ensures
            r == Self::spec_neg_infinity(),
    {
        Real64 { bits: 0xfff0_0000_0000_0000 }
    }

    fn magnitude_bits(self) -> (m: u64)
        ensures
            m == self.magnitude(),
    {
        if self.bits >= SIGN_BIT {
            self.bits - SIGN_BIT
        } else {
            self.bits
        }
    }

    /// The number without its sign.
    pub fn abs(self) -> (r: Real64)
        ensures
            r.bits == self.magnitude(),
    {
        Real64 { bits: self.magnitude_bits() }
    }

    /// Whether this is not a number.
    pub fn is_nan(self) -> (r: bool)
        ensures
            r == self.spec_is_nan(),
    {
        self.magnitude_bits() > INFINITE_MAGNITUDE
    }

    /// Whether this is neither infinite nor not a number.
    pub fn is_finite(self) -> (r: bool)
        ensures
            r == self.spec_is_finite(),
    {
        self.magnitude_bits() < INFINITE_MAGNITUDE
    }

    /// `self > other` as numbers.
    pub fn above(self, other: Real64) -> (r: bool)
        ensures
            r == self.spec_above(other),
    {
        if self.is_nan() || other.is_nan() {
            return false;
        }
        let a: u64 = self.magnitude_bits();
        let b: u64 = other.magnitude_bits();
        if self.bits >= SIGN_BIT {
            other.bits >= SIGN_BIT && b > a
        } else if other.bits >= SIGN_BIT {
            a > 0 || b > 0
        } else {
            a > b
        }
    }

    /// `self == other` as numbers.
    pub fn same(self, other: Real64) -> (r: bool)
        ensures
            r == self.spec_same(other),
    {
        if self.is_nan() || other.is_nan() {
            return false;
        }
        self.bits == other.bits || (self.magnitude_bits() == 0 && other.magnitude_bits() == 0)
    }
}

/// The order by value is irreflexive and transitive, and numbers that are neither above nor
/// below each other are the same number: a strict weak order on the numbers.
pub proof fn real_order_is_strict(a: Real64, b: Real64, c: Real64)
    ensures
        !a.spec_above(a),
        a.spec_above(b) && b.spec_above(c) ==> a.spec_above(c),
        a.spec_above(b) ==> !b.spec_above(a),
        !a.spec_is_nan() && !b.spec_is_nan() && !a.spec_above(b) && !b.spec_above(a)
            ==> a.spec_same(b),
{
}

} // verus!
