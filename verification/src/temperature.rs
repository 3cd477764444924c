//! Sampling temperatures.
//!
//! A temperature is a binary64 number, held as its bits: the top bit is the sign, and
//! the other bits, read as an integer, grow with the magnitude of the number. Past the
//! bits of infinity there are only bits that are not a number.
use vstd::prelude::*;

verus! {

/// The weight of the sign bit.
pub const SIGN: u64 = 0x8000_0000_0000_0000;

/// The bits of positive infinity.
pub const INFINITY: u64 = 0x7ff0_0000_0000_0000;

/// A temperature, by the bits of a binary64 number.
#[derive(Clone, Copy, Debug, PartialEq, Eq, Structural)]
pub struct Temperature {
    pub bits: u64,
}

impl Temperature {
    /// The bits without the sign.
    pub open spec fn magnitude(self) -> int {
        if self.bits >= SIGN {
            self.bits - SIGN
        } else {
            self.bits as int
        }
    }

    /// Whether the bits are not a number.
    pub open spec fn nan(self) -> bool {
        self.magnitude() > INFINITY
    }

    /// An integer that orders the numbers as they are ordered; zero of both zeros.
    pub open spec fn order(self) -> int {
        if self.bits >= SIGN {
            -self.magnitude()
        } else {
            self.magnitude()
        }
    }

    /// `self < other` on numbers. Nothing is below or above what is not a number.
    pub open spec fn lt(self, other: Self) -> bool {
        !self.nan() && !other.nan() && self.order() < other.order()
    }

    /// A temperature from the bits of a binary64 number.
    pub fn from_bits(bits: u64) -> (t: Self)
        ensures
            t.bits == bits,
    {
        Temperature { bits }
    }

    /// Whether the bits are not a number.
    pub fn is_nan(self) -> (r: bool)
        ensures
            r == self.nan(),
    {
        let magnitude: u64 = if self.bits >= SIGN {
            self.bits - SIGN
        } else {
            self.bits
        };
        magnitude > INFINITY
    }

    /// Whether this number is below the other.
    pub fn below(self, other: Self) -> (r: bool)
        ensures
            r == self.lt(other),
    {
        if self.is_nan() || other.is_nan() {
            return false;
        }
        if self.bits >= SIGN {
            if other.bits >= SIGN {
                self.bits > other.bits
            } else {
                self.bits > SIGN || other.bits > 0
            }
        } else {
            other.bits < SIGN && self.bits < other.bits
        }
    }

    /// Whether this is a number from `low` to `high`, both included.
    pub fn is_between(self, low: Self, high: Self) -> (r: bool)
        ensures
            r == (!self.nan() && !low.nan() && !high.nan() && low.order() <= self.order()
                && self.order() <= high.order()),
    {
        !self.is_nan() && !low.is_nan() && !high.is_nan() && !self.below(low) && !high.below(self)
    }

    /// Whether this is one of the two zeros.
    pub fn is_zero(self) -> (r: bool)
        ensures
            r == (self.order() == 0),
    {
        self.bits == 0 || self.bits == SIGN
    }
}

/// The nearest number from `min` to `max`; what is not a number stays as it is, and so
/// does a zero at either bound, whichever of the two zeros it is.
pub fn clamp_f64(value: Temperature, min: Temperature, max: Temperature) -> (r: Temperature)
    requires
        !min.nan(),
        !max.nan(),
        min.order() <= max.order(),
    ensures
        r == (if value.lt(min) {
            min
        } else if max.lt(value) {
            max
        } else {
            value
        }),
        !value.nan() ==> min.order() <= r.order() && r.order() <= max.order(),
{
    if value.below(min) {
        min
    } else if max.below(value) {
        max
    } else {
        value
    }
}

/// The bits tell the order of the numbers: those without the sign bit grow with their
/// bits, those with it fall, and every one of the latter but the second zero is below every
/// one of the former. What is beyond infinity is not a number, and neither below nor above
/// any other.
pub proof fn law_bits_are_ordered(a: Temperature, b: Temperature)
    ensures
        a.nan() <==> 0x7ff0_0000_0000_0000 < a.bits < 0x8000_0000_0000_0000
            || 0xfff0_0000_0000_0000 < a.bits,
        a.nan() || b.nan() ==> !a.lt(b) && !b.lt(a),
        a.bits <= 0x7ff0_0000_0000_0000 && b.bits <= 0x7ff0_0000_0000_0000 ==> (a.lt(b)
            <==> a.bits < b.bits),
        0x8000_0000_0000_0000 <= a.bits <= 0xfff0_0000_0000_0000 && 0x8000_0000_0000_0000
            <= b.bits <= 0xfff0_0000_0000_0000 ==> (a.lt(b) <==> a.bits > b.bits),
        0x8000_0000_0000_0000 <= a.bits <= 0xfff0_0000_0000_0000 && b.bits
            <= 0x7ff0_0000_0000_0000 ==> (a.lt(b) <==> a.bits > 0x8000_0000_0000_0000 || b.bits
            > 0) && !b.lt(a),
        a.order() == 0 <==> a.bits == 0 || a.bits == 0x8000_0000_0000_0000,
        !a.nan() && !b.nan() ==> (a.lt(b) <==> a.order() < b.order()),
{
}

} // verus!
