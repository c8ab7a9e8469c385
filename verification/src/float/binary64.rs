//! Double-precision numbers.

use crate::float::arith::{lemma_format, Raw};
use crate::float::binary32::Binary32;
use crate::float::convert::{from_integer, less, less_or_equal, reformatted, rounded_away_to};
use crate::float::model::{
    converted, difference, from_int, greater, infinite_bits, lesser, number, product, quotient,
    rounded_away, square_root, sum, Float, Format,
};
use crate::float::ops::{added, divided, multiplied};
use crate::float::root::rooted;
use vstd::prelude::*;

verus! {

/// A 64-bit floating-point number, as its bits. Every bit pattern is a number (or NaN).
#[derive(Clone, Copy, PartialEq, Eq, Structural, Debug)]
pub struct Binary64 {
    pub bits: u64,
}

impl View for Binary64 {
    type V = Float;

    /// The number that the bits stand for.
    open spec fn view(&self) -> Float {
        number(Format::Double, self.bits >= 0x8000_0000_0000_0000, (self.bits % 0x8000_0000_0000_0000) as nat)
    }
}

impl Binary64 {
    /// The number with the given bits.
    pub fn from_bits(bits: u64) -> (r: Binary64)
        ensures
            r.bits == bits,
    {
        Binary64 { bits }
    }

    /// The bits of the number.
    pub fn to_bits(self) -> (r: u64)
        ensures
            r == self.bits,
    {
        self.bits
    }

    fn apart(self) -> (r: Raw)
        ensures
            r.value(Format::Double) == self@,
    {
        Raw { neg: self.bits >= 0x8000_0000_0000_0000, bits: self.bits % 0x8000_0000_0000_0000 }
    }

    fn joined(raw: Raw) -> (r: Binary64)
        requires
            raw.bits <= infinite_bits(Format::Double) || raw.bits == Format::Double.nan_bits(),
        ensures
            r@ == raw.value(Format::Double),
    {
        proof {
            lemma_format(Format::Double);
        }
        let low: u64 = raw.bits;
        if raw.neg {
            Binary64 { bits: 0x8000_0000_0000_0000 + low }
        } else {
            Binary64 { bits: low }
        }
    }

    /// The number nearest to a whole number.
    pub fn from_u64(n: u64) -> (r: Binary64)
        ensures
            r@ == from_int(Format::Double, n as int),
    {
        Self::joined(from_integer(Format::Double, false, n))
    }

    /// The number that a sample is; every sample is one.
    pub fn from_i16(n: i16) -> (r: Binary64)
        ensures
            r@ == from_int(Format::Double, n as int),
    {
        let wide: i64 = n as i64;
        if wide < 0 {
            Self::joined(from_integer(Format::Double, true, (-wide) as u64))
        } else {
            Self::joined(from_integer(Format::Double, false, wide as u64))
        }
    }

    /// `self + other`.
    pub fn plus(self, other: Binary64) -> (r: Binary64)
        ensures
            r@ == sum(Format::Double, self@, other@),
    {
        Self::joined(added(Format::Double, self.apart(), other.apart()))
    }

    /// `self - other`.
    pub fn minus(self, other: Binary64) -> (r: Binary64)
        ensures
            r@ == difference(Format::Double, self@, other@),
    {
        let b: Raw = other.apart();
        Self::joined(added(Format::Double, self.apart(), Raw { neg: !b.neg, bits: b.bits }))
    }

    /// `self * other`.
    pub fn times(self, other: Binary64) -> (r: Binary64)
        ensures
            r@ == product(Format::Double, self@, other@),
    {
        Self::joined(multiplied(Format::Double, self.apart(), other.apart()))
    }

    /// `self / other`.
    pub fn over(self, other: Binary64) -> (r: Binary64)
        ensures
            r@ == quotient(Format::Double, self@, other@),
    {
        Self::joined(divided(Format::Double, self.apart(), other.apart()))
    }

    /// `self < other`.
    pub fn below(self, other: Binary64) -> (r: bool)
        ensures
            r == self@.lt(other@),
    {
        less(Format::Double, self.apart(), other.apart())
    }

    /// `self <= other`.
    pub fn at_most(self, other: Binary64) -> (r: bool)
        ensures
            r == self@.le(other@),
    {
        less_or_equal(Format::Double, self.apart(), other.apart())
    }

    /// `self == other`, as numbers.
    pub fn equals(self, other: Binary64) -> (r: bool)
        ensures
            r == self@.same(other@),
    {
        self.at_most(other) && other.at_most(self)
    }

    /// Whether this is not a number.
    pub fn is_nan(self) -> (r: bool)
        ensures
            r == self@.is_nan(),
    {
        proof {
            lemma_format(Format::Double);
        }
        self.bits % 0x8000_0000_0000_0000 > 0x7ff0_0000_0000_0000
    }

    /// The larger of two numbers; where one is NaN, the other.
    pub fn max(self, other: Binary64) -> (r: Binary64)
        ensures
            r@ == greater(self@, other@),
    {
        if self.is_nan() {
            other
        } else if other.is_nan() {
            self
        } else if self.below(other) {
            other
        } else {
            self
        }
    }

    /// The smaller of two numbers; where one is NaN, the other.
    pub fn min(self, other: Binary64) -> (r: Binary64)
        ensures
            r@ == lesser(self@, other@),
    {
        if self.is_nan() {
            other
        } else if other.is_nan() {
            self
        } else if other.below(self) {
            other
        } else {
            self
        }
    }

    /// The square root.
    pub fn sqrt(self) -> (r: Binary64)
        ensures
            r@ == square_root(Format::Double, self@),
    {
        Self::joined(rooted(Format::Double, self.apart()))
    }

    /// The number without its sign.
    pub fn abs(self) -> (r: Binary64)
        ensures
            r@ == self@.absolute(),
    {
        Binary64 { bits: self.bits % 0x8000_0000_0000_0000 }
    }

    /// The nearest whole number, half-way cases away from zero: NaN gives zero, and what is out
    /// of range the nearer bound.
    pub fn round_to_u64(self) -> (r: u64)
        ensures
            r == rounded_away(Format::Double, self@, 0, u64::MAX as int),
    {
        rounded_away_to(Format::Double, self.apart(), 0, 0xffff_ffff_ffff_ffff) as u64
    }

    /// The nearest single-precision number.
    pub fn to_single(self) -> (r: Binary32)
        ensures
            r@ == converted(Format::Double, Format::Single, self@),
    {
        Binary32::joined(reformatted(Format::Double, Format::Single, self.apart()))
    }
}

} // verus!
