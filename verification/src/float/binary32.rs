//! Single-precision numbers.

use crate::float::arith::{lemma_format, Raw};
use crate::float::convert::{from_integer, less, less_or_equal, truncated_to};
use crate::float::model::{
    difference, from_int, greater, infinite_bits, number, product, quotient, sum, truncated, Float,
    Format,
};
use crate::float::ops::{added, divided, multiplied};
use vstd::prelude::*;

verus! {

/// A 32-bit floating-point number, as its bits. Every bit pattern is a number (or NaN).
#[derive(Clone, Copy, PartialEq, Eq, Structural, Debug)]
pub struct Binary32 {
    pub bits: u32,
}

impl View for Binary32 {
    type V = Float;

    /// The number that the bits stand for.
    open spec fn view(&self) -> Float {
        number(Format::Single, self.bits >= 0x8000_0000, (self.bits % 0x8000_0000) as nat)
    }
}

impl Binary32 {
    /// The number with the given bits.
    pub fn from_bits(bits: u32) -> (r: Binary32)
        ensures
            r.bits == bits,
    {
        Binary32 { bits }
    }

    /// The bits of the number.
    pub fn to_bits(self) -> (r: u32)
        ensures
            r == self.bits,
    {
        self.bits
    }

    fn apart(self) -> (r: Raw)
        ensures
            r.value(Format::Single) == self@,
    {
        Raw { neg: self.bits >= 0x8000_0000, bits: (self.bits % 0x8000_0000) as u64 }
    }

    pub(crate) fn joined(raw: Raw) -> (r: Binary32)
        requires
            raw.bits <= infinite_bits(Format::Single) || raw.bits == Format::Single.nan_bits(),
        ensures
            r@ == raw.value(Format::Single),
    {
        proof {
            lemma_format(Format::Single);
        }
        let low: u32 = raw.bits as u32;
        if raw.neg {
            Binary32 { bits: 0x8000_0000 + low }
        } else {
            Binary32 { bits: low }
        }
    }

    /// The number nearest to a whole number.
    pub fn from_u64(n: u64) -> (r: Binary32)
        ensures
            r@ == from_int(Format::Single, n as int),
    {
        Self::joined(from_integer(Format::Single, false, n))
    }

    /// `self + other`.
    pub fn plus(self, other: Binary32) -> (r: Binary32)
        ensures
            r@ == sum(Format::Single, self@, other@),
    {
        Self::joined(added(Format::Single, self.apart(), other.apart()))
    }

    /// `self - other`.
    pub fn minus(self, other: Binary32) -> (r: Binary32)
        ensures
            r@ == difference(Format::Single, self@, other@),
    {
        let b: Raw = other.apart();
        Self::joined(added(Format::Single, self.apart(), Raw { neg: !b.neg, bits: b.bits }))
    }

    /// `self * other`.
    pub fn times(self, other: Binary32) -> (r: Binary32)
        ensures
            r@ == product(Format::Single, self@, other@),
    {
        Self::joined(multiplied(Format::Single, self.apart(), other.apart()))
    }

    /// `self / other`.
    pub fn over(self, other: Binary32) -> (r: Binary32)
        ensures
            r@ == quotient(Format::Single, self@, other@),
    {
        Self::joined(divided(Format::Single, self.apart(), other.apart()))
    }

    /// `self < other`.
    pub fn below(self, other: Binary32) -> (r: bool)
        ensures
            r == self@.lt(other@),
    {
        less(Format::Single, self.apart(), other.apart())
    }

    /// `self <= other`.
    pub fn at_most(self, other: Binary32) -> (r: bool)
        ensures
            r == self@.le(other@),
    {
        less_or_equal(Format::Single, self.apart(), other.apart())
    }

    /// `self == other`, as numbers.
    pub fn equals(self, other: Binary32) -> (r: bool)
        ensures
            r == self@.same(other@),
    {
        self.at_most(other) && other.at_most(self)
    }

    /// Whether this is not a number.
    pub fn is_nan(self) -> (r: bool)
        ensures
            r == self@.is_nan(),
    {
        proof {
            lemma_format(Format::Single);
        }
        self.bits % 0x8000_0000 > 0x7f80_0000
    }

    /// The larger of two numbers; where one is NaN, the other.
    pub fn max(self, other: Binary32) -> (r: Binary32)
        ensures
            r@ == greater(self@, other@),
    {
        if self.is_nan() {
            other
        } else if other.is_nan() {
            self
        } else if self.below(other) {
            other
        } else {
            self
        }
    }

    /// The number that a sample is; every sample is one.
    pub fn from_i16(n: i16) -> (r: Binary32)
        ensures
            r@ == from_int(Format::Single, n as int),
    {
        let wide: i64 = n as i64;
        if wide < 0 {
            Self::joined(from_integer(Format::Single, true, (-wide) as u64))
        } else {
            Self::joined(from_integer(Format::Single, false, wide as u64))
        }
    }

    /// The whole part as a sample: NaN gives zero, and what is out of range the nearer bound.
    pub fn to_i16(self) -> (r: i16)
        ensures
            r == truncated(Format::Single, self@, i16::MIN as int, i16::MAX as int),
    {
        truncated_to(Format::Single, self.apart(), -32768, 32767) as i16
    }

    /// The whole part as a size: NaN gives zero, and what is out of range the nearer bound.
    pub fn to_usize(self) -> (r: usize)
        ensures
            r == truncated(Format::Single, self@, 0, usize::MAX as int),
    {
        truncated_to(Format::Single, self.apart(), 0, usize::MAX as i128) as usize
    }

    /// The number brought between two bounds; NaN stays NaN.
    pub fn clamped(self, lo: Binary32, hi: Binary32) -> (r: Binary32)
        ensures
            r@ == clamped(self@, lo@, hi@),
    {
        if self.below(lo) {
            lo
        } else if hi.below(self) {
            hi
        } else {
            self
        }
    }
}

/// A number brought between two bounds; NaN stays NaN.
pub open spec fn clamped(x: Float, lo: Float, hi: Float) -> Float {
    if x.lt(lo) {
        lo
    } else if hi.lt(x) {
        hi
    } else {
        x
    }
}

} // verus!
