//! What a binary floating-point number is, and what each operation on it means.
//!
//! A finite number of a format is a whole multiple of the smallest positive number of that
//! format, so its magnitude is modelled as a natural number: how many of those smallest units it
//! holds. An operation is the exact operation on these magnitudes followed by one rounding.

use vstd::arithmetic::power2::pow2;
use vstd::prelude::*;

verus! {

/// The two interchange formats that are used.
#[derive(Clone, Copy, PartialEq, Eq, Structural, Debug)]
pub enum Format {
    /// 32 bits: 24 bits of precision.
    Single,
    /// 64 bits: 53 bits of precision.
    Double,
}

impl Format {
    /// The number of significant bits.
    pub open spec fn precision(self) -> nat {
        match self {
            Format::Single => 24,
            Format::Double => 53,
        }
    }

    /// The smallest positive number is two to the power of minus this.
    pub open spec fn scale(self) -> nat {
        match self {
            Format::Single => 149,
            Format::Double => 1074,
        }
    }

    /// The exponent, in units, of the coarsest spacing.
    pub open spec fn top(self) -> nat {
        match self {
            Format::Single => 253,
            Format::Double => 2045,
        }
    }

    /// One, in units.
    pub open spec fn one(self) -> nat {
        pow2(self.scale())
    }

    /// The first magnitude, in units, that is too large to be finite.
    pub open spec fn limit(self) -> nat {
        pow2(self.precision() + self.top())
    }
}

/// The number that a bit pattern stands for. The magnitude counts units, where a unit is the
/// smallest positive number of the format.
pub enum Float {
    Nan,
    Infinite { neg: bool },
    Finite { neg: bool, mag: nat },
}

/// The whole number nearest to `num / den`; of two that are equally near, the even one.
pub open spec fn nearest_even(num: nat, den: nat) -> nat {
    let q = num / den;
    let r = num % den;
    if 2 * r < den || (2 * r == den && q % 2 == 0) {
        q
    } else {
        q + 1
    }
}

/// By how many bits `q` exceeds `p` bits.
pub open spec fn excess(q: nat, p: nat) -> nat
    decreases q,
{
    if q < pow2(p) {
        0
    } else if q == 0 {
        0
    } else {
        1 + excess(q / 2, p)
    }
}

/// The multiple of the spacing that `p` significant bits give at `num / den` (never finer than
/// one unit) that is nearest to `num / den`; of two that are equally near, the even multiple.
pub open spec fn rounded(num: nat, den: nat, p: nat) -> nat {
    let k = excess(num / den, p);
    nearest_even(num, den * pow2(k)) * pow2(k)
}

/// A signed magnitude that needs no rounding, or an infinity where it is too large.
pub open spec fn settled(f: Format, neg: bool, mag: nat) -> Float {
    if mag >= f.limit() {
        Float::Infinite { neg }
    } else {
        Float::Finite { neg, mag }
    }
}

/// The number of the format that is nearest to `num / den` units, with the given sign.
pub open spec fn nearest(f: Format, neg: bool, num: nat, den: nat) -> Float {
    settled(f, neg, rounded(num, den, f.precision()))
}

/// The signed number of units of a finite number.
pub open spec fn signed(neg: bool, mag: nat) -> int {
    if neg {
        -(mag as int)
    } else {
        mag as int
    }
}

pub open spec fn magnitude(x: int) -> nat {
    if x < 0 {
        (-x) as nat
    } else {
        x as nat
    }
}

/// The number nearest to a whole number of units. A zero is positive unless `neg_zero`.
pub open spec fn nearest_int(f: Format, units: int, neg_zero: bool) -> Float {
    if units == 0 {
        Float::Finite { neg: neg_zero, mag: 0 }
    } else {
        nearest(f, units < 0, magnitude(units), 1)
    }
}

impl Float {
    /// Positive zero.
    pub open spec fn zero() -> Float {
        Float::Finite { neg: false, mag: 0 }
    }

    pub open spec fn is_nan(self) -> bool {
        self is Nan
    }

    /// The sign of a number that is not NaN.
    pub open spec fn neg(self) -> bool {
        match self {
            Float::Nan => false,
            Float::Infinite { neg } => neg,
            Float::Finite { neg, mag } => neg,
        }
    }

    /// The signed number of units; meaningful for finite numbers.
    pub open spec fn units(self) -> int {
        match self {
            Float::Finite { neg, mag } => signed(neg, mag),
            _ => 0,
        }
    }

    pub open spec fn mag(self) -> nat {
        match self {
            Float::Finite { neg, mag } => mag,
            _ => 0,
        }
    }

    pub open spec fn negated(self) -> Float {
        match self {
            Float::Nan => Float::Nan,
            Float::Infinite { neg } => Float::Infinite { neg: !neg },
            Float::Finite { neg, mag } => Float::Finite { neg: !neg, mag },
        }
    }

    pub open spec fn absolute(self) -> Float {
        match self {
            Float::Nan => Float::Nan,
            Float::Infinite { neg } => Float::Infinite { neg: false },
            Float::Finite { neg, mag } => Float::Finite { neg: false, mag },
        }
    }

    /// `self < other`. NaN is not comparable with anything; both zeros are equal.
    pub open spec fn lt(self, other: Float) -> bool {
        match (self, other) {
            (Float::Nan, _) => false,
            (_, Float::Nan) => false,
            (Float::Infinite { neg: a }, Float::Infinite { neg: b }) => a && !b,
            (Float::Infinite { neg: a }, Float::Finite { .. }) => a,
            (Float::Finite { .. }, Float::Infinite { neg: b }) => !b,
            (Float::Finite { .. }, Float::Finite { .. }) => self.units() < other.units(),
        }
    }

    /// `self <= other`.
    pub open spec fn le(self, other: Float) -> bool {
        match (self, other) {
            (Float::Nan, _) => false,
            (_, Float::Nan) => false,
            _ => !other.lt(self),
        }
    }

    /// `self == other` as numbers.
    pub open spec fn same(self, other: Float) -> bool {
        self.le(other) && other.le(self)
    }
}

/// The sum of two numbers, rounded once.
pub open spec fn sum(f: Format, a: Float, b: Float) -> Float {
    match (a, b) {
        (Float::Nan, _) => Float::Nan,
        (_, Float::Nan) => Float::Nan,
        (Float::Infinite { neg: x }, Float::Infinite { neg: y }) => if x == y {
            a
        } else {
            Float::Nan
        },
        (Float::Infinite { .. }, Float::Finite { .. }) => a,
        (Float::Finite { .. }, Float::Infinite { .. }) => b,
        (Float::Finite { neg: x, .. }, Float::Finite { neg: y, .. }) => nearest_int(
            f,
            a.units() + b.units(),
            x && y,
        ),
    }
}

/// The difference of two numbers, rounded once.
pub open spec fn difference(f: Format, a: Float, b: Float) -> Float {
    sum(f, a, b.negated())
}

/// The product of two numbers, rounded once.
pub open spec fn product(f: Format, a: Float, b: Float) -> Float {
    let neg = a.neg() != b.neg();
    match (a, b) {
        (Float::Nan, _) => Float::Nan,
        (_, Float::Nan) => Float::Nan,
        (Float::Infinite { .. }, Float::Infinite { .. }) => Float::Infinite { neg },
        (Float::Infinite { .. }, Float::Finite { mag, .. }) => if mag == 0 {
            Float::Nan
        } else {
            Float::Infinite { neg }
        },
        (Float::Finite { mag, .. }, Float::Infinite { .. }) => if mag == 0 {
            Float::Nan
        } else {
            Float::Infinite { neg }
        },
        (Float::Finite { mag: x, .. }, Float::Finite { mag: y, .. }) => nearest(
            f,
            neg,
            x * y,
            f.one(),
        ),
    }
}

/// The quotient of two numbers, rounded once.
pub open spec fn quotient(f: Format, a: Float, b: Float) -> Float {
    let neg = a.neg() != b.neg();
    match (a, b) {
        (Float::Nan, _) => Float::Nan,
        (_, Float::Nan) => Float::Nan,
        (Float::Infinite { .. }, Float::Infinite { .. }) => Float::Nan,
        (Float::Infinite { .. }, Float::Finite { .. }) => Float::Infinite { neg },
        (Float::Finite { .. }, Float::Infinite { .. }) => Float::Finite { neg, mag: 0 },
        (Float::Finite { mag: x, .. }, Float::Finite { mag: y, .. }) => if y == 0 {
            if x == 0 {
                Float::Nan
            } else {
                Float::Infinite { neg }
            }
        } else {
            nearest(f, neg, x * f.one(), y)
        },
    }
}

/// The largest whole number whose square is at most `x`.
pub open spec fn is_root(r: nat, x: nat) -> bool {
    r * r <= x < (r + 1) * (r + 1)
}

/// The whole number nearest to the square root of `x`, in multiples of `2^k`: the half-way point
/// above a multiple decides, and an exact half-way point goes to the even multiple.
pub open spec fn nearest_root(x: nat, r: nat, k: nat) -> nat {
    let c = r / pow2(k);
    let half = (2 * c + 1) * pow2(k);
    if 4 * x < half * half || (4 * x == half * half && c % 2 == 0) {
        c
    } else {
        c + 1
    }
}

/// The square root of a number, rounded once.
pub open spec fn square_root(f: Format, a: Float) -> Float {
    match a {
        Float::Nan => Float::Nan,
        Float::Infinite { neg } => if neg {
            Float::Nan
        } else {
            a
        },
        Float::Finite { neg, mag } => if mag == 0 {
            a
        } else if neg {
            Float::Nan
        } else {
            let x = mag * f.one();
            let r = choose|r: nat| is_root(r, x);
            let k = excess(r, f.precision());
            settled(f, false, nearest_root(x, r, k) * pow2(k))
        },
    }
}

/// A whole number as a number of the format, rounded once.
pub open spec fn from_int(f: Format, n: int) -> Float {
    nearest_int(f, n * f.one(), false)
}

/// A number of one format as a number of another, rounded once.
pub open spec fn converted(from: Format, to: Format, a: Float) -> Float {
    match a {
        Float::Finite { neg, mag } => nearest(to, neg, mag * to.one(), from.one()),
        _ => a,
    }
}

/// The smaller of two numbers; where one is NaN, the other.
pub open spec fn lesser(a: Float, b: Float) -> Float {
    if a.is_nan() {
        b
    } else if b.is_nan() {
        a
    } else if b.lt(a) {
        b
    } else {
        a
    }
}

/// The larger of two numbers; where one is NaN, the other.
pub open spec fn greater(a: Float, b: Float) -> Float {
    if a.is_nan() {
        b
    } else if b.is_nan() {
        a
    } else if a.lt(b) {
        b
    } else {
        a
    }
}

/// The whole part of a number as an integer between `lo` and `hi`: NaN gives zero, and what lies
/// outside gives the nearer bound.
pub open spec fn truncated(f: Format, a: Float, lo: int, hi: int) -> int {
    let clip = |n: int|
        if n < lo {
            lo
        } else if n > hi {
            hi
        } else {
            n
        };
    match a {
        Float::Nan => clip(0),
        Float::Infinite { neg } => if neg {
            lo
        } else {
            hi
        },
        Float::Finite { neg, mag } => clip(signed(neg, mag / f.one())),
    }
}

/// The whole number nearest to a number, half-way cases away from zero, as an integer between
/// `lo` and `hi`: NaN gives zero, and what lies outside gives the nearer bound.
pub open spec fn rounded_away(f: Format, a: Float, lo: int, hi: int) -> int {
    let clip = |n: int|
        if n < lo {
            lo
        } else if n > hi {
            hi
        } else {
            n
        };
    match a {
        Float::Nan => clip(0),
        Float::Infinite { neg } => if neg {
            lo
        } else {
            hi
        },
        Float::Finite { neg, mag } => clip(signed(neg, (2 * mag + f.one()) / (2 * f.one()))),
    }
}

/// The sum of numbers, from the left, each step rounded.
pub open spec fn total(f: Format, xs: Seq<Float>) -> Float
    decreases xs.len(),
{
    if xs.len() == 0 {
        Float::zero()
    } else {
        sum(f, total(f, xs.drop_last()), xs.last())
    }
}

/// The sum of numbers divided by how many they are.
pub open spec fn mean(f: Format, xs: Seq<Float>) -> Float {
    quotient(f, total(f, xs), from_int(f, xs.len() as int))
}

/// The largest of numbers and zero; NaN does not count.
pub open spec fn largest(xs: Seq<Float>) -> Float
    decreases xs.len(),
{
    if xs.len() == 0 {
        Float::zero()
    } else {
        greater(largest(xs.drop_last()), xs.last())
    }
}

/// The magnitude, in units, that the bits below the sign stand for, where they are finite.
pub open spec fn decoded(f: Format, bits: nat) -> nat {
    let lead = pow2((f.precision() - 1) as nat);
    if bits < 2 * lead {
        bits
    } else {
        (lead + bits % lead) * pow2((bits / lead - 1) as nat)
    }
}

/// The bits below the sign of an infinity.
pub open spec fn infinite_bits(f: Format) -> nat {
    (f.top() + 2) * pow2((f.precision() - 1) as nat)
}

/// The number that a sign and the bits below it stand for.
pub open spec fn number(f: Format, neg: bool, bits: nat) -> Float {
    if bits > infinite_bits(f) {
        Float::Nan
    } else if bits == infinite_bits(f) {
        Float::Infinite { neg }
    } else {
        Float::Finite { neg, mag: decoded(f, bits) }
    }
}

} // verus!
