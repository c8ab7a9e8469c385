//! Numbers taken apart into a sign and the bits below it, and the rounding that puts them together,
//! for either format.

use crate::float::model::{decoded, infinite_bits, nearest, number, settled, Float, Format};
use crate::float::rounding::{
    bracketed, lemma_beyond_top, lemma_encoded, lemma_pow2_le, lemma_round_discard,
    lemma_round_exact,
};
use vstd::arithmetic::div_mod::lemma_fundamental_div_mod;
use vstd::arithmetic::power2::{
    lemma2_to64, lemma2_to64_rest, lemma_pow2_adds, lemma_pow2_pos, lemma_pow2_unfold, pow2,
};
use vstd::prelude::*;

verus! {

/// A number taken apart: its sign, and the bits below the sign.
#[derive(Clone, Copy, PartialEq, Eq, Structural, Debug)]
pub struct Raw {
    pub neg: bool,
    pub bits: u64,
}

impl Raw {
    /// The number that is meant, in a given format.
    pub open spec fn value(self, f: Format) -> Float {
        number(f, self.neg, self.bits as nat)
    }
}

/// The constants of the two formats, written out.
pub proof fn lemma_format(f: Format)
    ensures
        f is Single ==> {
            &&& pow2((f.precision() - 1) as nat) == 0x80_0000
            &&& pow2(f.precision()) == 0x100_0000
            &&& infinite_bits(f) == 0x7f80_0000
        },
        f is Double ==> {
            &&& pow2((f.precision() - 1) as nat) == 0x10_0000_0000_0000
            &&& pow2(f.precision()) == 0x20_0000_0000_0000
            &&& infinite_bits(f) == 0x7ff0_0000_0000_0000
        },
{
    lemma2_to64();
    lemma2_to64_rest();
    let lead = pow2((f.precision() - 1) as nat);
    match f {
        Format::Single => {
            assert((f.top() + 2) * lead == 255 * 0x80_0000) by (nonlinear_arith)
                requires
                    f.top() == 253,
                    lead == 0x80_0000,
            ;
        },
        Format::Double => {
            assert((f.top() + 2) * lead == 2047 * 0x10_0000_0000_0000) by (nonlinear_arith)
                requires
                    f.top() == 2045,
                    lead == 0x10_0000_0000_0000,
            ;
        },
    }
}

/// The largest power of two that is used, written out.
pub proof fn lemma_pow2_127()
    ensures
        pow2(127) == 0x8000_0000_0000_0000_0000_0000_0000_0000,
{
    lemma2_to64();
    lemma2_to64_rest();
    lemma_pow2_adds(64, 63);
    assert(pow2(64) * pow2(63) == 0x8000_0000_0000_0000_0000_0000_0000_0000) by (nonlinear_arith)
        requires
            pow2(64) == 0x1_0000_0000_0000_0000,
            pow2(63) == 0x8000_0000_0000_0000,
    ;
}

impl Format {
    /// The number of significant bits.
    pub fn precision_bits(self) -> (r: u32)
        ensures
            r == self.precision(),
    {
        match self {
            Format::Single => 24,
            Format::Double => 53,
        }
    }

    /// The weight of the leading bit of a significand.
    pub fn leading_bit(self) -> (r: u64)
        ensures
            r == pow2((self.precision() - 1) as nat),
    {
        proof {
            lemma_format(self);
        }
        match self {
            Format::Single => 0x80_0000,
            Format::Double => 0x10_0000_0000_0000,
        }
    }

    /// The bits below the sign of an infinity.
    pub fn infinity(self) -> (r: u64)
        ensures
            r == infinite_bits(self),
    {
        proof {
            lemma_format(self);
        }
        match self {
            Format::Single => 0x7f80_0000,
            Format::Double => 0x7ff0_0000_0000_0000,
        }
    }

    /// The bits below the sign of the NaN that operations give.
    pub open spec fn nan_bits(self) -> u64 {
        match self {
            Format::Single => 0x7fc0_0000,
            Format::Double => 0x7ff8_0000_0000_0000,
        }
    }

    /// The bits below the sign of the NaN that operations give.
    pub fn quiet_nan(self) -> (r: u64)
        ensures
            r == self.nan_bits(),
            number(self, false, r as nat) is Nan,
    {
        proof {
            lemma_format(self);
        }
        match self {
            Format::Single => 0x7fc0_0000,
            Format::Double => 0x7ff8_0000_0000_0000,
        }
    }

    /// The exponent, in units, of the coarsest spacing.
    pub fn top_exponent(self) -> (r: u32)
        ensures
            r == self.top(),
    {
        match self {
            Format::Single => 253,
            Format::Double => 2045,
        }
    }

    /// Minus the exponent of the smallest positive number.
    pub fn scale_exponent(self) -> (r: u32)
        ensures
            r == self.scale(),
    {
        match self {
            Format::Single => 149,
            Format::Double => 1074,
        }
    }
}

/// Shifting left multiplies with a power of two, as long as nothing is lost.
proof fn lemma_shl(x: u128, s: u128)
    requires
        s < 128,
        x * pow2(s as nat) <= u128::MAX,
    ensures
        x << s == x * pow2(s as nat),
    decreases s,
{
    lemma2_to64();
    if s == 0 {
        assert(x << 0u128 == x) by (bit_vector);
        vstd::arithmetic::mul::lemma_mul_basics(x as int);
    } else {
        let t = (s - 1) as u128;
        lemma_pow2_unfold(s as nat);
        lemma_pow2_pos(t as nat);
        let h = pow2(t as nat);
        assert(x * h <= x * pow2(s as nat) && x * pow2(s as nat) == 2 * (x * h))
            by (nonlinear_arith)
            requires
                pow2(s as nat) == 2 * h,
        ;
        lemma_shl(x, t);
        let y = x << t;
        assert(y * 2 <= u128::MAX);
        assert(x << s == y * 2) by (bit_vector)
            requires
                0 < s < 128,
                t == s - 1,
                y == x << t,
                y * 2 <= u128::MAX,
        ;
    }
}

/// `x * 2^s`, where it fits.
pub(crate) fn shifted_up(x: u128, s: u32) -> (r: u128)
    requires
        s < 128,
        x * pow2(s as nat) <= u128::MAX,
    ensures
        r == x * pow2(s as nat),
{
    proof {
        lemma_shl(x, s as u128);
    }
    x << (s as u128)
}

/// The whole part of `x / 2^s`.
pub(crate) fn shifted_down(x: u128, s: u32) -> (r: u128)
    requires
        s < 128,
    ensures
        r == x as nat / pow2(s as nat),
{
    proof {
        vstd::bits::lemma_u128_shr_is_div(x, s as u128);
    }
    x >> (s as u128)
}

/// `v` holds the bits of `n` that remain without the `c` lowest ones.
#[verifier::opaque]
spec fn leads(n: nat, v: nat, c: nat) -> bool {
    v * pow2(c) <= n < (v + 1) * pow2(c)
}

/// One step of finding the leading bit: `v` holds what is left of `n` after `c` bits.
proof fn lemma_drop_bits(n: nat, v: nat, c: nat, j: nat, d: nat)
    requires
        leads(n, v, c),
        d == pow2(j),
    ensures
        leads(n, v / d, c + j),
{
    reveal(leads);
    let w = pow2(c);
    lemma_pow2_pos(j);
    lemma_pow2_pos(c);
    lemma_pow2_adds(c, j);
    lemma_fundamental_div_mod(v as int, d as int);
    let q = v / d;
    let r = v % d;
    assert(q * (w * d) <= v * w && (v + 1) * w <= (q + 1) * (w * d)) by (nonlinear_arith)
        requires
            v == d * q + r,
            0 <= r < d,
            w > 0,
    ;
}

/// The number of bits up to and including the leading one.
pub(crate) fn bit_length(n: u128) -> (r: u32)
    requires
        n > 0,
    ensures
        1 <= r <= 128,
        pow2((r - 1) as nat) <= n,
        n < pow2(r as nat),
{
    let mut v: u128 = n;
    let mut c: u32 = 0;
    let mut j: u32 = 64;
    proof {
        lemma2_to64();
        lemma_pow2_adds(64, 64);
        assert(leads(n as nat, v as nat, 0)) by {
            reveal(leads);
            vstd::arithmetic::mul::lemma_mul_basics(n as int);
            vstd::arithmetic::mul::lemma_mul_basics(n + 1);
        }
    }
    while j > 0
        invariant
            j == 64 || j == 32 || j == 16 || j == 8 || j == 4 || j == 2 || j == 1 || j == 0,
            v > 0,
            c + 2 * j <= 128,
            j == 0 ==> v < 2 && c <= 127,
            v < pow2((2 * j) as nat) || j == 0,
            leads(n as nat, v as nat, c as nat),
        decreases j,
    {
        let high: u128 = shifted_down(v, j);
        proof {
            lemma_pow2_pos(j as nat);
            lemma_pow2_adds(j as nat, j as nat);
            lemma_drop_bits(n as nat, v as nat, c as nat, j as nat, pow2(j as nat));
            crate::float::rounding::lemma_quotient_bound(v as nat, pow2(j as nat), pow2(j as nat));
            crate::float::rounding::lemma_quotient_bound(v as nat, pow2(j as nat), 1);
            lemma2_to64();
        }
        if high > 0 {
            v = high;
            c = c + j;
        }
        j = j / 2;
    }
    proof {
        reveal(leads);
        lemma_pow2_unfold((c + 1) as nat);
        vstd::arithmetic::mul::lemma_mul_basics(pow2(c as nat) as int);
    }
    c + 1
}

/// The number with a given significand and spacing, or an infinity.
fn encoded(f: Format, neg: bool, r: u64, k: u32) -> (x: Raw)
    requires
        r <= pow2(f.precision()),
        k > 0 ==> pow2((f.precision() - 1) as nat) <= r,
    ensures
        x.value(f) == settled(f, neg, r as nat * pow2(k as nat)),
        x.bits <= infinite_bits(f),
{
    if k > f.top_exponent() {
        proof {
            lemma_beyond_top(f, r as nat, k as nat);
        }
        Raw { neg, bits: f.infinity() }
    } else {
        proof {
            lemma_encoded(f, r as nat, k as nat, neg);
            lemma_format(f);
        }
        let lead: u64 = f.leading_bit();
        assert(k * lead <= 2045 * 0x10_0000_0000_0000) by (nonlinear_arith)
            requires
                k <= 2045,
                lead <= 0x10_0000_0000_0000,
        ;
        Raw { neg, bits: k as u64 * lead + r }
    }
}

/// The significand and the spacing of a finite number.
pub(crate) fn taken_apart(f: Format, bits: u64) -> (r: (u64, u32))
    requires
        bits < infinite_bits(f),
    ensures
        r.0 * pow2(r.1 as nat) == decoded(f, bits as nat),
        r.0 < pow2(f.precision()),
        r.1 > 0 ==> pow2((f.precision() - 1) as nat) <= r.0,
        r.1 <= f.top(),
{
    proof {
        lemma_format(f);
        lemma2_to64();
        vstd::arithmetic::mul::lemma_mul_basics(bits as int);
    }
    let lead: u64 = f.leading_bit();
    if bits < 2 * lead {
        (bits, 0)
    } else {
        let k: u64 = bits / lead - 1;
        (lead + bits % lead, k as u32)
    }
}

/// The nearest number to `num / den` units, which lies between `m * 2^e` and `(m + 1) * 2^e`.
pub(crate) fn rounded_to(
    f: Format,
    neg: bool,
    m: u128,
    e: i32,
    exact: bool,
    Ghost(num): Ghost<nat>,
    Ghost(den): Ghost<nat>,
) -> (x: Raw)
    requires
        0 < m < pow2(127),
        -10000 < e < 10000,
        bracketed(num, den, m as nat, e as int, exact),
        !exact ==> m >= pow2(f.precision()),
    ensures
        x.value(f) == nearest(f, neg, num, den),
        x.bits <= infinite_bits(f),
{
    let ghost p = f.precision();
    let len: i32 = bit_length(m) as i32;
    let digits: i32 = f.precision_bits() as i32;
    let s: i32 = if len - digits > -e {
        len - digits
    } else {
        -e
    };
    proof {
        lemma2_to64();
        lemma2_to64_rest();
        lemma_pow2_pos(p);
    }
    if s <= 0 {
        let t: u32 = (-s) as u32;
        let k: u32 = (e + s) as u32;
        proof {
            // A value that is not exact is longer than the precision.
            if !exact {
                if len <= digits {
                    lemma_pow2_le(len as nat, p);
                }
                assert(false);
            }
            lemma_pow2_adds(len as nat, t as nat);
            lemma_pow2_le((len + t) as nat, p);
            lemma_pow2_pos(t as nat);
            assert(m * pow2(t as nat) < pow2(len as nat) * pow2(t as nat)) by (nonlinear_arith)
                requires
                    m < pow2(len as nat),
                    pow2(t as nat) > 0,
            ;
        }
        let q: u128 = shifted_up(m, t);
        proof {
            assert(q < pow2(p));
            lemma_pow2_adds(t as nat, k as nat);
            assert(t + k == e);
            vstd::arithmetic::mul::lemma_mul_basics(num as int);
            assert(num == q * (den * pow2(k as nat))) by (nonlinear_arith)
                requires
                    num == m * (pow2(e as nat) * den),
                    pow2(e as nat) == pow2(t as nat) * pow2(k as nat),
                    q == m * pow2(t as nat),
            ;
            if k > 0 {
                assert(len + t == p);
                lemma_pow2_adds((len - 1) as nat, t as nat);
                assert(m * pow2(t as nat) >= pow2((len - 1) as nat) * pow2(t as nat))
                    by (nonlinear_arith)
                    requires
                        m >= pow2((len - 1) as nat),
                ;
            }
            lemma_round_exact(num, den, p, q as nat, k as nat);
        }
        encoded(f, neg, q as u64, k)
    } else {
        let k: u32 = (e + s) as u32;
        proof {
            lemma_pow2_le(len as nat, p + s as nat);
            if k > 0 {
                assert(len - 1 == p - 1 + s);
            }
        }
        if s >= 128 {
            proof {
                lemma_pow2_le(128, s as nat);
                lemma_pow2_unfold(128);
                lemma_round_discard(
                    num,
                    den,
                    p,
                    m as nat,
                    e as int,
                    exact,
                    s as nat,
                    0,
                    m as nat,
                );
            }
            encoded(f, neg, 0, k)
        } else {
            let q: u128 = shifted_down(m, s as u32);
            proof {
                lemma_pow2_pos(s as nat);
                lemma_fundamental_div_mod(m as int, pow2(s as nat) as int);
                lemma_pow2_le(s as nat, 127);
                assert(pow2(s as nat) * q == q * pow2(s as nat)) by (nonlinear_arith);
                assert(q * pow2(s as nat) <= m);
            }
            let r: u128 = m - shifted_up(q, s as u32);
            let ghost unit = pow2(s as nat);
            proof {
                lemma_pow2_unfold(s as nat);
                lemma_pow2_127();
            }
            assert(r == m as int % unit as int);
            proof {
                vstd::arithmetic::mul::lemma_mul_basics(pow2((s - 1) as nat) as int);
            }
            let half: u128 = shifted_up(1, (s - 1) as u32);
            proof {
                lemma_round_discard(
                    num,
                    den,
                    p,
                    m as nat,
                    e as int,
                    exact,
                    s as nat,
                    q as nat,
                    r as nat,
                );
                lemma_pow2_adds(p, s as nat);
                assert(q < pow2(p)) by (nonlinear_arith)
                    requires
                        q * unit <= m,
                        m < pow2(p) * unit,
                        unit > 0,
                ;
                if k > 0 {
                    lemma_pow2_adds((p - 1) as nat, s as nat);
                    let lead = pow2((p - 1) as nat);
                    assert(q >= lead) by (nonlinear_arith)
                        requires
                            m == q * unit + r,
                            r < unit,
                            m >= lead * unit,
                            unit > 0,
                    ;
                }
            }
            if r < half || (r == half && exact && q % 2 == 0) {
                encoded(f, neg, q as u64, k)
            } else {
                encoded(f, neg, (q + 1) as u64, k)
            }
        }
    }
}

} // verus!
