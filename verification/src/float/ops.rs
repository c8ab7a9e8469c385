//! Sums, products and quotients, for either format.

use crate::float::arith::{
    bit_length, lemma_format, lemma_pow2_127, rounded_to, shifted_up, taken_apart, Raw,
};
use crate::float::model::{
    decoded, infinite_bits, nearest, number, product, quotient, rounded, sum, Float, Format,
};
use crate::float::rounding::{
    bracketed, down, lemma_pow2_le, lemma_round_exact, lemma_scale_lt, lemma_up_down, up,
};
use vstd::arithmetic::div_mod::lemma_fundamental_div_mod;
use vstd::arithmetic::mul::lemma_mul_basics;
use vstd::arithmetic::power2::{
    lemma2_to64, lemma2_to64_rest, lemma_pow2_adds, lemma_pow2_pos, lemma_pow2_unfold, pow2,
};
use vstd::prelude::*;

verus! {

/// A fraction that is a whole number times a power of two is bracketed exactly.
pub proof fn lemma_bracket_exact(num: nat, den: nat, m: nat, a: nat, b: nat)
    requires
        num == m * pow2(a),
        den == pow2(b),
    ensures
        bracketed(num, den, m, a - b, true),
{
    let e = a - b;
    lemma_up_down(e, b);
    lemma_pow2_pos(b);
    let w = up(e) * den;
    assert(num * down(e) == m * w && w > 0) by (nonlinear_arith)
        requires
            num == m * pow2(a),
            pow2(a) * down(e) == pow2(b) * up(e),
            den == pow2(b),
            w == up(e) * den,
            up(e) > 0,
            den > 0,
    ;
    assert(m * w < (m + 1) * w) by (nonlinear_arith)
        requires
            w > 0,
    ;
}

/// A quotient of two whole numbers times powers of two is bracketed by the whole part of the
/// quotient of the whole numbers.
proof fn lemma_bracket_quotient(
    num: nat,
    den: nat,
    x: nat,
    a: nat,
    y: nat,
    b: nat,
    t: nat,
    m: nat,
    r: nat,
)
    requires
        num == x * pow2(a),
        den == y * pow2(b),
        y > 0,
        x * pow2(t) == m * y + r,
        r < y,
    ensures
        bracketed(num, den, m, a - t - b, r == 0),
{
    let e = a - t - b;
    lemma_up_down(e, t + b);
    lemma_pow2_adds(t, b);
    lemma_pow2_pos(b);
    let u = up(e);
    let v = pow2(b) * u;
    assert(v > 0) by (nonlinear_arith)
        requires
            pow2(b) > 0,
            u > 0,
            v == pow2(b) * u,
    ;
    assert(den > 0) by (nonlinear_arith)
        requires
            den == y * pow2(b),
            y > 0,
            pow2(b) > 0,
    ;
    let w = u * den;
    assert(w == y * v) by (nonlinear_arith)
        requires
            w == u * den,
            den == y * pow2(b),
            v == pow2(b) * u,
    ;
    let top = pow2(a) * down(e);
    assert(top == pow2(t) * v) by (nonlinear_arith)
        requires
            top == (pow2(t) * pow2(b)) * u,
            v == pow2(b) * u,
    ;
    assert(num * down(e) == (m * y + r) * v) by (nonlinear_arith)
        requires
            num == x * pow2(a),
            top == pow2(a) * down(e),
            top == pow2(t) * v,
            x * pow2(t) == m * y + r,
    ;
    assert((m * y + r) * v == m * w + r * v) by (nonlinear_arith)
        requires
            w == y * v,
    ;
    assert(r * v < w && (r * v == 0 <==> r == 0) && r * v >= 0) by (nonlinear_arith)
        requires
            w == y * v,
            0 <= r < y,
            v > 0,
    ;
    assert((m + 1) * w == m * w + w) by (nonlinear_arith);
}

/// Nothing rounds to nothing.
pub proof fn lemma_rounded_zero(f: Format, neg: bool, den: nat)
    requires
        den > 0,
    ensures
        rounded(0, den, f.precision()) == 0,
        nearest(f, neg, 0, den) == (Float::Finite { neg, mag: 0 }),
{
    lemma_pow2_pos(f.precision());
    lemma_pow2_pos(f.precision() + f.top());
    lemma_mul_basics((den * pow2(0)) as int);
    lemma_round_exact(0, den, f.precision(), 0, 0);
    lemma_mul_basics(pow2(0) as int);
}

/// The bits of a zero.
pub proof fn lemma_zero(f: Format, neg: bool)
    ensures
        number(f, neg, 0) == (Float::Finite { neg, mag: 0 }),
        decoded(f, 0) == 0,
{
    lemma_format(f);
}

/// A positive magnitude has a positive significand, and the other way round.
pub proof fn lemma_positive(m: nat, k: nat)
    ensures
        m * pow2(k) > 0 <==> m > 0,
        m * pow2(k) == 0 <==> m == 0,
{
    lemma_pow2_pos(k);
    assert(m * pow2(k) > 0 <==> m > 0) by (nonlinear_arith)
        requires
            pow2(k) > 0,
            m >= 0,
    ;
}

/// The product of two numbers, rounded once.
pub fn multiplied(f: Format, a: Raw, b: Raw) -> (x: Raw)
    ensures
        x.value(f) == product(f, a.value(f), b.value(f)),
        x.bits <= infinite_bits(f) || x.bits == f.nan_bits(),
{
    let inf: u64 = f.infinity();
    let neg: bool = a.neg != b.neg;
    proof {
        lemma_format(f);
        lemma_zero(f, neg);
    }
    if a.bits > inf || b.bits > inf {
        return Raw { neg: false, bits: f.quiet_nan() };
    }
    if a.bits == inf {
        if b.bits == inf {
            return Raw { neg, bits: inf };
        }
        let (mb, kb) = taken_apart(f, b.bits);
        proof {
            lemma_positive(mb as nat, kb as nat);
        }
        if mb == 0 {
            return Raw { neg: false, bits: f.quiet_nan() };
        }
        return Raw { neg, bits: inf };
    }
    let (ma, ka) = taken_apart(f, a.bits);
    proof {
        lemma_positive(ma as nat, ka as nat);
    }
    if b.bits == inf {
        if ma == 0 {
            return Raw { neg: false, bits: f.quiet_nan() };
        }
        return Raw { neg, bits: inf };
    }
    let (mb, kb) = taken_apart(f, b.bits);
    let ghost num = decoded(f, a.bits as nat) * decoded(f, b.bits as nat);
    proof {
        lemma_positive(mb as nat, kb as nat);
        lemma_pow2_pos(f.scale());
    }
    if ma == 0 || mb == 0 {
        proof {
            assert(num == 0) by (nonlinear_arith)
                requires
                    num == decoded(f, a.bits as nat) * decoded(f, b.bits as nat),
                    decoded(f, a.bits as nat) == 0 || decoded(f, b.bits as nat) == 0,
            ;
            lemma_rounded_zero(f, neg, f.one());
        }
        return Raw { neg, bits: 0 };
    }
    assert(0 < ma * mb < 0x20_0000_0000_0000 * 0x20_0000_0000_0000) by (nonlinear_arith)
        requires
            0 < ma < 0x20_0000_0000_0000,
            0 < mb < 0x20_0000_0000_0000,
    ;
    let m: u128 = ma as u128 * mb as u128;
    let e: i32 = ka as i32 + kb as i32 - f.scale_exponent() as i32;
    proof {
        lemma_pow2_127();
        lemma_pow2_adds(ka as nat, kb as nat);
        assert(num == m * pow2((ka + kb) as nat)) by (nonlinear_arith)
            requires
                num == (ma * pow2(ka as nat)) * (mb * pow2(kb as nat)),
                m == ma * mb,
                pow2((ka + kb) as nat) == pow2(ka as nat) * pow2(kb as nat),
        ;
        lemma_bracket_exact(num, f.one(), m as nat, (ka + kb) as nat, f.scale());
    }
    rounded_to(f, neg, m, e, true, Ghost(num), Ghost(f.one()))
}

/// The quotient of two numbers, rounded once.
pub fn divided(f: Format, a: Raw, b: Raw) -> (x: Raw)
    ensures
        x.value(f) == quotient(f, a.value(f), b.value(f)),
        x.bits <= infinite_bits(f) || x.bits == f.nan_bits(),
{
    let inf: u64 = f.infinity();
    let neg: bool = a.neg != b.neg;
    proof {
        lemma_format(f);
        lemma_zero(f, neg);
    }
    if a.bits > inf || b.bits > inf || (a.bits == inf && b.bits == inf) {
        return Raw { neg: false, bits: f.quiet_nan() };
    }
    if a.bits == inf {
        return Raw { neg, bits: inf };
    }
    if b.bits == inf {
        return Raw { neg, bits: 0 };
    }
    let (ma, ka) = taken_apart(f, a.bits);
    let (mb, kb) = taken_apart(f, b.bits);
    let ghost den = decoded(f, b.bits as nat);
    let ghost num = decoded(f, a.bits as nat) * f.one();
    proof {
        lemma_positive(ma as nat, ka as nat);
        lemma_positive(mb as nat, kb as nat);
    }
    if mb == 0 {
        if ma == 0 {
            return Raw { neg: false, bits: f.quiet_nan() };
        }
        return Raw { neg, bits: inf };
    }
    if ma == 0 {
        proof {
            assert(num == 0) by (nonlinear_arith)
                requires
                    num == decoded(f, a.bits as nat) * f.one(),
                    decoded(f, a.bits as nat) == 0,
            ;
            lemma_rounded_zero(f, neg, den);
        }
        return Raw { neg, bits: 0 };
    }
    let len: u32 = bit_length(ma as u128);
    let ghost lena = len as nat;
    proof {
        lemma_pow2_127();
        lemma2_to64();
        lemma2_to64_rest();
        if len > 53 {
            lemma_pow2_le(53, (len - 1) as nat);
        }
    }
    let t: u32 = 127 - len;
    proof {
        lemma_pow2_adds(len as nat, t as nat);
        lemma_pow2_adds((len - 1) as nat, t as nat);
        lemma_pow2_pos(t as nat);
        lemma_pow2_unfold(127);
        let pt = pow2(t as nat);
        assert(ma * pt < pow2(127) && ma * pt >= pow2(126)) by (nonlinear_arith)
            requires
                ma < pow2(len as nat),
                ma >= pow2((len - 1) as nat),
                pow2(127) == pow2(len as nat) * pt,
                pow2(126) == pow2((len - 1) as nat) * pt,
                pt > 0,
        ;
    }
    let top: u128 = shifted_up(ma as u128, t);
    let m: u128 = top / (mb as u128);
    let r: u128 = top % (mb as u128);
    let e: i32 = ka as i32 + f.scale_exponent() as i32 - t as i32 - kb as i32;
    proof {
        lemma_fundamental_div_mod(top as int, mb as int);
        assert(mb * m == m * mb) by (nonlinear_arith);
        lemma_pow2_adds(ka as nat, f.scale());
        assert(num == ma * pow2((ka + f.scale()) as nat)) by (nonlinear_arith)
            requires
                num == (ma * pow2(ka as nat)) * f.one(),
                pow2((ka + f.scale()) as nat) == pow2(ka as nat) * f.one(),
        ;
        lemma_bracket_quotient(
            num,
            den,
            ma as nat,
            ka as nat + f.scale(),
            mb as nat,
            kb as nat,
            t as nat,
            m as nat,
            r as nat,
        );
        // The quotient is long enough.
        assert(m >= 0x20_0000_0000_0000) by (nonlinear_arith)
            requires
                top == m * mb + r,
                r < mb,
                top >= 0x4000_0000_0000_0000_0000_0000_0000_0000,
                mb < 0x20_0000_0000_0000,
        ;
        assert(m < pow2(127)) by (nonlinear_arith)
            requires
                top == m * mb + r,
                r >= 0,
                top < pow2(127),
                mb >= 1,
        ;
    }
    rounded_to(f, neg, m, e, r == 0, Ghost(num), Ghost(den))
}

/// A small addend moves the sum within the last place of a long enough large one.
proof fn lemma_bracket_far(big: nat, small: nat, m: nat, e: nat)
    requires
        big == m * pow2(e),
        0 < small < pow2(e),
        m > 0,
    ensures
        bracketed(big + small, 1, m, e as int, false),
        small <= big,
        bracketed((big - small) as nat, 1, (m - 1) as nat, e as int, false),
{
    lemma_pow2_pos(e);
    let w = pow2(e);
    lemma_mul_basics(w as int);
    lemma_mul_basics((big + small) as int);
    lemma_mul_basics((big - small) as int);
    assert((m + 1) * w == big + w && (m - 1) * w == big - w) by (nonlinear_arith)
        requires
            big == m * w,
    ;
    assert(big >= w) by (nonlinear_arith)
        requires
            big == m * w,
            m >= 1,
            w > 0,
    ;
}

/// The sum of two finite numbers that are not zero, of which the first has the coarser spacing.
fn added_ordered(f: Format, a: Raw, b: Raw, ma: u64, ka: u32, mb: u64, kb: u32) -> (x: Raw)
    requires
        a.bits < infinite_bits(f),
        b.bits < infinite_bits(f),
        ma * pow2(ka as nat) == decoded(f, a.bits as nat),
        mb * pow2(kb as nat) == decoded(f, b.bits as nat),
        0 < ma < pow2(f.precision()),
        0 < mb < pow2(f.precision()),
        ka > 0 ==> pow2((f.precision() - 1) as nat) <= ma,
        kb <= ka <= f.top(),
    ensures
        x.value(f) == sum(f, a.value(f), b.value(f)),
        x.bits <= infinite_bits(f),
{
    let ghost big = ma * pow2(ka as nat);
    let ghost small = mb * pow2(kb as nat);
    proof {
        lemma_format(f);
        lemma_zero(f, false);
        lemma_positive(ma as nat, ka as nat);
        lemma_positive(mb as nat, kb as nat);
    }
    let d: u32 = ka - kb;
    if d <= 73 {
        let ghost pd = pow2(d as nat);
        let ghost pk = pow2(kb as nat);
        proof {
            lemma_pow2_127();
            lemma2_to64();
            lemma2_to64_rest();
            lemma_pow2_adds(53, 73);
            lemma_pow2_unfold(127);
            lemma_pow2_le(d as nat, 73);
            lemma_pow2_le(f.precision(), 53);
            assert(ma * pd < pow2(126)) by (nonlinear_arith)
                requires
                    ma < pow2(53),
                    pd <= pow2(73),
                    pow2(126) == pow2(53) * pow2(73),
                    pd > 0,
            ;
            lemma_pow2_adds(d as nat, kb as nat);
            assert(big == (ma * pd) * pk) by (nonlinear_arith)
                requires
                    big == ma * pow2(ka as nat),
                    pow2(ka as nat) == pd * pk,
            ;
        }
        let wide: u128 = shifted_up(ma as u128, d);
        let narrow: u128 = mb as u128;
        if a.neg == b.neg {
            let m: u128 = wide + narrow;
            proof {
                assert(big + small == m * pk) by (nonlinear_arith)
                    requires
                        big == wide * pk,
                        small == narrow * pk,
                        m == wide + narrow,
                ;
                lemma_bracket_exact((big + small) as nat, 1, m as nat, kb as nat, 0);
            }
            rounded_to(f, a.neg, m, kb as i32, true, Ghost((big + small) as nat), Ghost(1))
        } else {
            proof {
                lemma_pow2_pos(kb as nat);
                lemma_scale_lt(wide as int, narrow as int, pk as int);
            }
            if wide == narrow {
                return Raw { neg: false, bits: 0 };
            }
            if wide > narrow {
                let m: u128 = wide - narrow;
                proof {
                    lemma_scale_lt(narrow as int, wide as int, pk as int);
                    assert(big - small == m * pk) by (nonlinear_arith)
                        requires
                            big == wide * pk,
                            small == narrow * pk,
                            m == wide - narrow,
                    ;
                    lemma_bracket_exact((big - small) as nat, 1, m as nat, kb as nat, 0);
                }
                rounded_to(f, a.neg, m, kb as i32, true, Ghost((big - small) as nat), Ghost(1))
            } else {
                let m: u128 = narrow - wide;
                proof {
                    assert(small - big == m * pk) by (nonlinear_arith)
                        requires
                            big == wide * pk,
                            small == narrow * pk,
                            m == narrow - wide,
                    ;
                    lemma_bracket_exact((small - big) as nat, 1, m as nat, kb as nat, 0);
                }
                rounded_to(f, b.neg, m, kb as i32, true, Ghost((small - big) as nat), Ghost(1))
            }
        }
    } else {
        let ghost e = (ka - 20) as nat;
        proof {
            lemma2_to64();
            lemma_pow2_127();
            lemma_pow2_adds(20, e);
            lemma_pow2_adds(53, kb as nat);
            lemma_pow2_le((53 + kb) as nat, e);
            lemma_pow2_pos(kb as nat);
            lemma2_to64_rest();
            assert(small < pow2(e)) by (nonlinear_arith)
                requires
                    small == mb * pow2(kb as nat),
                    mb < pow2(53),
                    pow2((53 + kb) as nat) == pow2(53) * pow2(kb as nat),
                    pow2((53 + kb) as nat) <= pow2(e),
                    pow2(kb as nat) > 0,
            ;
            assert(big == (ma * 0x10_0000) * pow2(e)) by (nonlinear_arith)
                requires
                    big == ma * pow2(ka as nat),
                    pow2(ka as nat) == 0x10_0000 * pow2(e),
            ;
            lemma_bracket_far(big as nat, small as nat, (ma * 0x10_0000) as nat, e);
        }
        let m: u128 = ma as u128 * 0x10_0000;
        if a.neg == b.neg {
            rounded_to(
                f,
                a.neg,
                m,
                ka as i32 - 20,
                false,
                Ghost((big + small) as nat),
                Ghost(1),
            )
        } else {
            proof {
                if big == small {
                    lemma_positive((m - 1) as nat, e);
                    lemma_mul_basics(pow2(e) as int);
                }
            }
            rounded_to(
                f,
                a.neg,
                m - 1,
                ka as i32 - 20,
                false,
                Ghost((big - small) as nat),
                Ghost(1),
            )
        }
    }
}

/// A finite number is its own nearest whole number of units.
pub proof fn lemma_decoded_is_rounded(f: Format, bits: nat, neg: bool)
    requires
        bits < infinite_bits(f),
    ensures
        nearest(f, neg, decoded(f, bits), 1) == number(f, neg, bits),
        rounded(decoded(f, bits), 1, f.precision()) == decoded(f, bits),
        decoded(f, bits) < f.limit(),
{
    let p = f.precision();
    let lead = pow2((p - 1) as nat);
    lemma_format(f);
    lemma_pow2_unfold(p);
    let (m, k): (nat, nat) = if bits < 2 * lead {
        (bits, 0)
    } else {
        ((lead + bits % lead) as nat, (bits / lead - 1) as nat)
    };
    lemma2_to64();
    lemma_mul_basics(bits as int);
    assert(decoded(f, bits) == m * pow2(k));
    lemma_mul_basics(pow2(k) as int);
    lemma_round_exact(decoded(f, bits), 1, p, m, k);
    crate::float::rounding::lemma_encoded(f, m, k, neg);
    if bits >= 2 * lead {
        lemma_fundamental_div_mod(bits as int, lead as int);
        assert(k * lead + m == bits) by (nonlinear_arith)
            requires
                bits == lead * (bits / lead) + bits % lead,
                k == bits / lead - 1,
                m == lead + bits % lead,
        ;
    } else {
        lemma_mul_basics(lead as int);
    }
}

/// The sum of two numbers, rounded once.
pub fn added(f: Format, a: Raw, b: Raw) -> (x: Raw)
    ensures
        x.value(f) == sum(f, a.value(f), b.value(f)),
        x.bits <= infinite_bits(f) || x.bits == f.nan_bits(),
{
    let inf: u64 = f.infinity();
    proof {
        lemma_format(f);
        lemma_zero(f, a.neg);
        lemma_zero(f, a.neg && b.neg);
    }
    if a.bits > inf || b.bits > inf || (a.bits == inf && b.bits == inf && a.neg != b.neg) {
        return Raw { neg: false, bits: f.quiet_nan() };
    }
    if a.bits == inf {
        return a;
    }
    if b.bits == inf {
        return b;
    }
    let (ma, ka) = taken_apart(f, a.bits);
    let (mb, kb) = taken_apart(f, b.bits);
    proof {
        lemma_positive(ma as nat, ka as nat);
        lemma_positive(mb as nat, kb as nat);
    }
    if ma == 0 && mb == 0 {
        return Raw { neg: a.neg && b.neg, bits: 0 };
    }
    if ma == 0 {
        proof {
            lemma_decoded_is_rounded(f, b.bits as nat, b.neg);
        }
        return b;
    }
    if mb == 0 {
        proof {
            lemma_decoded_is_rounded(f, a.bits as nat, a.neg);
        }
        return a;
    }
    if ka >= kb {
        added_ordered(f, a, b, ma, ka, mb, kb)
    } else {
        added_ordered(f, b, a, mb, kb, ma, ka)
    }
}

} // verus!
