//! Comparisons, and conversions between the formats and from and to integers.

use crate::float::arith::{
    lemma_format, lemma_pow2_127, rounded_to, shifted_down, shifted_up, taken_apart, Raw,
};
use crate::float::model::{
    converted, decoded, from_int, infinite_bits, rounded_away, signed, truncated, Format,
};
use crate::float::ops::{lemma_bracket_exact, lemma_positive, lemma_rounded_zero, lemma_zero};
use crate::float::rounding::{lemma_pow2_le, lemma_scale_lt};
use vstd::arithmetic::div_mod::{
    lemma_div_denominator, lemma_fundamental_div_mod, lemma_fundamental_div_mod_converse,
};
use vstd::arithmetic::mul::lemma_mul_basics;
use vstd::arithmetic::power2::{
    lemma2_to64, lemma2_to64_rest, lemma_pow2_adds, lemma_pow2_pos, lemma_pow2_unfold, pow2,
};
use vstd::prelude::*;

verus! {

/// Of two finite bit patterns the larger stands for the larger magnitude.
pub proof fn lemma_decoded_increases(f: Format, a: nat, b: nat)
    requires
        a < b,
    ensures
        decoded(f, a) < decoded(f, b),
{
    let lead = pow2((f.precision() - 1) as nat);
    lemma_pow2_pos((f.precision() - 1) as nat);
    if b >= 2 * lead {
        lemma_fundamental_div_mod(b as int, lead as int);
        let rb = b % lead;
        assert(b / lead >= 2) by (nonlinear_arith)
            requires
                b >= 2 * lead,
                b == lead * (b / lead) + rb,
                rb < lead,
                lead > 0,
        ;
        let kb = (b / lead - 1) as nat;
        let wb = pow2(kb);
        if a < 2 * lead {
            lemma_pow2_le(1, kb);
            lemma2_to64();
            assert((lead + rb) * wb >= 2 * lead) by (nonlinear_arith)
                requires
                    wb >= 2,
                    rb >= 0,
                    lead > 0,
            ;
        } else {
            lemma_fundamental_div_mod(a as int, lead as int);
            let ra = a % lead;
            let qa = a / lead;
            let qb = b / lead;
            assert(qa >= 2) by (nonlinear_arith)
                requires
                    a >= 2 * lead,
                    a == lead * qa + ra,
                    ra < lead,
                    lead > 0,
            ;
            let ka = (qa - 1) as nat;
            let wa = pow2(ka);
            lemma_pow2_pos(ka);
            assert(qa <= qb && (qa == qb ==> ra < rb)) by (nonlinear_arith)
                requires
                    a < b,
                    a == lead * qa + ra,
                    b == lead * qb + rb,
                    0 <= ra < lead,
                    0 <= rb < lead,
            ;
            if qa == qb {
                lemma_scale_lt((lead + ra) as int, (lead + rb) as int, wa as int);
            } else {
                lemma_pow2_unfold(ka + 1);
                lemma_pow2_le(ka + 1, kb);
                assert((lead + ra) * wa < (lead + rb) * wb) by (nonlinear_arith)
                    requires
                        0 <= ra < lead,
                        rb >= 0,
                        wb >= 2 * wa,
                        wa > 0,
                ;
            }
        }
    }
}

/// `a < b`.
pub fn less(f: Format, a: Raw, b: Raw) -> (r: bool)
    ensures
        r == a.value(f).lt(b.value(f)),
{
    let inf: u64 = f.infinity();
    proof {
        lemma_zero(f, false);
        if a.bits < b.bits {
            lemma_decoded_increases(f, a.bits as nat, b.bits as nat);
        }
        if b.bits < a.bits {
            lemma_decoded_increases(f, b.bits as nat, a.bits as nat);
        }
        if a.bits > 0 {
            lemma_decoded_increases(f, 0, a.bits as nat);
        }
        if b.bits > 0 {
            lemma_decoded_increases(f, 0, b.bits as nat);
        }
    }
    if a.bits > inf || b.bits > inf {
        false
    } else if a.neg {
        if b.neg {
            b.bits < a.bits
        } else {
            a.bits > 0 || b.bits > 0
        }
    } else {
        !b.neg && a.bits < b.bits
    }
}

/// `a <= b`.
pub fn less_or_equal(f: Format, a: Raw, b: Raw) -> (r: bool)
    ensures
        r == a.value(f).le(b.value(f)),
{
    let inf: u64 = f.infinity();
    if a.bits > inf || b.bits > inf {
        false
    } else {
        !less(f, b, a)
    }
}

/// A whole number, rounded once.
pub fn from_integer(f: Format, neg: bool, n: u64) -> (x: Raw)
    requires
        n == 0 ==> !neg,
    ensures
        x.value(f) == from_int(f, signed(neg, n as nat)),
        x.bits <= infinite_bits(f),
{
    proof {
        lemma_zero(f, false);
        lemma_pow2_pos(f.scale());
        lemma_mul_basics(f.one() as int);
        lemma_format(f);
    }
    if n == 0 {
        return Raw { neg: false, bits: 0 };
    }
    let ghost num = n as nat * f.one();
    proof {
        lemma_pow2_127();
        lemma2_to64();
        lemma_positive(n as nat, f.scale());
        lemma_bracket_exact(num, 1, n as nat, f.scale(), 0);
        assert((-(n as int)) * f.one() == -(num as int)) by (nonlinear_arith)
            requires
                num == n * f.one(),
        ;
    }
    rounded_to(f, neg, n as u128, f.scale_exponent() as i32, true, Ghost(num), Ghost(1))
}

/// A number of one format as a number of another, rounded once.
pub fn reformatted(from: Format, to: Format, a: Raw) -> (x: Raw)
    ensures
        x.value(to) == converted(from, to, a.value(from)),
        x.bits <= infinite_bits(to) || x.bits == to.nan_bits(),
{
    let inf: u64 = from.infinity();
    proof {
        lemma_format(from);
        lemma_format(to);
        lemma_zero(to, a.neg);
        lemma_pow2_pos(from.scale());
    }
    if a.bits > inf {
        return Raw { neg: false, bits: to.quiet_nan() };
    }
    if a.bits == inf {
        return Raw { neg: a.neg, bits: to.infinity() };
    }
    let (m, k) = taken_apart(from, a.bits);
    let ghost num = decoded(from, a.bits as nat) * to.one();
    proof {
        lemma_positive(m as nat, k as nat);
    }
    if m == 0 {
        proof {
            lemma_mul_basics(to.one() as int);
            lemma_rounded_zero(to, a.neg, from.one());
        }
        return Raw { neg: a.neg, bits: 0 };
    }
    let e: i32 = k as i32 + to.scale_exponent() as i32 - from.scale_exponent() as i32;
    proof {
        lemma_pow2_127();
        lemma_pow2_adds(k as nat, to.scale());
        assert(num == m * pow2((k + to.scale()) as nat)) by (nonlinear_arith)
            requires
                num == (m * pow2(k as nat)) * to.one(),
                pow2((k + to.scale()) as nat) == pow2(k as nat) * to.one(),
        ;
        lemma_bracket_exact(num, from.one(), m as nat, k as nat + to.scale(), from.scale());
    }
    rounded_to(to, a.neg, m as u128, e, true, Ghost(num), Ghost(from.one()))
}

/// A bound that every integer result lies within.
pub open spec fn within_reach(n: int) -> bool {
    -0x1_0000_0000_0000_0000 < n < 0x1_0000_0000_0000_0000
}

/// `n` brought between two bounds.
fn clipped(neg: bool, n: u128, lo: i128, hi: i128) -> (r: i128)
    requires
        lo <= hi,
        within_reach(lo as int),
        within_reach(hi as int),
    ensures
        r == (if signed(neg, n as nat) < lo {
            lo as int
        } else if signed(neg, n as nat) > hi {
            hi as int
        } else {
            signed(neg, n as nat)
        }),
{
    if n >= 0x1_0000_0000_0000_0000 {
        if neg {
            lo
        } else {
            hi
        }
    } else {
        let v: i128 = if neg {
            -(n as i128)
        } else {
            n as i128
        };
        if v < lo {
            lo
        } else if v > hi {
            hi
        } else {
            v
        }
    }
}

/// The whole part of a finite magnitude, and that of it and a half. Beyond 64 bits, any number
/// beyond 64 bits.
fn whole_parts(f: Format, bits: u64) -> (r: (u128, u128))
    requires
        bits < infinite_bits(f),
    ensures
        ({
            let mag = decoded(f, bits as nat);
            let floor = mag / f.one();
            let round = (2 * mag + f.one()) / (2 * f.one());
            let big: nat = 0x1_0000_0000_0000_0000;
            &&& r.0 == floor || (r.0 >= big && floor >= big)
            &&& r.1 == round || (r.1 >= big && round >= big)
        }),
{
    let (m, k) = taken_apart(f, bits);
    let scale: u32 = f.scale_exponent();
    let ghost mag = decoded(f, bits as nat);
    let ghost one = f.one();
    proof {
        lemma_format(f);
        lemma2_to64();
        lemma2_to64_rest();
        lemma_pow2_pos(f.scale());
        lemma_pow2_127();
    }
    if k >= scale {
        let d: u32 = k - scale;
        let ghost n = m * pow2(d as nat);
        proof {
            lemma_pow2_adds(d as nat, scale as nat);
            assert(mag == n * one) by (nonlinear_arith)
                requires
                    mag == m * pow2(k as nat),
                    pow2(k as nat) == pow2(d as nat) * one,
                    n == m * pow2(d as nat),
            ;
            lemma_fundamental_div_mod_converse(mag as int, one as int, n as int, 0);
            assert(2 * mag + one == n * (2 * one) + one) by (nonlinear_arith)
                requires
                    mag == n * one,
            ;
            lemma_fundamental_div_mod_converse(
                (2 * mag + one) as int,
                (2 * one) as int,
                n as int,
                one as int,
            );
        }
        if d > 64 {
            proof {
                lemma_pow2_le(64, d as nat);
                assert(n >= pow2(64)) by (nonlinear_arith)
                    requires
                        n == m * pow2(d as nat),
                        pow2(d as nat) >= pow2(64),
                        m >= 1,
                ;
            }
            (0x1_0000_0000_0000_0000, 0x1_0000_0000_0000_0000)
        } else {
            proof {
                lemma_pow2_le(d as nat, 64);
                assert(n <= 0x20_0000_0000_0000 * 0x1_0000_0000_0000_0000) by (nonlinear_arith)
                    requires
                        n == m * pow2(d as nat),
                        pow2(d as nat) <= 0x1_0000_0000_0000_0000,
                        m <= 0x20_0000_0000_0000,
                ;
            }
            let v: u128 = shifted_up(m as u128, d);
            (v, v)
        }
    } else {
        let d: u32 = scale - k;
        let ghost pd = pow2(d as nat);
        let ghost pk = pow2(k as nat);
        proof {
            lemma_pow2_adds(d as nat, k as nat);
            lemma_pow2_pos(k as nat);
            lemma_pow2_pos(d as nat);
            lemma_pow2_unfold(d as nat);
            let half = pow2((d - 1) as nat);
            // mag / one == m / 2^d
            assert(one == pk * pd) by (nonlinear_arith)
                requires
                    one == pd * pk,
            ;
            assert(mag == pk * m) by (nonlinear_arith)
                requires
                    mag == m * pk,
            ;
            lemma_div_denominator(mag as int, pk as int, pd as int);
            lemma_fundamental_div_mod_converse(mag as int, pk as int, m as int, 0);
            // (2 mag + one) / (2 one) == (m + 2^(d - 1)) / 2^d
            let top = (2 * mag + one) as int;
            assert(top == (m + half) * (2 * pk)) by (nonlinear_arith)
                requires
                    top == 2 * mag + one,
                    mag == m * pk,
                    one == pd * pk,
                    pd == 2 * half,
            ;
            assert(2 * one == (2 * pk) * pd) by (nonlinear_arith)
                requires
                    one == pd * pk,
            ;
            lemma_div_denominator(top, (2 * pk) as int, pd as int);
            lemma_fundamental_div_mod_converse(top, (2 * pk) as int, (m + half) as int, 0);
        }
        if d > 60 {
            proof {
                lemma_pow2_le(60, (d - 1) as nat);
                let half = pow2((d - 1) as nat);
                lemma_fundamental_div_mod_converse(m as int, pd as int, 0, m as int);
                lemma_fundamental_div_mod_converse(m + half, pd as int, 0, m + half);
            }
            (0, 0)
        } else {
            proof {
                lemma_pow2_le((d - 1) as nat, 60);
                lemma_mul_basics(pow2((d - 1) as nat) as int);
            }
            let half: u128 = shifted_up(1, d - 1);
            (shifted_down(m as u128, d), shifted_down(m as u128 + half, d))
        }
    }
}

/// The whole part as an integer between two bounds.
pub fn truncated_to(f: Format, a: Raw, lo: i128, hi: i128) -> (r: i128)
    requires
        lo <= 0 <= hi,
        within_reach(lo as int),
        within_reach(hi as int),
    ensures
        r == truncated(f, a.value(f), lo as int, hi as int),
        lo <= r <= hi,
{
    let inf: u64 = f.infinity();
    if a.bits > inf {
        0
    } else if a.bits == inf {
        if a.neg {
            lo
        } else {
            hi
        }
    } else {
        let (floor, _) = whole_parts(f, a.bits);
        clipped(a.neg, floor, lo, hi)
    }
}

/// The nearest whole number, half-way cases away from zero, as an integer between two bounds.
pub fn rounded_away_to(f: Format, a: Raw, lo: i128, hi: i128) -> (r: i128)
    requires
        lo <= 0 <= hi,
        within_reach(lo as int),
        within_reach(hi as int),
    ensures
        r == rounded_away(f, a.value(f), lo as int, hi as int),
        lo <= r <= hi,
{
    let inf: u64 = f.infinity();
    if a.bits > inf {
        0
    } else if a.bits == inf {
        if a.neg {
            lo
        } else {
            hi
        }
    } else {
        let (_, round) = whole_parts(f, a.bits);
        clipped(a.neg, round, lo, hi)
    }
}

} // verus!
