//! The square root, for either format.

use crate::float::arith::{
    bit_length, lemma_format, lemma_pow2_127, rounded_to, shifted_up, taken_apart, Raw,
};
use crate::float::model::{
    decoded, excess, infinite_bits, is_root, nearest_even, nearest_root, rounded, square_root,
    Format,
};
use crate::float::ops::{lemma_positive, lemma_zero};
use crate::float::rounding::{
    bracketed, lemma_excess_at, lemma_pow2_le, lemma_round_discard, lemma_scale_lt,
};
use vstd::arithmetic::div_mod::{
    lemma_div_denominator, lemma_fundamental_div_mod, lemma_fundamental_div_mod_converse,
};
use vstd::arithmetic::mul::lemma_mul_basics;
use vstd::arithmetic::power2::{
    lemma2_to64, lemma2_to64_rest, lemma_pow2_adds, lemma_pow2_pos, lemma_pow2_unfold, pow2,
};
use vstd::prelude::*;

verus! {

/// Squares keep the order of what they are squares of.
proof fn lemma_square_order(a: nat, b: nat)
    by (nonlinear_arith)
    ensures
        a < b <==> a * a < b * b,
        a <= b <==> a * a <= b * b,
{
}

/// Every whole number has a whole root.
pub proof fn lemma_root_exists(x: nat) -> (r: nat)
    ensures
        is_root(r, x),
    decreases x,
{
    if x == 0 {
        assert(is_root(0, 0)) by (nonlinear_arith);
        0
    } else {
        let r = lemma_root_exists((x - 1) as nat);
        let next = r + 1;
        assert((next + 1) * (next + 1) > next * next) by (nonlinear_arith);
        if next * next <= x {
            next
        } else {
            r
        }
    }
}

/// The largest number whose square is at most `n`.
fn whole_root(n: u128) -> (r: u128)
    requires
        n < pow2(126),
    ensures
        is_root(r as nat, n as nat),
        r < pow2(63),
{
    let mut r: u128 = 0;
    let mut step: u128 = 0x8000_0000_0000_0000;
    proof {
        lemma2_to64();
        lemma2_to64_rest();
        lemma_pow2_adds(63, 63);
        assert(pow2(63) * pow2(63) == step * step) by (nonlinear_arith)
            requires
                pow2(63) == step,
        ;
    }
    let ghost mut j: nat = 63;
    while step > 1
        invariant
            step == pow2(j),
            j <= 63,
            r + step <= 0x8000_0000_0000_0000,
            r * r <= n,
            n < (r + step) * (r + step),
        decreases step,
    {
        proof {
            lemma2_to64();
            if j == 0 {
                assert(false);
            }
            lemma_pow2_unfold(j);
            j = (j - 1) as nat;
        }
        step = step / 2;
        let t: u128 = r + step;
        assert(t * t <= 0x8000_0000_0000_0000 * 0x8000_0000_0000_0000) by (nonlinear_arith)
            requires
                t <= 0x8000_0000_0000_0000,
        ;
        if t * t <= n {
            r = t;
        }
    }
    proof {
        lemma_pow2_pos(j);
        assert(step == 1);
        lemma2_to64_rest();
    }
    r
}

/// The root of a number scaled by an even power of two, from the root of the number.
proof fn lemma_scaled_root(x: nat, y: nat, h: nat, big: nat, small: nat)
    requires
        x == y * pow2(2 * h),
        is_root(big, x),
        is_root(small, y),
    ensures
        small * pow2(h) <= big < (small + 1) * pow2(h),
{
    let w = pow2(h);
    lemma_pow2_pos(h);
    lemma_pow2_adds(h, h);
    assert(x == y * (w * w));
    let lo = small * w;
    let hi = (small + 1) * w;
    assert(lo * lo <= x) by (nonlinear_arith)
        requires
            lo == small * w,
            small * small <= y,
            x == y * (w * w),
    ;
    assert(x < hi * hi) by (nonlinear_arith)
        requires
            hi == (small + 1) * w,
            y < (small + 1) * (small + 1),
            x == y * (w * w),
            w > 0,
    ;
    lemma_square_order(lo, big + 1);
    lemma_square_order(big, hi);
}

/// Rounding a root by what is known of its leading part: the discarded bits of the leading part,
/// and whether the root is exact, decide as the half-way point does.
proof fn lemma_root_rounds(x: nat, y: nat, h: nat, big: nat, small: nat, p: nat, len: nat)
    requires
        x == y * pow2(2 * h),
        h >= 1,
        is_root(big, x),
        is_root(small, y),
        p >= 1,
        len > p,
        pow2((len - 1) as nat) <= small < pow2(len),
    ensures
        ({
            let k = excess(big, p);
            let st: nat = if small * small == y {
                0
            } else {
                1
            };
            let num = (2 * small + st) * pow2(h);
            &&& bracketed(num, 2, small, h as int, small * small == y)
            &&& rounded(num, 2, p) == nearest_root(x, big, k) * pow2(k)
        }),
{
    let exact = small * small == y;
    let st: nat = if exact {
        0
    } else {
        1
    };
    let w = pow2(h);
    let num = (2 * small + st) * w;
    let s = (len - p) as nat;
    let k = (h + s) as nat;
    lemma_pow2_pos(h);
    lemma_mul_basics(num as int);
    assert(small * (w * 2) <= num && num < (small + 1) * (w * 2) && (exact <==> num == small * (w
        * 2))) by (nonlinear_arith)
        requires
            num == (2 * small + st) * w,
            st == 0 || st == 1,
            exact <==> st == 0,
            w > 0,
    ;
    assert(bracketed(num, 2, small, h as int, exact));
    // The leading part, split where it is cut.
    let unit = pow2(s);
    lemma_pow2_pos(s);
    let q = small / unit;
    let r = small % unit;
    lemma_fundamental_div_mod(small as int, unit as int);
    assert(unit * q == q * unit) by (nonlinear_arith);
    lemma_round_discard(num, 2, p, small, h as int, exact, s, q, r);
    assert(2 * pow2(k) == 2 * pow2((h + s) as nat));
    // The whole root has the same leading part.
    lemma_scaled_root(x, y, h, big, small);
    assert(big == small * w + (big - small * w));
    assert(big - small * w < w) by (nonlinear_arith)
        requires
            big < (small + 1) * w,
    ;
    lemma_fundamental_div_mod_converse(big as int, w as int, small as int, big - small * w);
    lemma_pow2_adds(h, s);
    lemma_div_denominator(big as int, w as int, unit as int);
    assert(big / pow2(k) == q);
    lemma_pow2_adds(len, h);
    lemma_pow2_adds((len - 1) as nat, h);
    assert(big < pow2(p + k)) by {
        assert(p + k == len + h);
        assert((small + 1) * w <= pow2(len) * w) by (nonlinear_arith)
            requires
                small + 1 <= pow2(len),
        ;
    }
    assert(pow2((p - 1 + k) as nat) <= big) by {
        assert(p - 1 + k == len - 1 + h);
        assert(small * w >= pow2((len - 1) as nat) * w) by (nonlinear_arith)
            requires
                small >= pow2((len - 1) as nat),
        ;
    }
    lemma_excess_at(big, p, k);
    // The half-way point, before scaling.
    lemma_pow2_unfold(s);
    let half = pow2((s - 1) as nat);
    let mid = q * unit + half;
    let point = (2 * q + 1) * pow2(k);
    assert(point == 2 * mid * w) by (nonlinear_arith)
        requires
            point == (2 * q + 1) * pow2(k),
            pow2(k) == w * unit,
            mid == q * unit + half,
            unit == 2 * half,
    ;
    lemma_pow2_adds(h, h);
    let ww = w * w;
    assert(4 * x == 4 * y * ww) by (nonlinear_arith)
        requires
            x == y * ww,
    ;
    assert(point * point == 4 * (mid * mid) * ww) by (nonlinear_arith)
        requires
            point == 2 * mid * w,
            ww == w * w,
    ;
    assert(ww > 0) by (nonlinear_arith)
        requires
            ww == w * w,
            w > 0,
    ;
    lemma_scale_lt(4 * y as int, (4 * (mid * mid)) as int, ww as int);
    lemma_square_order(small + 1, mid);
    lemma_square_order(small, mid);
    lemma_square_order(mid, small);
    assert(2 * r < unit <==> small < mid);
    assert(2 * r == unit <==> small == mid);
    assert(nearest_root(x, big, k) == nearest_even(num, 2 * pow2(k)));
}

/// The square root of a number, rounded once.
pub fn rooted(f: Format, a: Raw) -> (x: Raw)
    ensures
        x.value(f) == square_root(f, a.value(f)),
        x.bits <= infinite_bits(f) || x.bits == f.nan_bits(),
{
    let inf: u64 = f.infinity();
    proof {
        lemma_format(f);
        lemma_zero(f, a.neg);
    }
    if a.bits > inf {
        return Raw { neg: false, bits: f.quiet_nan() };
    }
    if a.bits == inf {
        if a.neg {
            return Raw { neg: false, bits: f.quiet_nan() };
        }
        return a;
    }
    let (m, k) = taken_apart(f, a.bits);
    proof {
        lemma_positive(m as nat, k as nat);
    }
    if m == 0 {
        return a;
    }
    if a.neg {
        return Raw { neg: false, bits: f.quiet_nan() };
    }
    let len: u32 = bit_length(m as u128);
    let ghost full = (k + f.scale()) as nat;
    proof {
        lemma2_to64();
        lemma2_to64_rest();
        if len > 53 {
            lemma_pow2_le(53, (len - 1) as nat);
        }
    }
    let whole: u32 = k + f.scale_exponent();
    let fill: u32 = 126 - len;
    let t: u32 = if (whole - fill) % 2 == 0 {
        fill
    } else {
        fill - 1
    };
    let h: u32 = (whole - t) / 2;
    let ghost pt = pow2(t as nat);
    proof {
        lemma_pow2_127();
        lemma_pow2_unfold(127);
        lemma_pow2_unfold(126);
        lemma_pow2_unfold(125);
        lemma_pow2_adds(len as nat, t as nat);
        lemma_pow2_adds((len - 1) as nat, t as nat);
        lemma_pow2_le((len + t) as nat, 126);
        lemma_pow2_le(124, (len - 1 + t) as nat);
        lemma_pow2_pos(t as nat);
        assert(m * pt < pow2(126) && m * pt >= pow2(124)) by (nonlinear_arith)
            requires
                m < pow2(len as nat),
                m >= pow2((len - 1) as nat),
                pow2(126) >= pow2(len as nat) * pt,
                pow2(124) <= pow2((len - 1) as nat) * pt,
                pt > 0,
        ;
    }
    let y: u128 = shifted_up(m as u128, t);
    let small: u128 = whole_root(y);
    let exact: bool = small * small == y;
    let ghost p = f.precision();
    let ghost x = decoded(f, a.bits as nat) * f.one();
    let ghost big = lemma_root_exists(x);
    let ghost st: nat = if exact {
        0
    } else {
        1
    };
    let ghost num = (2 * small + st) as nat * pow2(h as nat);
    proof {
        // Scaling back.
        lemma_pow2_adds(k as nat, f.scale());
        lemma_pow2_adds(t as nat, (2 * h) as nat);
        assert(t + 2 * h == whole);
        assert(x == y as nat * pow2(2 * (h as nat))) by (nonlinear_arith)
            requires
                x == (m * pow2(k as nat)) * f.one(),
                pow2(full) == pow2(k as nat) * f.one(),
                pow2(full) == pt * pow2(2 * (h as nat)),
                y == m * pt,
        ;
        // The leading part has 63 bits.
        lemma_pow2_adds(62, 62);
        lemma_square_order(small as nat + 1, pow2(62));
        assert(small >= pow2(62));
        // The root that the model speaks of is the only one.
        let chosen = choose|r: nat| is_root(r, x);
        assert(is_root(chosen, x));
        lemma_square_order(chosen, big + 1);
        lemma_square_order(big, chosen + 1);
        assert(chosen == big);
        lemma_root_rounds(x, y as nat, h as nat, big, small as nat, p, 63);
    }
    rounded_to(f, false, small, h as i32, exact, Ghost(num), Ghost(2))
}

} // verus!
