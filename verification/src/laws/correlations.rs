//! How accurate sums of signed numbers are, and with them the correlation that a pitch rests on.

use crate::float::arith::lemma_format;
use crate::float::laws::{
    law_rounding_error, law_small_whole_is_exact, law_small_wholes_divide, lemma_exact_product,
    lemma_rounded_order, lemma_rounded_scale,
};
use crate::float::model::{
    difference, from_int, magnitude, mean, nearest, product, quotient, rounded, sum, total, Float,
    Format,
};
use crate::float::ops::lemma_rounded_zero;
use crate::float::rounding::lemma_pow2_le;
use crate::laws::averages::{
    are_wholes, law_total_of_wholes, lemma_sum_bounded, size_of_all, sum_of,
};
use crate::laws::pitch::{lemma_best_lag, wholes};
use crate::pitch::{
    as_numbers, best_lag, centered, correlation, lag_of, self_correlation, suggested_pitch,
    MAX_FREQ, MIN_FREQ,
};
use crate::signal::single;
use vstd::arithmetic::div_mod::{lemma_fundamental_div_mod, lemma_fundamental_div_mod_converse};
use vstd::arithmetic::mul::lemma_mul_basics;
use vstd::arithmetic::power2::{
    lemma2_to64, lemma2_to64_rest, lemma_pow2_adds, lemma_pow2_pos, pow2,
};
use vstd::prelude::*;

verus! {

/// Numbers that are finite.
pub open spec fn are_finite(xs: Seq<Float>) -> bool {
    forall|i: int| 0 <= i < xs.len() ==> (#[trigger] xs[i]) is Finite
}

/// The exact sum of signed numbers, in units.
pub open spec fn signed_sum(xs: Seq<Float>) -> int
    decreases xs.len(),
{
    if xs.len() == 0 {
        0
    } else {
        signed_sum(xs.drop_last()) + xs.last().units()
    }
}

/// The sum of the magnitudes of signed numbers, in units.
pub open spec fn sum_of_sizes(xs: Seq<Float>) -> nat
    decreases xs.len(),
{
    if xs.len() == 0 {
        0
    } else {
        sum_of_sizes(xs.drop_last()) + xs.last().mag()
    }
}

/// Adding up signed numbers in single precision is accurate: every one of them counts, and what
/// rounding loses is at most two parts in 2^24 of all magnitudes for each.
pub proof fn law_signed_total_is_accurate(xs: Seq<Float>)
    requires
        are_finite(xs),
        xs.len() <= 0x40_0000,
        4 * sum_of_sizes(xs) < Format::Single.limit(),
    ensures
        total(Format::Single, xs) is Finite,
        0x100_0000 * magnitude(total(Format::Single, xs).units() - signed_sum(xs)) <= 2 * xs.len()
            * sum_of_sizes(xs),
        magnitude(signed_sum(xs)) <= sum_of_sizes(xs),
    decreases xs.len(),
{
    let f = Format::Single;
    lemma_format(f);
    lemma2_to64();
    if xs.len() > 0 {
        let n = xs.len();
        let before = xs.drop_last();
        let x = xs.last();
        assert(xs[n - 1] is Finite);
        assert forall|i: int| 0 <= i < before.len() implies (#[trigger] before[i]) is Finite by {
            assert(xs[i] is Finite);
        }
        law_signed_total_is_accurate(before);
        let t = total(f, before).units();
        let s0 = sum_of_sizes(before);
        let s = sum_of_sizes(xs);
        let e0 = magnitude(t - signed_sum(before));
        assert(e0 <= s0) by (nonlinear_arith)
            requires
                0x100_0000 * e0 <= 2 * (n - 1) * s0,
                1 <= n <= 0x40_0000,
                e0 >= 0,
                s0 >= 0,
        ;
        let m = t + x.units();
        assert(magnitude(m) <= 2 * s);
        let r = total(f, xs);
        let e1 = magnitude(r.units() - m);
        assert(r is Finite && 0x100_0000 * e1 <= 2 * s) by {
            if m != 0 {
                let mag = magnitude(m);
                law_rounding_error(mag, 1, 24);
                lemma_mul_basics(rounded(mag, 1, 24) as int);
                assert(rounded(mag, 1, 24) <= 2 * mag);
            }
        }
        let e = magnitude(r.units() - signed_sum(xs));
        assert(e <= e0 + e1);
        assert(2 * (n - 1) * s0 + 2 * s <= 2 * n * s) by (nonlinear_arith)
            requires
                s0 <= s,
                n >= 1,
                s0 >= 0,
        ;
    }
}

/// The exact sum of the products of the first `n` numbers with those that come `lag` later, in
/// squared units.
pub open spec fn exact_products(xs: Seq<Float>, lag: nat, n: nat) -> int
    decreases n,
{
    if n == 0 {
        0
    } else {
        exact_products(xs, lag, (n - 1) as nat) + xs[n - 1].units() * xs[n - 1 + lag].units()
    }
}

/// The sum of the magnitudes of those products.
pub open spec fn sizes_of_products(xs: Seq<Float>, lag: nat, n: nat) -> nat
    decreases n,
{
    if n == 0 {
        0
    } else {
        sizes_of_products(xs, lag, (n - 1) as nat) + xs[n - 1].mag() * xs[n - 1 + lag].mag()
    }
}

/// Numbers of moderate size, such as samples without their mean.
pub open spec fn are_moderate(xs: Seq<Float>) -> bool {
    forall|i: int|
        0 <= i < xs.len() ==> (#[trigger] xs[i]) is Finite && xs[i].mag() <= 0x2_0000
            * Format::Single.one()
}

/// The rounded products.
spec fn rounded_products(xs: Seq<Float>, lag: nat, n: nat) -> Seq<Float> {
    Seq::new(n, |i: int| product(Format::Single, xs[i], xs[i + lag]))
}

/// A product of two moderate numbers.
proof fn lemma_product_error(x: Float, y: Float)
    requires
        x is Finite,
        y is Finite,
        x.mag() <= 0x2_0000 * Format::Single.one(),
        y.mag() <= 0x2_0000 * Format::Single.one(),
    ensures
        ({
            let r = product(Format::Single, x, y);
            let one = Format::Single.one();
            &&& r is Finite
            &&& r.mag() <= 0x4_0000_0000 * one
            &&& 0x100_0000 * magnitude(r.units() * one - x.units() * y.units()) <= x.mag() * y.mag()
                + 0x80_0000 * one
        }),
{
    let s = Format::Single;
    let one = s.one();
    lemma_format(s);
    lemma2_to64();
    lemma_pow2_pos(s.scale());
    let num = x.mag() * y.mag();
    let r = rounded(num, one, 24);
    law_rounding_error(num, one, 24);
    assert(num * 1 <= (0x4_0000_0000 * one) * one) by (nonlinear_arith)
        requires
            num == x.mag() * y.mag(),
            x.mag() <= 0x2_0000 * one,
            y.mag() <= 0x2_0000 * one,
            x.mag() >= 0,
            y.mag() >= 0,
    ;
    lemma2_to64_rest();
    lemma_pow2_adds(34, 149);
    assert(0x4_0000_0000 * one == 1 * pow2(183));
    lemma_exact_product(s, 1, 183);
    lemma_rounded_order(num, one, 0x4_0000_0000 * one, 1, 24);
    let p = product(s, x, y);
    assert(p.mag() == r);
    assert(x.units() * y.units() == if x.neg() != y.neg() {
        -(num as int)
    } else {
        num as int
    }) by (nonlinear_arith)
        requires
            num == x.mag() * y.mag(),
            x.units() == if x.neg() {
                -(x.mag() as int)
            } else {
                x.mag() as int
            },
            y.units() == if y.neg() {
                -(y.mag() as int)
            } else {
                y.mag() as int
            },
    ;
    assert(p.units() * one == if x.neg() != y.neg() {
        -((r * one) as int)
    } else {
        (r * one) as int
    }) by (nonlinear_arith)
        requires
            p.units() == if x.neg() != y.neg() {
                -(r as int)
            } else {
                r as int
            },
    ;
}

/// The rounded products, all together.
proof fn lemma_products(xs: Seq<Float>, lag: nat, n: nat)
    requires
        are_moderate(xs),
        n + lag <= xs.len(),
        n <= 0x40_0000,
    ensures
        ({
            let ps = rounded_products(xs, lag, n);
            let one = Format::Single.one();
            &&& are_finite(ps)
            &&& correlation(xs, lag, n) == total(Format::Single, ps)
            &&& 0x100_0000 * magnitude(signed_sum(ps) * one - exact_products(xs, lag, n))
                <= sizes_of_products(xs, lag, n) + 0x80_0000 * (n * one)
            &&& 0x100_0000 * (sum_of_sizes(ps) * one) <= 0x100_0001 * sizes_of_products(xs, lag, n)
                + 0x80_0000 * (n * one)
            &&& sum_of_sizes(ps) <= n * (0x4_0000_0000 * one)
        }),
    decreases n,
{
    let one = Format::Single.one();
    let ps = rounded_products(xs, lag, n);
    if n > 0 {
        let m = (n - 1) as nat;
        lemma_products(xs, lag, m);
        let before = rounded_products(xs, lag, m);
        assert(ps.drop_last() =~= before);
        let x = xs[n - 1];
        let y = xs[n - 1 + lag];
        assert(x is Finite && y is Finite);
        lemma_product_error(x, y);
        let p = product(Format::Single, x, y);
        assert(ps.last() == p);
        let num = x.mag() * y.mag();
        assert((n * one) as int == m * one + one) by (nonlinear_arith)
            requires
                n == m + 1,
        ;
        assert(n * (0x4_0000_0000 * one) == m * (0x4_0000_0000 * one) + 0x4_0000_0000 * one)
            by (nonlinear_arith)
            requires
                n == m + 1,
        ;
        assert((signed_sum(before) + p.units()) * one == signed_sum(before) * one + p.units()
            * one) by (nonlinear_arith);
        assert((sum_of_sizes(before) + p.mag()) * one == sum_of_sizes(before) * one + p.mag()
            * one) by (nonlinear_arith);
        assert(magnitude(p.units() * one) == p.mag() * one) by (nonlinear_arith)
            requires
                p.units() == if p.neg() {
                    -(p.mag() as int)
                } else {
                    p.mag() as int
                },
                one >= 0,
                magnitude(p.units() * one) == if p.units() * one < 0 {
                    -(p.units() * one)
                } else {
                    p.units() * one
                },
        ;
        assert(magnitude(x.units() * y.units()) == num) by (nonlinear_arith)
            requires
                num == x.mag() * y.mag(),
                x.units() == x.mag() || x.units() == -(x.mag() as int),
                y.units() == y.mag() || y.units() == -(y.mag() as int),
                x.mag() >= 0,
                y.mag() >= 0,
                magnitude(x.units() * y.units()) == if x.units() * y.units() < 0 {
                    -(x.units() * y.units())
                } else {
                    x.units() * y.units()
                },
        ;
        assert forall|i: int| 0 <= i < ps.len() implies (#[trigger] ps[i]) is Finite by {
            if i < m {
                assert(before[i] is Finite);
                assert(ps[i] == before[i]);
            }
        }
    } else {
        lemma_mul_basics(one as int);
        lemma_mul_basics((0x4_0000_0000 * one) as int);
    }
}

/// The correlation of numbers with those that come later is accurate: it is the sum of all
/// products, up to rounding.
pub proof fn law_correlation_is_accurate(xs: Seq<Float>, lag: nat, n: nat)
    requires
        are_moderate(xs),
        n + lag <= xs.len(),
        n <= 0x40_0000,
    ensures
        ({
            let c = correlation(xs, lag, n);
            let one = Format::Single.one();
            &&& c is Finite
            &&& 0x100_0000 * magnitude(c.units() * one - exact_products(xs, lag, n)) <= (4 * n + 1)
                * sizes_of_products(xs, lag, n) + 0x200_0000 * (n * one)
        }),
{
    let s = Format::Single;
    let one = s.one();
    lemma_format(s);
    lemma2_to64();
    lemma2_to64_rest();
    lemma_pow2_pos(s.scale());
    lemma_products(xs, lag, n);
    let ps = rounded_products(xs, lag, n);
    let size = sum_of_sizes(ps);
    let a = sizes_of_products(xs, lag, n);
    // It fits.
    lemma_pow2_adds(58, 149);
    vstd::arithmetic::power2::lemma_pow2_strictly_increases(207, 277);
    assert(size <= 0x100_0000_0000_0000 * one) by (nonlinear_arith)
        requires
            size <= n * (0x4_0000_0000 * one),
            n <= 0x40_0000,
            one >= 0,
    ;
    law_signed_total_is_accurate(ps);
    let c = correlation(xs, lag, n);
    let e = magnitude(c.units() - signed_sum(ps));
    let d = c.units() - signed_sum(ps);
    assert(magnitude(d * one) == e * one) by (nonlinear_arith)
        requires
            one > 0,
            e == if d < 0 {
                -d
            } else {
                d
            },
            magnitude(d * one) == if d * one < 0 {
                -(d * one)
            } else {
                d * one
            },
    ;
    assert(d * one == c.units() * one - signed_sum(ps) * one) by (nonlinear_arith)
        requires
            d == c.units() - signed_sum(ps),
    ;
    let so = size * one;
    assert(0x100_0000 * (e * one) <= (2 * n) * so) by (nonlinear_arith)
        requires
            0x100_0000 * e <= 2 * n * size,
            so == size * one,
            one >= 0,
    ;
    let k = n * one;
    assert(so <= 2 * a + k);
    assert((2 * n) * so <= (4 * n) * a + 0x80_0000 * k) by (nonlinear_arith)
        requires
            so <= 2 * a + k,
            n <= 0x40_0000,
            n >= 0,
            a >= 0,
            k >= 0,
    ;
    assert((4 * n + 1) * a == (4 * n) * a + a) by (nonlinear_arith);
}

/// Samples without their mean, told in whole numbers: `n` times each is `n` times the sample, less
/// the sum of all, up to a hundredth of a sample.
pub proof fn law_centered_is_accurate(window: Seq<i16>, i: int)
    requires
        0 <= i < window.len() <= 0x100_0000,
        size_of_all(wholes(window)) <= 0x100_0000,
    ensures
        ({
            let one = Format::Single.one();
            let n = window.len();
            let x = centered(window)[i];
            &&& centered(window).len() == n
            &&& x is Finite
            &&& x.mag() <= 0x2_0000 * one
            &&& 100 * magnitude(n * x.units() - (n * window[i] - sum_of(wholes(window))) * one) <= n
                * one
        }),
{
    let f = Format::Single;
    let one = f.one();
    let n = window.len();
    let xs = as_numbers(window);
    let ws = wholes(window);
    let sum = sum_of(ws);
    lemma_format(f);
    lemma2_to64();
    lemma2_to64_rest();
    lemma_pow2_pos(f.scale());
    lemma_pow2_le(48, 149);
    assert(are_wholes(f, xs, ws));
    law_total_of_wholes(f, xs, ws);
    lemma_sum_bounded(ws);
    lemma_sum_in_range(window);
    law_small_whole_is_exact(f, sum);
    law_small_whole_is_exact(f, n as int);
    law_small_whole_is_exact(f, window[i] as int);
    // The mean.
    let m = magnitude(sum);
    let r = rounded(m * one, n, 24);
    lemma_rounded_scale(m * one, n, one, 24);
    assert(magnitude(sum * one) == m * one && ((sum * one < 0) == (sum < 0))) by (nonlinear_arith)
        requires
            one > 0,
            m == if sum < 0 {
                -sum
            } else {
                sum
            },
            magnitude(sum * one) == if sum * one < 0 {
                -(sum * one)
            } else {
                sum * one
            },
    ;
    assert(n * one > 0) by (nonlinear_arith)
        requires
            n > 0,
            one > 0,
    ;
    lemma_exact_product(f, 0x8000, f.scale());
    assert((m * one) * 1 <= (0x8000 * one) * n) by (nonlinear_arith)
        requires
            m <= 0x8000 * n,
            one >= 0,
    ;
    lemma_rounded_order(m * one, n, 0x8000 * one, 1, 24);
    let middle = mean(f, xs);
    assert(middle is Finite && middle.mag() == r);
    law_rounding_error(m * one, n, 24);
    let mu = middle.units();
    let e1 = magnitude(r * n - m * one);
    assert(magnitude(mu * n - sum * one) == e1) by (nonlinear_arith)
        requires
            e1 == magnitude(r * n - m * one),
            magnitude(r * n - m * one) == if r * n - m * one < 0 {
                -(r * n - m * one)
            } else {
                r * n - m * one
            },
            magnitude(mu * n - sum * one) == if mu * n - sum * one < 0 {
                -(mu * n - sum * one)
            } else {
                mu * n - sum * one
            },
            (sum >= 0 && mu == r && m == sum) || (sum <= 0 && mu == -r && m == -sum),
    ;
    // The difference.
    let s = window[i] as int;
    let so = s * one;
    let d = so - mu;
    let x = centered(window)[i];
    assert(x == difference(f, xs[i], middle));
    assert(-(0x8000 * one) <= so <= 0x8000 * one) by (nonlinear_arith)
        requires
            so == s * one,
            -0x8000 <= s <= 0x7fff,
            one >= 0,
    ;
    let e2 = magnitude(x.units() - d);
    assert(x is Finite && x.mag() <= 0x1_0000 * one && 0x100_0000 * e2 <= 0x1_0000 * one) by {
        if d != 0 {
            let mag = magnitude(d);
            law_rounding_error(mag, 1, 24);
            lemma_mul_basics(rounded(mag, 1, 24) as int);
            lemma_exact_product(f, 0x1_0000, f.scale());
            lemma_rounded_order(mag, 1, 0x1_0000 * one, 1, 24);
        }
    }
    // Together.
    let no = n * one;
    let left = n * x.units() - (n * s - sum) * one;
    let g = x.units() - d;
    assert(left == n * g - (mu * n - sum * one)) by (nonlinear_arith)
        requires
            left == n * x.units() - (n * s - sum) * one,
            g == x.units() - d,
            d == so - mu,
            so == s * one,
    ;
    assert(256 * (n * g) <= no && -(256 * (n * g)) <= no) by (nonlinear_arith)
        requires
            256 * g <= one,
            -(256 * g) <= one,
            no == n * one,
            n >= 0,
    ;
    let mo = m * one;
    assert(mo <= 0x8000 * no) by (nonlinear_arith)
        requires
            mo == m * one,
            no == n * one,
            m <= 0x8000 * n,
            one >= 0,
    ;
    assert(n <= no) by (nonlinear_arith)
        requires
            no == n * one,
            one >= 1,
            n >= 0,
    ;
    assert(512 * e1 <= no) by {
        if 2 * e1 <= n {
            assert(512 * n <= no) by (nonlinear_arith)
                requires
                    no == n * one,
                    one >= 512,
                    n >= 0,
            ;
        }
    }
}

/// The sum of samples.
proof fn lemma_sum_in_range(window: Seq<i16>)
    ensures
        magnitude(sum_of(wholes(window))) <= 0x8000 * window.len(),
    decreases window.len(),
{
    if window.len() > 0 {
        lemma_sum_in_range(window.drop_last());
        assert(wholes(window).drop_last() =~= wholes(window.drop_last()));
    }
}

/// The lags that are tried: at any usual sample rate, a 400th and a 70th of the samples per second,
/// without the fraction.
pub proof fn law_lags_at_any_rate(rate: u32)
    requires
        rate <= 0x20_0000,
    ensures
        lag_of(rate, MAX_FREQ) == rate as int / 400,
        lag_of(rate, MIN_FREQ) == rate as int / 70,
{
    let s = Format::Single;
    let one = s.one();
    lemma_format(s);
    lemma2_to64();
    lemma2_to64_rest();
    lemma_pow2_pos(s.scale());
    lemma_pow2_adds(15, 134);
    lemma_pow2_adds(17, 132);
    assert(13_107_200 * pow2(134) == 400 * one && 9_175_040 * pow2(132) == 70 * one)
        by (nonlinear_arith)
        requires
            one == 32_768 * pow2(134),
            one == 131_072 * pow2(132),
    ;
    law_small_whole_is_exact(s, 400);
    law_small_whole_is_exact(s, 70);
    assert(single(MAX_FREQ) == from_int(s, 400));
    assert(single(MIN_FREQ) == from_int(s, 70));
    lemma_lag(rate as nat, 400);
    lemma_lag(rate as nat, 70);
}

/// The whole part of a quotient of small whole numbers.
proof fn lemma_lag(rate: nat, by: nat)
    requires
        rate <= 0x20_0000,
        70 <= by <= 400,
    ensures
        ({
            let q = quotient(
                Format::Single,
                from_int(Format::Single, rate as int),
                from_int(Format::Single, by as int),
            );
            &&& q is Finite && !q.neg()
            &&& q.mag() / Format::Single.one() == rate / by
            &&& rate / by <= 30_000
        }),
{
    let s = Format::Single;
    let one = s.one();
    lemma_format(s);
    lemma2_to64();
    lemma_pow2_pos(s.scale());
    law_small_wholes_divide(s, rate, by);
    let r = rounded(rate * one, by, 24);
    let k = rate / by;
    lemma_fundamental_div_mod(rate as int, by as int);
    assert(k * by <= rate && 512 * rate <= (512 * k + 511) * by) by (nonlinear_arith)
        requires
            rate == by * k + rate % by,
            0 <= rate % by < by,
            by <= 400,
    ;
    assert(k <= 30_000) by (nonlinear_arith)
        requires
            k * by <= rate,
            rate <= 0x20_0000,
            by >= 70,
            k >= 0,
    ;
    if k > 0 {
        lemma_exact_product(s, k, s.scale());
    } else {
        lemma_mul_basics(one as int);
        lemma_rounded_zero(s, false, 1);
    }
    assert((k * one) * by <= (rate * one) * 1) by (nonlinear_arith)
        requires
            k * by <= rate,
            one >= 0,
    ;
    lemma_rounded_order(k * one, 1, rate * one, by, 24);
    // Just below the next whole number.
    let u = pow2(140);
    lemma_pow2_pos(140);
    lemma_pow2_adds(9, 140);
    let t = 512 * k + 511;
    lemma_exact_product(s, t, 140);
    assert((rate * one) * 1 <= (t * u) * by) by (nonlinear_arith)
        requires
            512 * rate <= t * by,
            one == 512 * u,
            u >= 0,
    ;
    lemma_rounded_order(rate * one, by, t * u, 1, 24);
    assert(t * u < k * one + one) by (nonlinear_arith)
        requires
            t == 512 * k + 511,
            one == 512 * u,
            u > 0,
    ;
    lemma_fundamental_div_mod_converse(r as int, one as int, k as int, r - k * one);
}

/// Whether a lag from `lo` to `hi` is the one that a pitch belongs to: it correlates positively,
/// better than all shorter ones, and no longer one correlates better.
pub open spec fn is_best_between(window: Seq<i16>, lo: nat, hi: nat, lag: nat) -> bool {
    &&& lo <= lag <= hi
    &&& Float::zero().lt(self_correlation(centered(window), lag))
    &&& forall|other: nat|
        lo <= other <= hi ==> !self_correlation(centered(window), lag).lt(
            #[trigger] self_correlation(centered(window), other),
        )
    &&& forall|other: nat|
        lo <= other < lag ==> !self_correlation(centered(window), lag).le(
            #[trigger] self_correlation(centered(window), other),
        )
}

/// At any usual sample rate: a pitch is told exactly when the window is longer than the longest lag
/// and some lag correlates positively; it is the sample rate divided by the lag that correlates
/// best.
pub proof fn law_pitch_at_any_rate(window: Seq<i16>, rate: u32)
    requires
        400 <= rate <= 0x20_0000,
    ensures
        ({
            let lo = (rate as int / 400) as nat;
            let hi = (rate as int / 70) as nat;
            let pitch = suggested_pitch(window, rate);
            &&& window.len() <= hi ==> pitch is None
            &&& window.len() > hi ==> (pitch is Some <==> exists|lag: nat|
                lo <= lag <= hi && Float::zero().lt(
                    #[trigger] self_correlation(centered(window), lag),
                ))
            &&& pitch matches Some(p) ==> exists|lag: nat|
                #[trigger] is_best_between(window, lo, hi, lag) && p == nearest(
                    Format::Single,
                    false,
                    rate as nat * Format::Single.one(),
                    lag,
                )
        }),
{
    let lo = (rate as int / 400) as nat;
    let hi = (rate as int / 70) as nat;
    let xs = centered(window);
    law_lags_at_any_rate(rate);
    lemma_best_lag(xs, lo, hi + 1);
    let best = best_lag(xs, lo, hi + 1);
    if best.0 != 0 && window.len() > hi {
        lemma_format(Format::Single);
        lemma2_to64();
        law_small_wholes_divide(Format::Single, rate as nat, best.0);
        assert(Float::zero().lt(self_correlation(xs, best.0)));
        assert(is_best_between(window, lo, hi, best.0));
    }
}

} // verus!
