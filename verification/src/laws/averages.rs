//! Laws of sums and averages.

use crate::float::arith::lemma_format;
use crate::float::laws::{
    law_rounding_error, law_small_whole_is_exact, law_small_wholes_add, law_small_wholes_divide,
    lemma_rounded_order, lemma_rounded_scale,
};
use crate::float::model::{from_int, magnitude, mean, nearest, rounded, total, Float, Format};
use crate::float::rounding::lemma_pow2_le;
use vstd::arithmetic::mul::lemma_mul_basics;
use vstd::arithmetic::power2::{lemma2_to64, lemma2_to64_rest, lemma_pow2_pos, pow2};
use vstd::prelude::*;

verus! {

/// The sum of whole numbers.
pub open spec fn sum_of(ws: Seq<int>) -> int
    decreases ws.len(),
{
    if ws.len() == 0 {
        0
    } else {
        sum_of(ws.drop_last()) + ws.last()
    }
}

/// The sum of the magnitudes of whole numbers.
pub open spec fn size_of_all(ws: Seq<int>) -> nat
    decreases ws.len(),
{
    if ws.len() == 0 {
        0
    } else {
        size_of_all(ws.drop_last()) + magnitude(ws.last())
    }
}

/// Numbers that are whole.
pub open spec fn are_wholes(f: Format, xs: Seq<Float>, ws: Seq<int>) -> bool {
    &&& xs.len() == ws.len()
    &&& forall|i: int| 0 <= i < xs.len() ==> #[trigger] xs[i] == from_int(f, ws[i])
}

/// A sum is not larger than the sum of the magnitudes.
pub proof fn lemma_sum_bounded(ws: Seq<int>)
    ensures
        magnitude(sum_of(ws)) <= size_of_all(ws),
        forall|i: int| 0 <= i < ws.len() ==> magnitude(#[trigger] ws[i]) <= size_of_all(ws),
    decreases ws.len(),
{
    if ws.len() > 0 {
        let before = ws.drop_last();
        lemma_sum_bounded(before);
        assert forall|i: int| 0 <= i < ws.len() implies magnitude(#[trigger] ws[i]) <= size_of_all(
            ws,
        ) by {
            if i < before.len() {
                assert(before[i] == ws[i]);
            }
        }
    }
}

/// Adding up whole numbers that are small enough is exact: every one of them counts.
pub proof fn law_total_of_wholes(f: Format, xs: Seq<Float>, ws: Seq<int>)
    requires
        are_wholes(f, xs, ws),
        size_of_all(ws) <= pow2(f.precision()),
    ensures
        total(f, xs) == from_int(f, sum_of(ws)),
    decreases xs.len(),
{
    if xs.len() > 0 {
        let before = xs.drop_last();
        let rest = ws.drop_last();
        assert forall|i: int| 0 <= i < before.len() implies #[trigger] before[i] == from_int(
            f,
            rest[i],
        ) by {
            assert(xs[i] == from_int(f, ws[i]));
        }
        law_total_of_wholes(f, before, rest);
        lemma_sum_bounded(rest);
        lemma_sum_bounded(ws);
        assert(xs[xs.len() - 1] == from_int(f, ws[ws.len() - 1]));
        law_small_wholes_add(f, sum_of(rest), ws.last());
    } else {
        lemma_mul_basics(f.one() as int);
    }
}

/// The mean of whole numbers that are small enough and not negative is their sum divided by how
/// many they are, rounded once.
pub proof fn law_mean_of_wholes(f: Format, xs: Seq<Float>, ws: Seq<int>)
    requires
        are_wholes(f, xs, ws),
        size_of_all(ws) <= pow2(f.precision()),
        0 < xs.len() <= pow2(f.precision()),
        sum_of(ws) >= 0,
    ensures
        mean(f, xs) == nearest(f, false, (sum_of(ws) * f.one()) as nat, xs.len()),
{
    law_total_of_wholes(f, xs, ws);
    lemma_sum_bounded(ws);
    law_small_wholes_divide(f, sum_of(ws) as nat, xs.len());
}

/// A larger sum of small whole numbers gives a larger mean.
pub proof fn law_larger_sum_larger_mean(f: Format, a: nat, b: nat, n: nat)
    requires
        a < b <= 0x40_0000,
        0 < n <= 0x100_0000,
    ensures
        nearest(f, false, a * f.one(), n).lt(nearest(f, false, b * f.one(), n)),
        nearest(f, false, b * f.one(), n) is Finite,
{
    let one = f.one();
    let p = f.precision();
    lemma_format(f);
    lemma2_to64();
    lemma2_to64_rest();
    lemma_pow2_pos(f.scale());
    lemma_pow2_le(24, p);
    lemma_pow2_le(50, f.scale());
    law_rounding_error(a * one, n, p);
    law_rounding_error(b * one, n, p);
    let r = rounded(a * one, n, p);
    let t = rounded(b * one, n, p);
    let x = a * one;
    let y = b * one;
    assert(y >= x + one && y <= 0x40_0000 * one) by (nonlinear_arith)
        requires
            x == a * one,
            y == b * one,
            a + 1 <= b,
            b <= 0x40_0000,
            one > 0,
    ;
    let e = magnitude(r * n - x);
    let g = magnitude(t * n - y);
    assert(0x100_0000 * e <= x || 2 * e <= n) by (nonlinear_arith)
        requires
            pow2(p) * e <= x || 2 * e <= n,
            pow2(p) >= 0x100_0000,
            e >= 0,
    ;
    assert(0x100_0000 * g <= y || 2 * g <= n) by (nonlinear_arith)
        requires
            pow2(p) * g <= y || 2 * g <= n,
            pow2(p) >= 0x100_0000,
            g >= 0,
    ;
    assert(pow2(50) >= 0x4_0000_0000_0000);
    assert(4 * e < one && 4 * g < one + 1);
    assert(r * n < t * n);
    assert(r < t) by (nonlinear_arith)
        requires
            r * n < t * n,
            n > 0,
    ;
    // It is finite: not more than 2^22.
    crate::float::laws::lemma_exact_product(f, 0x40_0000, f.scale());
    assert(y * 1 <= (0x40_0000 * one) * n) by (nonlinear_arith)
        requires
            y <= 0x40_0000 * one,
            n >= 1,
            one > 0,
    ;
    lemma_rounded_order(y, n, 0x40_0000 * one, 1, p);
}

/// Numbers that are finite and not negative.
pub open spec fn are_amounts(xs: Seq<Float>) -> bool {
    forall|i: int| 0 <= i < xs.len() ==> (#[trigger] xs[i]) is Finite && !xs[i].neg()
}

/// The exact sum, in units.
pub open spec fn exact_sum(xs: Seq<Float>) -> nat
    decreases xs.len(),
{
    if xs.len() == 0 {
        0
    } else {
        exact_sum(xs.drop_last()) + xs.last().mag()
    }
}

/// Adding up amounts is accurate: every one of them counts, and what rounding loses is at most two
/// parts in `2^p` for each.
pub proof fn law_total_is_accurate(f: Format, xs: Seq<Float>)
    requires
        are_amounts(xs),
        xs.len() <= 0x40_0000,
        4 * exact_sum(xs) < f.limit(),
    ensures
        total(f, xs) is Finite,
        !total(f, xs).neg(),
        pow2(f.precision()) * magnitude(total(f, xs).mag() - exact_sum(xs)) <= 2 * xs.len()
            * exact_sum(xs),
    decreases xs.len(),
{
    let p = f.precision();
    lemma_format(f);
    lemma2_to64();
    lemma_pow2_le(24, p);
    if xs.len() > 0 {
        let n = xs.len();
        let before = xs.drop_last();
        let x = xs.last();
        assert(xs[n - 1] is Finite && !xs[n - 1].neg());
        assert forall|i: int| 0 <= i < before.len() implies (#[trigger] before[i]) is Finite
            && !before[i].neg() by {
            assert(xs[i] is Finite && !xs[i].neg());
        }
        law_total_is_accurate(f, before);
        let t = total(f, before).mag();
        let s0 = exact_sum(before);
        let s = exact_sum(xs);
        let e0 = magnitude(t - s0);
        let pp = pow2(p);
        // What was lost before is less than what there is.
        assert(2 * e0 <= s0) by (nonlinear_arith)
            requires
                pp * e0 <= 2 * (n - 1) * s0,
                pp >= 0x100_0000,
                1 <= n <= 0x40_0000,
                e0 >= 0,
                s0 >= 0,
        ;
        let m = t + x.mag();
        law_rounding_error(m, 1, p);
        let r = rounded(m, 1, p);
        let e1 = magnitude(r - m);
        lemma_mul_basics(r as int);
        assert(pp * e1 <= m) by (nonlinear_arith)
            requires
                pp * e1 <= m || 2 * e1 <= 1,
                e1 >= 0,
                m >= 0,
        ;
        let e = magnitude(r - s);
        assert(e <= e0 + e1);
        assert(pp * e <= pp * e0 + pp * e1) by (nonlinear_arith)
            requires
                e <= e0 + e1,
                pp >= 0,
        ;
        assert(m <= 2 * s);
        assert(2 * (n - 1) * s0 + m <= 2 * n * s) by (nonlinear_arith)
            requires
                m <= 2 * s,
                s0 <= s,
                n >= 1,
                s0 >= 0,
        ;
        assert(e1 <= m) by (nonlinear_arith)
            requires
                pp * e1 <= m,
                pp >= 1,
                e1 >= 0,
        ;
        assert(r <= 4 * s);
    } else {
        lemma_mul_basics(pow2(p) as int);
    }
}

/// The mean of amounts is accurate: it is their sum, of which every one counts, divided by how many
/// they are.
pub proof fn law_mean_is_accurate(f: Format, xs: Seq<Float>)
    requires
        are_amounts(xs),
        0 < xs.len() <= 0x40_0000,
        4 * exact_sum(xs) < f.limit(),
    ensures
        mean(f, xs) is Finite,
        !mean(f, xs).neg(),
        pow2(f.precision()) * magnitude(mean(f, xs).mag() * xs.len() - exact_sum(xs)) <= (2
            * xs.len() + 2) * exact_sum(xs) + pow2(f.precision()) * xs.len(),
{
    let p = f.precision();
    let pp = pow2(p);
    let n = xs.len();
    let one = f.one();
    lemma_format(f);
    lemma2_to64();
    lemma_pow2_le(24, p);
    law_total_is_accurate(f, xs);
    law_small_whole_is_exact(f, n as int);
    let t = total(f, xs).mag();
    let s = exact_sum(xs);
    lemma_rounded_scale(t, n, one, p);
    assert(n * one > 0) by (nonlinear_arith)
        requires
            n > 0,
            one > 0,
    ;
    let r = rounded(t, n, p);
    law_rounding_error(t, n, p);
    let e0 = magnitude(t - s);
    let e1 = magnitude(r * n - t);
    let e = magnitude(r * n - s);
    assert(2 * e0 <= s) by (nonlinear_arith)
        requires
            pp * e0 <= 2 * n * s,
            pp >= 0x100_0000,
            1 <= n <= 0x40_0000,
            e0 >= 0,
            s >= 0,
    ;
    assert(e <= e0 + e1);
    assert(pp * e <= pp * e0 + pp * e1) by (nonlinear_arith)
        requires
            e <= e0 + e1,
            pp >= 0,
    ;
    assert(pp * e1 <= t + pp * n) by (nonlinear_arith)
        requires
            pp * e1 <= t || 2 * e1 <= n,
            pp >= 0,
            e1 >= 0,
            t >= 0,
            n >= 0,
    ;
    assert((2 * n + 2) * s == 2 * n * s + 2 * s) by (nonlinear_arith);
    // It is finite: not more than the sum.
    assert(t * 1 <= t * n) by (nonlinear_arith)
        requires
            n >= 1,
            t >= 0,
    ;
    lemma_rounded_order(t, n, t, 1, p);
    law_rounding_error(t, 1, p);
    lemma_mul_basics(rounded(t, 1, p) as int);
}

} // verus!
