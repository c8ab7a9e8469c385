//! Counts and rates of a comparison, told in whole numbers.

use crate::float::arith::lemma_format;
use crate::float::laws::{
    law_rounding_error, law_small_wholes_divide, lemma_exact_product, lemma_rounded_order,
    lemma_u64_is_finite,
};
use crate::float::model::{from_int, magnitude, nearest, rounded, sum, Float, Format};
use crate::float::ops::lemma_rounded_zero;
use crate::laws::classification::{is_rate, law_f1_is_bounded, law_share_is_rate, lemma_twice};
use crate::laws::loudness::{
    is_near, lemma_near_chain, lemma_near_descaled, lemma_near_scaled,
};
use crate::metrics::{
    common, false_negatives, false_positives, harmonic, share, tally, true_negatives,
    true_positives,
};
use vstd::arithmetic::mul::lemma_mul_basics;
use vstd::arithmetic::power2::{lemma2_to64, lemma_pow2_pos, pow2};
use vstd::prelude::*;

verus! {

/// The frames among the first `n` that have a label and a prediction as given.
pub open spec fn frames_with(
    labels: Seq<bool>,
    predictions: Seq<bool>,
    label: bool,
    prediction: bool,
    n: nat,
) -> Seq<int> {
    Seq::new(n, |i: int| i).filter(
        |i: int| labels[i] == label && predictions[i] == prediction,
    )
}

/// Frames are counted one by one.
proof fn lemma_tally(
    labels: Seq<bool>,
    predictions: Seq<bool>,
    label: bool,
    prediction: bool,
    n: nat,
)
    ensures
        tally(labels, predictions, label, prediction, n) == frames_with(
            labels,
            predictions,
            label,
            prediction,
            n,
        ).len(),
    decreases n,
{
    reveal(Seq::filter);
    if n > 0 {
        lemma_tally(labels, predictions, label, prediction, (n - 1) as nat);
        let all = Seq::new(n, |i: int| i);
        assert(all.drop_last() =~= Seq::new((n - 1) as nat, |i: int| i));
        assert(all.last() == n - 1);
    }
}

/// What is counted: the frames that are speech and were predicted, those that are not and were,
/// those that are and were not, and those that neither are nor were. Predictions without a label
/// are false positives, labels without a prediction are false negatives.
pub proof fn law_counts_are_of_frames(labels: Seq<bool>, predictions: Seq<bool>)
    ensures
        labels.len() <= predictions.len() ==> {
            let n = labels.len();
            &&& true_positives(labels, predictions) == frames_with(
                labels,
                predictions,
                true,
                true,
                n,
            ).len()
            &&& false_positives(labels, predictions) == frames_with(
                labels,
                predictions,
                false,
                true,
                n,
            ).len() + (predictions.len() - n)
            &&& false_negatives(labels, predictions) == frames_with(
                labels,
                predictions,
                true,
                false,
                n,
            ).len()
            &&& true_negatives(labels, predictions) == frames_with(
                labels,
                predictions,
                false,
                false,
                n,
            ).len()
        },
        labels.len() >= predictions.len() ==> {
            let n = predictions.len();
            &&& true_positives(labels, predictions) == frames_with(
                labels,
                predictions,
                true,
                true,
                n,
            ).len()
            &&& false_positives(labels, predictions) == frames_with(
                labels,
                predictions,
                false,
                true,
                n,
            ).len()
            &&& false_negatives(labels, predictions) == frames_with(
                labels,
                predictions,
                true,
                false,
                n,
            ).len() + (labels.len() - n)
            &&& true_negatives(labels, predictions) == frames_with(
                labels,
                predictions,
                false,
                false,
                n,
            ).len()
        },
{
    let n = common(labels, predictions);
    lemma_tally(labels, predictions, true, true, n);
    lemma_tally(labels, predictions, false, true, n);
    lemma_tally(labels, predictions, true, false, n);
    lemma_tally(labels, predictions, false, false, n);
}

/// A share of up to 2^24 is the part divided by the whole, rounded once; of nothing it is zero.
pub proof fn law_share_is_part_of_whole(part: nat, whole: nat)
    requires
        part <= whole <= 0x100_0000,
    ensures
        whole == 0 ==> share(part, whole) == Float::zero(),
        whole > 0 ==> share(part, whole) == nearest(
            Format::Single,
            false,
            part * Format::Single.one(),
            whole,
        ),
        whole > 0 ==> 0x100_0000 * magnitude(
            share(part, whole).mag() * whole - part * Format::Single.one(),
        ) <= part * Format::Single.one(),
        is_rate(share(part, whole)),
{
    let s = Format::Single;
    let one = s.one();
    lemma_format(s);
    lemma2_to64();
    law_share_is_rate(part, whole);
    if whole > 0 {
        law_small_wholes_divide(s, part, whole);
        law_rounding_error(part * one, whole, 24);
        lemma_pow2_pos(s.scale());
        if part == 0 {
            lemma_mul_basics(one as int);
            lemma_rounded_zero(s, false, whole);
            lemma_mul_basics(whole as int);
        } else {
            let e = magnitude(rounded(part * one, whole, 24) * whole - part * one);
            crate::float::rounding::lemma_pow2_le(48, 149);
            vstd::arithmetic::power2::lemma2_to64_rest();
            assert(part * one >= one) by (nonlinear_arith)
                requires
                    part >= 1,
                    one >= 0,
            ;
            assert(0x100_0000 * e <= part * one);
        }
    }
}

/// A whole number as a number agrees with it.
proof fn lemma_whole_is_near(n: nat)
    requires
        n <= u64::MAX,
    ensures
        from_int(Format::Single, n as int) is Finite,
        !from_int(Format::Single, n as int).neg(),
        is_near(from_int(Format::Single, n as int).mag(), n * Format::Single.one(), 1),
        is_near(n * Format::Single.one(), from_int(Format::Single, n as int).mag(), 2),
{
    let s = Format::Single;
    let one = s.one();
    lemma_format(s);
    lemma2_to64();
    lemma_u64_is_finite(s, n);
    lemma_pow2_pos(s.scale());
    lemma_mul_basics(one as int);
    if n > 0 {
        let m = n * one;
        assert(m > 0) by (nonlinear_arith)
            requires
                m == n * one,
                n > 0,
                one > 0,
        ;
        law_rounding_error(m, 1, 24);
        lemma_mul_basics(rounded(m, 1, 24) as int);
    }
}

/// A share of any counts is the part divided by the whole, up to one part in two million.
pub proof fn law_share_of_any_counts(part: nat, whole: nat)
    requires
        0 < part <= whole <= u64::MAX,
    ensures
        2_000_000 * magnitude(share(part, whole).mag() * whole - part * Format::Single.one())
            <= part * Format::Single.one(),
{
    let s = Format::Single;
    let one = s.one();
    lemma_format(s);
    lemma2_to64();
    lemma_pow2_pos(s.scale());
    lemma_whole_is_near(part);
    lemma_whole_is_near(whole);
    lemma_u64_is_finite(s, part);
    lemma_u64_is_finite(s, whole);
    law_share_is_rate(part, whole);
    let x = from_int(s, part as int).mag();
    let y = from_int(s, whole as int).mag();
    let p = rounded(x * one, y, 24);
    assert(share(part, whole).mag() == p);
    law_rounding_error(x * one, y, 24);
    // Nothing is too small.
    crate::float::laws::lemma_whole_is_positive(s, part);
    crate::float::rounding::lemma_pow2_le(88, 149);
    vstd::arithmetic::power2::lemma_pow2_adds(24, 64);
    assert(x * one >= one * one && 0x100_0000 * y <= one * one) by (nonlinear_arith)
        requires
            x >= one,
            y <= pow2(64) * one,
            one >= 0x100_0000 * pow2(64),
            pow2(64) > 0,
    ;
    assert(is_near(p * y, x * one, 1));
    // The part.
    lemma_near_scaled(x, part * one, 1, one);
    lemma_near_chain(p * y, x * one, (part * one) * one, 1, 1);
    // The whole.
    lemma_near_scaled(whole * one, y, 2, p);
    assert((whole * one) * p == (p * whole) * one && y * p == p * y) by (nonlinear_arith);
    lemma_near_chain((p * whole) * one, p * y, (part * one) * one, 2, 3);
    lemma_near_descaled(p * whole, part * one, 6, one);
}

/// The F1 score is the harmonic mean of precision and recall, up to one part in a million: times
/// their sum it is twice their product. It is zero where both are.
pub proof fn law_f1_is_harmonic_mean(tp: nat, fp: nat, fn_count: nat)
    requires
        tp + fp <= u64::MAX,
        tp + fn_count <= u64::MAX,
    ensures
        ({
            let one = Format::Single.one();
            let p = share(tp, tp + fp).mag();
            let r = share(tp, tp + fn_count).mag();
            let f = harmonic(share(tp, tp + fp), share(tp, tp + fn_count)).mag();
            &&& p + r == 0 ==> f == 0
            &&& 1_000_000 * magnitude(f * (p + r) - 2 * (p * r)) <= 2 * (p * r) + 2_000_000 * (p
                + r) + 1_000_000 * one
        }),
{
    let s = Format::Single;
    let one = s.one();
    let precision = share(tp, tp + fp);
    let recall = share(tp, tp + fn_count);
    let p = precision.mag();
    let r = recall.mag();
    lemma_format(s);
    lemma2_to64();
    lemma_pow2_pos(s.scale());
    law_share_is_rate(tp, tp + fp);
    law_share_is_rate(tp, tp + fn_count);
    law_f1_is_bounded(tp, fp, fn_count);
    lemma_twice(tp, tp + fp);
    if p + r > 0 {
        let b = rounded(p + r, 1, 24);
        lemma_exact_product(s, 1, 0);
        lemma_rounded_order(1, 1, p + r, 1, 24);
        lemma_exact_product(s, 2, s.scale());
        lemma_rounded_order(p + r, 1, 2 * one, 1, 24);
        assert(sum(s, precision, recall) == (Float::Finite { neg: false, mag: b }));
        let q = rounded((2 * p) * r, one, 24);
        assert(((2 * p) * r) * 1 <= (2 * one) * one) by (nonlinear_arith)
            requires
                p <= one,
                r <= one,
        ;
        lemma_rounded_order((2 * p) * r, one, 2 * one, 1, 24);
        let f = rounded(q * one, b, 24);
        law_rounding_error(p + r, 1, 24);
        law_rounding_error((2 * p) * r, one, 24);
        law_rounding_error(q * one, b, 24);
        lemma_mul_basics(b as int);
        assert(harmonic(precision, recall).mag() == f);
        let x = 2 * (p * r);
        assert((2 * p) * r == x) by (nonlinear_arith)
            requires
                x == 2 * (p * r),
        ;
        lemma_errors(p + r, x, b, q * one, f, one);
    } else {
        lemma_mul_basics(p as int);
        lemma_mul_basics(r as int);
    }
}

/// How the errors of three roundings add up.
proof fn lemma_errors(s: nat, x: nat, b: nat, y: nat, f: nat, one: nat)
    requires
        0x100_0000 * magnitude(b - s) <= s || 2 * magnitude(b - s) <= 1,
        0x100_0000 * magnitude(y - x) <= x || 2 * magnitude(y - x) <= one,
        0x100_0000 * magnitude(f * b - y) <= y || 2 * magnitude(f * b - y) <= b,
    ensures
        1_000_000 * magnitude(f * s - x) <= x + 2_000_000 * s + 1_000_000 * one,
{
    let e3 = magnitude(b - s);
    let e2 = magnitude(y - x);
    let e4 = magnitude(f * b - y);
    let fe = f * e3;
    let fs = f * s;
    assert(0x100_0000 * fe <= fs) by (nonlinear_arith)
        requires
            0x100_0000 * e3 <= s,
            fe == f * e3,
            fs == f * s,
            f >= 0,
    ;
    assert(magnitude(fs - f * b) == fe) by (nonlinear_arith)
        requires
            fs == f * s,
            fe == f * e3,
            f >= 0,
            e3 == if b - s < 0 {
                -(b - s)
            } else {
                b - s
            },
            magnitude(fs - f * b) == if fs - f * b < 0 {
                -(fs - f * b)
            } else {
                fs - f * b
            },
    ;
    let d = magnitude(fs - x);
    assert(d <= fe + e4 + e2);
    assert(fs <= x + d);
    assert(y <= x + e2);
    assert(b <= 2 * s);
    assert(0x100_0000 * e2 <= x + 0x80_0000 * one);
    assert(0x100_0000 * e4 <= y + 0x80_0000 * b);
}

/// The F1 score by counts, up to one part in 200 thousand: twice the true positives, divided by
/// twice the true positives and all errors. Without true positives it is zero.
pub proof fn law_f1_by_counts(tp: nat, fp: nat, fn_count: nat)
    requires
        tp + fp <= 0x100_0000,
        tp + fn_count <= 0x100_0000,
    ensures
        ({
            let f = harmonic(share(tp, tp + fp), share(tp, tp + fn_count)).mag();
            let one = Format::Single.one();
            100_000 * magnitude(f * (2 * tp + fp + fn_count) - 2 * tp * one) <= tp * one
        }),
{
    let one = Format::Single.one();
    let u = tp + fp;
    let v = tp + fn_count;
    let p = share(tp, u).mag();
    let r = share(tp, v).mag();
    let f = harmonic(share(tp, u), share(tp, v)).mag();
    let w = tp * one;
    law_f1_is_harmonic_mean(tp, fp, fn_count);
    law_share_is_part_of_whole(tp, u);
    law_share_is_part_of_whole(tp, v);
    if tp == 0 {
        assert(p == 0 && r == 0) by {
            lemma_mul_basics(one as int);
            if u > 0 {
                lemma_rounded_zero(Format::Single, false, u);
            }
            if v > 0 {
                lemma_rounded_zero(Format::Single, false, v);
            }
        }
        lemma_mul_basics(one as int);
        lemma_mul_basics((u + v) as int);
        assert(2 * tp * one == 0);
    } else {
        lemma_pow2_pos(149);
        crate::float::rounding::lemma_pow2_le(72, 149);
        lemma_pow2_seventy_two();
        assert(w >= one) by (nonlinear_arith)
            requires
                w == tp * one,
                tp >= 1,
                one >= 0,
        ;
        let a = p * u;
        let b = r * v;
        lemma_multiplied(f, p, r, u, v, one);
        assert(2 * tp + fp + fn_count == u + v);
        lemma_by_counts(f, a, b, u, v, w, one);
        assert(2 * tp * one == 2 * w) by (nonlinear_arith)
            requires
                w == tp * one,
        ;
    }
}

proof fn lemma_pow2_seventy_two()
    ensures
        pow2(72) == 0x100_0000 * 0x1_0000_0000_0000,
{
    vstd::arithmetic::power2::lemma2_to64_rest();
    lemma2_to64();
    vstd::arithmetic::power2::lemma_pow2_adds(24, 48);
}

/// The error of the harmonic mean, multiplied by both denominators.
proof fn lemma_multiplied(f: nat, p: nat, r: nat, u: nat, v: nat, one: nat)
    requires
        1_000_000 * magnitude(f * (p + r) - 2 * (p * r)) <= 2 * (p * r) + 2_000_000 * (p + r)
            + 1_000_000 * one,
    ensures
        ({
            let a = p * u;
            let b = r * v;
            1_000_000 * magnitude(f * (a * v + b * u) - 2 * (a * b)) <= 2 * (a * b) + 2_000_000 * (a
                * v + b * u) + 1_000_000 * (one * (u * v))
        }),
{
    let a = p * u;
    let b = r * v;
    let uv = u * v;
    let d = f * (p + r) - 2 * (p * r);
    let k = a * v + b * u;
    assert(k == (p + r) * uv) by (nonlinear_arith)
        requires
            k == a * v + b * u,
            a == p * u,
            b == r * v,
            uv == u * v,
    ;
    assert(a * b == (p * r) * uv) by (nonlinear_arith)
        requires
            a == p * u,
            b == r * v,
            uv == u * v,
    ;
    let x = p * r;
    let y = p + r;
    assert(f * (y * uv) - 2 * (x * uv) == d * uv) by (nonlinear_arith)
        requires
            d == f * y - 2 * x,
    ;
    assert(magnitude(d * uv) == magnitude(d) * uv) by (nonlinear_arith)
        requires
            uv >= 0,
            magnitude(d * uv) == if d * uv < 0 {
                -(d * uv)
            } else {
                d * uv
            },
            magnitude(d) == if d < 0 {
                -d
            } else {
                d
            },
    ;
    let e = magnitude(d);
    assert(1_000_000 * (e * uv) <= 2 * (x * uv) + 2_000_000 * (y * uv) + 1_000_000 * (one * uv))
        by (nonlinear_arith)
        requires
            1_000_000 * e <= 2 * x + 2_000_000 * y + 1_000_000 * one,
            uv >= 0,
    ;
}

/// The error of the F1 score by counts.
#[verifier::rlimit(40)]
proof fn lemma_by_counts(f: nat, a: nat, b: nat, u: nat, v: nat, w: nat, one: nat)
    requires
        0 < u <= 0x100_0000,
        0 < v <= 0x100_0000,
        0x100_0000 * magnitude(a - w) <= w,
        0x100_0000 * magnitude(b - w) <= w,
        1_000_000 * magnitude(f * (a * v + b * u) - 2 * (a * b)) <= 2 * (a * b) + 2_000_000 * (a * v
            + b * u) + 1_000_000 * (one * (u * v)),
        w >= one >= 0x100_0000 * 0x1_0000_0000_0000,
    ensures
        100_000 * magnitude(f * (u + v) - 2 * w) <= w,
{
    let s = u + v;
    let k = a * v + b * u;
    let ws = w * s;
    let w2 = w * w;
    let ab = a * b;
    // The denominators.
    assert(0x100_0000 * (k - ws) <= ws && 0x100_0000 * (ws - k) <= ws) by (nonlinear_arith)
        requires
            k == a * v + b * u,
            ws == w * s,
            s == u + v,
            0x100_0000 * (a - w) <= w,
            0x100_0000 * (w - a) <= w,
            0x100_0000 * (b - w) <= w,
            0x100_0000 * (w - b) <= w,
            u > 0,
            v > 0,
    ;
    // The numerators.
    assert(0x100_0000 * (ab - w2) <= 3 * w2 && 0x100_0000 * (w2 - ab) <= 3 * w2)
        by (nonlinear_arith)
        requires
            ab == a * b,
            w2 == w * w,
            0x100_0000 * (a - w) <= w,
            0x100_0000 * (w - a) <= w,
            0x100_0000 * (b - w) <= w,
            0x100_0000 * (w - b) <= w,
            w >= 0,
            a >= 0,
            b >= 0,
    ;
    // What is left is small.
    let ouv = one * (u * v);
    assert(4_000_000 * ws <= w2) by (nonlinear_arith)
        requires
            ws == w * s,
            w2 == w * w,
            s <= 0x200_0000,
            w >= 0x100_0000 * 0x1_0000_0000_0000,
    ;
    assert(u * v <= 0x1_0000_0000_0000) by (nonlinear_arith)
        requires
            0 < u <= 0x100_0000,
            0 < v <= 0x100_0000,
    ;
    let uv = u * v;
    assert(1_000_000 * ouv <= w2) by (nonlinear_arith)
        requires
            ouv == one * uv,
            uv <= 0x1_0000_0000_0000,
            w2 == w * w,
            w >= one >= 0x100_0000 * 0x1_0000_0000_0000,
            uv >= 0,
    ;
    let g = f * k;
    let t = f * ws;
    assert(0x100_0000 * (g - t) <= t && 0x100_0000 * (t - g) <= t) by (nonlinear_arith)
        requires
            g == f * k,
            t == f * ws,
            0x100_0000 * (k - ws) <= ws,
            0x100_0000 * (ws - k) <= ws,
            f >= 0,
    ;
    let e = magnitude(t - 2 * w2);
    assert(100_000 * e <= w2);
    let d = f * s - 2 * w;
    assert(t - 2 * w2 == w * d) by (nonlinear_arith)
        requires
            t == f * ws,
            ws == w * s,
            w2 == w * w,
            d == f * s - 2 * w,
    ;
    assert(100_000 * d <= w && -(100_000 * d) <= w) by (nonlinear_arith)
        requires
            100_000 * (w * d) <= w * w,
            -(100_000 * (w * d)) <= w * w,
            w > 0,
    ;
}

} // verus!
