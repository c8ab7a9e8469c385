//! What the filter does to samples, in whole numbers.

use crate::engine::{filter_after_frames, frame_at, frame_count, offered, FrameResult, VadEngine};
use crate::float::arith::lemma_format;
use crate::float::binary32::{clamped, Binary32};
use crate::float::laws::{
    law_rounding_error, law_small_whole_is_exact, lemma_exact_product, lemma_rounded_order,
    lemma_rounded_scale, lemma_whole_multiple,
};
use crate::float::model::{
    difference, excess, from_int, magnitude, product, rounded, sum, Float, Format,
};
use crate::float::ops::lemma_rounded_zero;
use crate::float::rounding::lemma_excess_range;
use crate::laws::frames::law_share_is_accurate;
use crate::laws::live::lemma_is_rounded;
use crate::laws::recording::padded;
use crate::laws::signal::law_filter_goes_on;
use crate::signal::{
    filter_after, filter_at_rest, filter_step, filtered, sample_of, single, FilterState, FULL_SCALE,
    GREATEST_SAMPLE, HPF_ALPHA, LEAST_SAMPLE,
};
use vstd::arithmetic::div_mod::{lemma_div_is_ordered, lemma_fundamental_div_mod_converse};
use vstd::arithmetic::mul::lemma_mul_basics;
use vstd::arithmetic::power2::{lemma2_to64, lemma_pow2_adds, lemma_pow2_pos, pow2};
use vstd::prelude::*;

verus! {

/// Full scale, and the two samples at its ends.
proof fn lemma_scale()
    ensures
        single(FULL_SCALE) == from_int(Format::Single, 32_768),
        single(GREATEST_SAMPLE) == from_int(Format::Single, 32_767),
        single(LEAST_SAMPLE) == from_int(Format::Single, -32_768),
{
    let s = Format::Single;
    let one = s.one();
    lemma_format(s);
    lemma2_to64();
    lemma_pow2_adds(23, 141);
    lemma_pow2_adds(15, 149);
    lemma_pow2_adds(9, 140);
    law_small_whole_is_exact(s, 32_768);
    law_small_whole_is_exact(s, 32_767);
    law_small_whole_is_exact(s, -32_768);
    assert(single(FULL_SCALE) == (Float::Finite { neg: false, mag: 8_388_608 * pow2(141) }));
    assert(single(LEAST_SAMPLE) == (Float::Finite { neg: true, mag: 8_388_608 * pow2(141) }));
    assert(single(GREATEST_SAMPLE) == (Float::Finite { neg: false, mag: 16_776_704 * pow2(140) }));
    assert(16_776_704 * pow2(140) == 32_767 * one) by (nonlinear_arith)
        requires
            one == 512 * pow2(140),
    ;
}

/// What goes into the filter is the sample in relation to full scale, without any error: a 32768th
/// part of it.
pub proof fn law_filter_takes_sample(state: FilterState, sample: i16)
    ensures
        filter_step(state, sample).x is Finite,
        32_768 * filter_step(state, sample).x.units() == sample * Format::Single.one(),
{
    let s = Format::Single;
    let one = s.one();
    let m = magnitude(sample as int);
    lemma_format(s);
    lemma2_to64();
    lemma_scale();
    law_small_whole_is_exact(s, sample as int);
    law_small_whole_is_exact(s, 32_768);
    lemma_pow2_pos(s.scale());
    let v = pow2(134);
    lemma_pow2_pos(134);
    lemma_pow2_adds(15, 134);
    let den = 32_768 * one;
    assert((m * one) * one == (m * v) * den) by (nonlinear_arith)
        requires
            den == 32_768 * one,
            one == 32_768 * v,
    ;
    lemma_mul_basics(den as int);
    lemma_rounded_scale(m * v, 1, den, 24);
    if m > 0 {
        lemma_exact_product(s, m, 134);
    } else {
        lemma_mul_basics(v as int);
        lemma_rounded_zero(s, false, 1);
    }
    assert(magnitude(sample * one) == m * one) by (nonlinear_arith)
        requires
            one > 0,
            m == if sample < 0 {
                -sample
            } else {
                sample as int
            },
            magnitude(sample * one) == if sample * one < 0 {
                -(sample * one)
            } else {
                sample * one
            },
    ;
    assert((sample * one < 0) == (sample < 0)) by (nonlinear_arith)
        requires
            one > 0,
    ;
    let x = filter_step(state, sample).x;
    assert(x.mag() == m * v);
    assert(32_768 * (m * v) == m * one) by (nonlinear_arith)
        requires
            one == 32_768 * v,
    ;
    assert(sample * one == if sample < 0 {
        -(m * one)
    } else {
        (m * one) as int
    }) by (nonlinear_arith)
        requires
            m == if sample < 0 {
                -sample
            } else {
                sample as int
            },
    ;
}

/// A sum of moderate numbers is accurate.
proof fn lemma_sum_error(a: Float, b: Float)
    requires
        a is Finite,
        b is Finite,
        magnitude(a.units() + b.units()) <= 64 * Format::Single.one(),
    ensures
        sum(Format::Single, a, b) is Finite,
        0x100_0000 * magnitude(
            sum(Format::Single, a, b).units() - (a.units() + b.units()),
        ) <= magnitude(a.units() + b.units()),
{
    let s = Format::Single;
    let u = a.units() + b.units();
    lemma_format(s);
    lemma2_to64();
    if u != 0 {
        let m = magnitude(u);
        law_rounding_error(m, 1, 24);
        lemma_exact_product(s, 64, s.scale());
        lemma_rounded_order(m, 1, 64 * s.one(), 1, 24);
        lemma_mul_basics(rounded(m, 1, 24) as int);
    }
}

/// A filter in use: what it remembers is finite and moderate.
pub open spec fn is_moderate(state: FilterState) -> bool {
    &&& state.x is Finite && magnitude(state.x.units()) <= Format::Single.one()
    &&& state.y is Finite && magnitude(state.y.units()) <= 25 * Format::Single.one()
}

/// One sample through the filter: what comes out is 0.92 times what came out before and the change
/// of what goes in, up to rounding: one part in a million of all three, and two units.
pub proof fn law_filter_step_is_accurate(state: FilterState, sample: i16)
    requires
        is_moderate(state),
    ensures
        ({
            let after = filter_step(state, sample);
            let exact = state.y.units() + after.x.units() - state.x.units();
            let size = magnitude(state.y.units()) + magnitude(after.x.units()) + magnitude(
                state.x.units(),
            );
            &&& after.y is Finite
            &&& 1_000_000 * magnitude(1000 * after.y.units() - 920 * exact) <= 1000 * size
                + 2_000_000_000
            &&& is_moderate(after)
        }),
{
    let s = Format::Single;
    let one = s.one();
    let after = filter_step(state, sample);
    lemma_format(s);
    lemma2_to64();
    lemma_pow2_pos(s.scale());
    crate::float::rounding::lemma_pow2_le(30, 149);
    law_filter_takes_sample(state, sample);
    let x = after.x;
    assert(32_768 * magnitude(x.units()) <= 32_768 * one) by (nonlinear_arith)
        requires
            32_768 * x.units() == sample * one,
            -32_768 <= sample <= 32_767,
            one > 0,
            magnitude(x.units()) == if x.units() < 0 {
                -x.units()
            } else {
                x.units()
            },
    ;
    let a = sum(s, state.y, x);
    lemma_sum_error(state.y, x);
    let back = state.x.negated();
    let b = difference(s, a, state.x);
    lemma_sum_error(a, back);
    assert(back.units() == -state.x.units());
    lemma_moderate_sums(
        state.y.units(),
        x.units(),
        state.x.units(),
        a.units(),
        b.units(),
        one as int,
    );
    lemma_weighted(b);
    lemma_step_errors(
        state.y.units(),
        x.units(),
        state.x.units(),
        a.units(),
        b.units(),
        after.y.units(),
        one as int,
    );
}

/// The two sums are moderate.
proof fn lemma_moderate_sums(y: int, x: int, p: int, a: int, b: int, one: int)
    requires
        magnitude(y) <= 25 * one,
        magnitude(x) <= one,
        magnitude(p) <= one,
        0x100_0000 * magnitude(a - (y + x)) <= magnitude(y + x),
        magnitude(a - p) <= 64 * one ==> 0x100_0000 * magnitude(b - (a - p)) <= magnitude(a - p),
        one > 0,
    ensures
        magnitude(a - p) <= 64 * one,
        magnitude(b) <= 32 * one,
{
}

/// 0.92 times a moderate number.
proof fn lemma_weighted(b: Float)
    requires
        b is Finite,
        magnitude(b.units()) <= 32 * Format::Single.one(),
    ensures
        ({
            let r = product(Format::Single, single(HPF_ALPHA), b);
            &&& r is Finite
            &&& magnitude(0x100_0000 * r.units() - 15_435_039 * b.units()) <= magnitude(b.units())
                + 0x100_0000
        }),
{
    let s = Format::Single;
    let one = s.one();
    lemma_format(s);
    lemma2_to64();
    lemma_pow2_pos(s.scale());
    let v = pow2(125);
    lemma_pow2_pos(125);
    lemma_pow2_adds(24, 125);
    assert(single(HPF_ALPHA) == (Float::Finite { neg: false, mag: 15_435_039 * v }));
    let m = b.mag();
    assert((15_435_039 * v) * m == m * (15_435_039 * v)) by (nonlinear_arith);
    let r = rounded(m * (15_435_039 * v), one, 24);
    law_share_is_accurate(m, 15_435_039, 24, 125);
    lemma_exact_product(s, 64, s.scale());
    assert((m * (15_435_039 * v)) * 1 <= (64 * one) * one) by (nonlinear_arith)
        requires
            m <= 32 * one,
            one == 16_777_216 * v,
    ;
    lemma_rounded_order(m * (15_435_039 * v), one, 64 * one, 1, 24);
    assert(product(s, single(HPF_ALPHA), b).mag() == r);
}

/// How the errors of one step add up.
proof fn lemma_step_errors(y: int, x: int, p: int, a: int, b: int, r: int, one: int)
    requires
        magnitude(y) <= 25 * one,
        magnitude(x) <= one,
        magnitude(p) <= one,
        0x100_0000 * magnitude(a - (y + x)) <= magnitude(y + x),
        0x100_0000 * magnitude(b - (a - p)) <= magnitude(a - p),
        magnitude(0x100_0000 * r - 15_435_039 * b) <= magnitude(b) + 0x100_0000,
        one >= 0x4000_0000,
    ensures
        1_000_000 * magnitude(1000 * r - 920 * (y + x - p)) <= 1000 * (magnitude(y) + magnitude(x)
            + magnitude(p)) + 2_000_000_000,
        magnitude(r) <= 25 * one,
{
    let size = magnitude(y) + magnitude(x) + magnitude(p);
    let exact = y + x - p;
    let e1 = magnitude(a - (y + x));
    let e2 = magnitude(b - (a - p));
    assert(0x100_0000 * e1 <= size);
    assert(0x100_0000 * e2 <= 2 * size);
    let g = b - exact;
    assert(magnitude(g) <= e1 + e2);
    assert(magnitude(exact) <= size);
    let m = magnitude(b);
    assert(m <= 2 * size);
    let d = 0x100_0000 * r - 15_435_039 * b;
    let left = 1000 * r - 920 * exact;
    assert(0x100_0000 * left == 1000 * d + 280 * b + 920 * (0x100_0000 * g));
    lemma_left(left, d, b, g, size);
    lemma_stays(left, r, exact, size, one);
}

/// The errors of one step, put together.
proof fn lemma_left(left: int, d: int, b: int, g: int, size: nat)
    requires
        0x100_0000 * left == 1000 * d + 280 * b + 920 * (0x100_0000 * g),
        magnitude(d) <= 2 * size + 0x100_0000,
        magnitude(b) <= 2 * size,
        0x100_0000 * magnitude(g) <= 3 * size,
    ensures
        1_000_000 * magnitude(left) <= 1000 * size + 2_000_000_000,
{
}

/// What comes out stays moderate.
proof fn lemma_stays(left: int, r: int, exact: int, size: nat, one: int)
    requires
        left == 1000 * r - 920 * exact,
        1_000_000 * magnitude(left) <= 1000 * size + 2_000_000_000,
        magnitude(exact) <= size,
        size <= 27 * one,
        one >= 0x4000_0000,
    ensures
        magnitude(r) <= 25 * one,
{
}

/// Whatever samples go through a new filter, it stays moderate.
pub proof fn law_filter_stays_moderate(samples: Seq<i16>)
    ensures
        is_moderate(filter_after(filter_at_rest(), samples)),
    decreases samples.len(),
{
    if samples.len() > 0 {
        law_filter_stays_moderate(samples.drop_last());
        law_filter_step_is_accurate(
            filter_after(filter_at_rest(), samples.drop_last()),
            samples.last(),
        );
    } else {
        lemma_pow2_pos(149);
    }
}

/// What a filter that started at rest remembers after samples: of the last sample a 32768th part,
/// and what came out for it, which is 0.92 times what came out before and the change of what went
/// in, up to rounding.
pub proof fn law_filter_after_samples(samples: Seq<i16>)
    requires
        samples.len() > 0,
    ensures
        ({
            let before = filter_after(filter_at_rest(), samples.drop_last());
            let after = filter_after(filter_at_rest(), samples);
            let exact = before.y.units() + after.x.units() - before.x.units();
            let size = magnitude(before.y.units()) + magnitude(after.x.units()) + magnitude(
                before.x.units(),
            );
            &&& 32_768 * after.x.units() == samples.last() * Format::Single.one()
            &&& 1_000_000 * magnitude(1000 * after.y.units() - 920 * exact) <= 1000 * size
                + 2_000_000_000
        }),
        filter_after(filter_at_rest(), Seq::<i16>::empty()).y.units() == 0,
        filter_after(filter_at_rest(), Seq::<i16>::empty()).x.units() == 0,
{
    let before = filter_after(filter_at_rest(), samples.drop_last());
    law_filter_stays_moderate(samples.drop_last());
    law_filter_takes_sample(before, samples.last());
    law_filter_step_is_accurate(before, samples.last());
}

/// What comes out of the filter as a sample: 32768 times the value, without the fraction, and no
/// more than a sample can hold. For a whole number `k` of samples: it is not below `k` where 32768
/// times the value is not, and not above where that is not.
#[verifier::rlimit(40)]
pub proof fn law_sample_is_scaled_value(y: Float, k: int)
    requires
        -32_768 <= k <= 32_767,
        y is Finite,
    ensures
        32_768 * y.units() >= k * Format::Single.one() ==> sample_of(y) >= k,
        32_768 * y.units() <= k * Format::Single.one() ==> sample_of(y) <= k,
        y.mag() == 0 ==> sample_of(y) == 0,
{
    let s = Format::Single;
    let one = s.one();
    lemma_format(s);
    lemma2_to64();
    lemma_scale();
    lemma_pow2_pos(s.scale());
    law_small_whole_is_exact(s, 32_768);
    law_small_whole_is_exact(s, 32_767);
    law_small_whole_is_exact(s, -32_768);
    let m = y.mag();
    let num = m * (32_768 * one);
    assert(num == (32_768 * m) * one) by (nonlinear_arith)
        requires
            num == m * (32_768 * one),
    ;
    lemma_rounded_scale(32_768 * m, 1, one, 24);
    let r = rounded(32_768 * m, 1, 24);
    let scaled = product(s, y, single(FULL_SCALE));
    let c = clamped(scaled, single(LEAST_SAMPLE), single(GREATEST_SAMPLE));
    let j = magnitude(k);
    lemma_keeps(r, 32_768 * m, j);
    lemma_keeps(r, 32_768 * m, 32_767);
    lemma_keeps(r, 32_768 * m, 32_768);
    assert(c is Finite);
    lemma_fundamental_div_mod_converse((32_767 * one) as int, one as int, 32_767, 0);
    lemma_fundamental_div_mod_converse((32_768 * one) as int, one as int, 32_768, 0);
    assert(k * one == if k < 0 {
        -(j * one)
    } else {
        (j * one) as int
    }) by (nonlinear_arith)
        requires
            j == if k < 0 {
                -k
            } else {
                k
            },
    ;
    assert(j > 0 ==> j * one > 0) by (nonlinear_arith)
        requires
            one > 0,
    ;
    lemma_mul_basics(one as int);
    if m == 0 {
        lemma_rounded_zero(s, y.neg(), 1);
        lemma_fundamental_div_mod_converse(0, one as int, 0, 0);
    }
}

/// What comes out of the filter as a sample is cut off towards zero: its magnitude is that of 32768
/// times the value, without the fraction, unless a sample cannot hold so much.
pub proof fn law_sample_is_cut_off(y: Binary32)
    requires
        y@ is Finite,
    ensures
        ({
            let whole = (32_768 * y@.mag()) / Format::Single.one();
            sample_of(y@) == if y@.neg() {
                if whole <= 32_768 {
                    -(whole as int)
                } else {
                    -32_768
                }
            } else {
                if whole <= 32_767 {
                    whole as int
                } else {
                    32_767
                }
            }
        }),
{
    let s = Format::Single;
    let one = s.one();
    let x = y@;
    let m = x.mag();
    lemma_format(s);
    lemma2_to64();
    lemma_scale();
    lemma_pow2_pos(s.scale());
    law_small_whole_is_exact(s, 32_768);
    law_small_whole_is_exact(s, 32_767);
    law_small_whole_is_exact(s, -32_768);
    let whole = (32_768 * m) / one;
    lemma_fundamental_div_mod_converse((32_768 * one) as int, one as int, 32_768, 0);
    lemma_fundamental_div_mod_converse((32_767 * one) as int, one as int, 32_767, 0);
    lemma_mul_basics(one as int);
    if m >= one {
        law_sample_is_scaled_value(x, 32_767);
        law_sample_is_scaled_value(x, -32_768);
        lemma_div_is_ordered((32_768 * one) as int, (32_768 * m) as int, one as int);
    } else {
        lemma_is_rounded(y);
        let num = m * (32_768 * one);
        assert(num == (32_768 * m) * one) by (nonlinear_arith)
            requires
                num == m * (32_768 * one),
        ;
        lemma_rounded_scale(32_768 * m, 1, one, 24);
        lemma_scaled_exactly(m);
        assert(product(s, x, single(FULL_SCALE)).mag() == 32_768 * m);
        lemma_div_is_ordered(
            (32_768 * m) as int,
            (32_768 * one) as int,
            one as int,
        );
        if whole > 32_767 {
            vstd::arithmetic::div_mod::lemma_fundamental_div_mod((32_768 * m) as int, one as int);
            assert(32_768 * m >= 32_768 * one) by (nonlinear_arith)
                requires
                    32_768 * m >= one * whole,
                    whole >= 32_768,
                    one > 0,
            ;
        }
        if 32_768 * m > 32_767 * one {
            lemma_div_is_ordered((32_767 * one) as int, (32_768 * m) as int, one as int);
        }
    }
}

/// Scaling a number below one by 32768 is exact.
proof fn lemma_scaled_exactly(m: nat)
    requires
        rounded(m, 1, 24) == m,
        m < Format::Single.one(),
    ensures
        rounded(32_768 * m, 1, 24) == 32_768 * m,
        32_768 * m < Format::Single.limit(),
{
    let s = Format::Single;
    lemma_format(s);
    lemma2_to64();
    if m == 0 {
        lemma_rounded_zero(s, false, 1);
        lemma_pow2_pos(s.precision() + s.top());
    } else {
        let k = excess(m, 24);
        let w = pow2(k);
        lemma_pow2_pos(k);
        lemma_whole_multiple(m, 24);
        lemma_excess_range(m, 24);
        lemma_pow2_adds(24, k);
        let q = m / w;
        assert(q < 0x100_0000) by (nonlinear_arith)
            requires
                q * w == m,
                m < 0x100_0000 * w,
                w > 0,
        ;
        assert(q > 0) by (nonlinear_arith)
            requires
                q * w == m,
                m > 0,
                q >= 0,
        ;
        if k > 149 {
            crate::float::rounding::lemma_pow2_le(149, k);
            assert(q * w >= w) by (nonlinear_arith)
                requires
                    q >= 1,
                    w > 0,
            ;
        }
        lemma_pow2_adds(15, k);
        lemma_exact_product(s, q, 15 + k);
        assert(q * pow2(15 + k) == 32_768 * m) by (nonlinear_arith)
            requires
                pow2(15 + k) == 32_768 * w,
                q * w == m,
        ;
    }
}

/// The whole part of a rounded number keeps the order with whole numbers.
proof fn lemma_keeps(r: nat, exact: nat, k: nat)
    requires
        r == rounded(exact, 1, 24),
        k <= 32_768,
    ensures
        exact >= k * Format::Single.one() ==> r >= k * Format::Single.one() && r
            / Format::Single.one() >= k,
        exact <= k * Format::Single.one() ==> r <= k * Format::Single.one() && r
            / Format::Single.one() <= k,
{
    let s = Format::Single;
    let one = s.one();
    lemma_format(s);
    lemma2_to64();
    lemma_pow2_pos(s.scale());
    if k > 0 {
        lemma_exact_product(s, k, s.scale());
    } else {
        lemma_mul_basics(one as int);
        lemma_rounded_zero(s, false, 1);
    }
    lemma_fundamental_div_mod_converse((k * one) as int, one as int, k as int, 0);
    if exact >= k * one {
        lemma_rounded_order(k * one, 1, exact, 1, 24);
        lemma_div_is_ordered((k * one) as int, r as int, one as int);
    }
    if exact <= k * one {
        lemma_rounded_order(exact, 1, k * one, 1, 24);
        lemma_div_is_ordered(r as int, (k * one) as int, one as int);
    }
}

/// What the detector hears of a frame is what the filter makes of it, sample by sample, and not the
/// frame itself.
pub proof fn law_detector_hears_filtered_frame(
    before: VadEngine,
    frame: Seq<i16>,
    after: VadEngine,
    r: FrameResult,
    j: int,
)
    requires
        before.takes_frame(frame, after, r),
        0 <= j < frame.len(),
    ensures
        after.heard().len() == before.heard().len() + 1,
        after.heard().last().len() == frame.len(),
        after.heard().last()[j] == sample_of(filter_after(before.filter(), frame.take(j + 1)).y),
        after.filter() == filter_after(before.filter(), frame),
{
}

/// The frames of a recording, one after another, are the recording, filled up with silence.
proof fn lemma_one_more_frame(samples: Seq<i16>, n: nat)
    requires
        0 < n <= frame_count(samples.len()),
    ensures
        256 * n <= padded(samples).len(),
        padded(samples).take(256 * n as int) == padded(samples).take(256 * (n - 1)) + frame_at(
            samples,
            n - 1,
        ),
{
    let all = padded(samples);
    assert(all.len() == frame_count(samples.len()) * 256);
    assert(all.take(256 * n as int) =~= all.take(256 * (n - 1)) + frame_at(samples, n - 1));
}

/// The filter goes through the frames of a recording as through the samples in one piece.
proof fn lemma_filter_after_frames(state: FilterState, samples: Seq<i16>, n: nat)
    requires
        n <= frame_count(samples.len()),
    ensures
        256 * n <= padded(samples).len(),
        filter_after_frames(state, samples, n) == filter_after(
            state,
            padded(samples).take(256 * n as int),
        ),
    decreases n,
{
    if n > 0 {
        let m = (n - 1) as nat;
        lemma_filter_after_frames(state, samples, m);
        lemma_one_more_frame(samples, n);
        law_filter_goes_on(state, padded(samples).take(256 * m as int), frame_at(samples, n - 1));
    } else {
        assert(padded(samples).take(0) =~= Seq::empty());
    }
}

/// The beginning of a recording, up to some sample of a frame.
proof fn lemma_beginning(samples: Seq<i16>, i: int, j: int)
    requires
        0 <= i < frame_count(samples.len()),
        0 <= j < 256,
        256 * (i + 1) <= padded(samples).len(),
    ensures
        padded(samples).take(256 * i + j + 1) == padded(samples).take(256 * i) + frame_at(
            samples,
            i,
        ).take(j + 1),
{
    let all = padded(samples);
    let frame = frame_at(samples, i);
    assert(all.take(256 * i + j + 1) =~= all.take(256 * i) + frame.take(j + 1));
}

/// What a filter that started at rest makes of a sample of a frame.
proof fn lemma_offered(samples: Seq<i16>, i: int, j: int)
    requires
        0 <= i < frame_count(samples.len()),
        0 <= j < 256,
    ensures
        offered(filter_at_rest(), samples)[i].len() == 256,
        offered(filter_at_rest(), samples)[i][j] == sample_of(
            filter_after(filter_at_rest(), padded(samples).take(256 * i + j + 1)).y,
        ),
{
    let rest = filter_at_rest();
    let head = padded(samples).take(256 * i);
    let part = frame_at(samples, i).take(j + 1);
    lemma_filter_after_frames(rest, samples, i as nat);
    lemma_filter_after_frames(rest, samples, (i + 1) as nat);
    lemma_beginning(samples, i, j);
    law_filter_goes_on(rest, head, part);
    let state = filter_after_frames(rest, samples, i as nat);
    assert(filtered(state, frame_at(samples, i))[j] == sample_of(filter_after(state, part).y));
}

/// What an engine has heard of a recording.
proof fn lemma_heard(engine: VadEngine, samples: Seq<i16>)
    requires
        engine.has_processed(samples),
    ensures
        engine.heard() == offered(filter_at_rest(), samples),
{
}

/// What the detector has heard after a recording: the samples of the recording, filled up with
/// silence, as they come out of one filter that started at rest and never was interrupted.
pub proof fn law_detector_hears_filtered_recording(
    engine: VadEngine,
    samples: Seq<i16>,
    i: int,
    j: int,
)
    requires
        engine.has_processed(samples),
        0 <= i < frame_count(samples.len()),
        0 <= j < 256,
    ensures
        engine.heard().len() == frame_count(samples.len()),
        engine.heard()[i].len() == 256,
        engine.heard()[i][j] == sample_of(
            filter_after(filter_at_rest(), padded(samples).take(256 * i + j + 1)).y,
        ),
{
    lemma_heard(engine, samples);
    lemma_offered(samples, i, j);
}

} // verus!
