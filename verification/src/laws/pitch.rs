//! Laws of the estimation of pitch.

use crate::engine::SAMPLE_RATE;
use crate::float::arith::lemma_format;
use crate::float::binary32::Binary32;
use crate::float::laws::{
    law_small_whole_is_exact, law_small_wholes_add, law_small_wholes_divide,
    law_small_wholes_keep_order, law_small_wholes_multiply, lemma_exact_product,
    lemma_rounded_order, lemma_rounded_scale, lemma_u64_is_finite,
};
use crate::float::model::{
    from_int, magnitude, mean, nearest, product, rounded, sum, total, Float, Format,
};
use crate::float::ops::lemma_rounded_zero;
use crate::laws::averages::{are_wholes, law_mean_of_wholes, size_of_all, sum_of};
use crate::laws::signal::is_silent;
use crate::pitch::{
    as_numbers, best_lag, centered, correlation, lag_of, middle, self_correlation, suggested_pitch,
    MAX_FREQ, MIN_FREQ,
};
use crate::signal::single;
use crate::sorting::{all_ranked, law_sorting_exists, lemma_same_things, sorting, Ranked};
use vstd::arithmetic::div_mod::lemma_fundamental_div_mod_converse;
use vstd::arithmetic::mul::lemma_mul_basics;
use vstd::arithmetic::power2::{
    lemma2_to64, lemma2_to64_rest, lemma_pow2_adds, lemma_pow2_pos, pow2,
};
use vstd::prelude::*;

verus! {

/// The lag that is found lies among those that are tried.
pub proof fn law_best_lag_is_tried(xs: Seq<Float>, lo: nat, hi: nat)
    ensures
        ({
            let best = best_lag(xs, lo, hi);
            best.0 != 0 ==> lo <= best.0 < hi && best.1 == self_correlation(xs, best.0)
        }),
    decreases hi,
{
    if hi > lo {
        law_best_lag_is_tried(xs, lo, (hi - 1) as nat);
    }
}

/// No lag that is tried correlates better than the one that is found.
pub proof fn law_best_lag_is_best(xs: Seq<Float>, lo: nat, hi: nat, lag: nat)
    requires
        lo <= lag < hi,
    ensures
        !best_lag(xs, lo, hi).1.lt(self_correlation(xs, lag)),
        !best_lag(xs, lo, hi).1.is_nan(),
    decreases hi,
{
    if lag < hi - 1 {
        law_best_lag_is_best(xs, lo, (hi - 1) as nat, lag);
    } else {
        lemma_best_is_number(xs, lo, (hi - 1) as nat);
    }
}

/// The best correlation is a number.
proof fn lemma_best_is_number(xs: Seq<Float>, lo: nat, hi: nat)
    ensures
        !best_lag(xs, lo, hi).1.is_nan(),
    decreases hi,
{
    if hi > lo {
        lemma_best_is_number(xs, lo, (hi - 1) as nat);
    }
}

/// At 16 kHz, lags from 40 to 228 samples are tried.
pub proof fn law_lags_at_sample_rate()
    ensures
        lag_of(SAMPLE_RATE, MAX_FREQ) == 40,
        lag_of(SAMPLE_RATE, MIN_FREQ) == 228,
{
    let s = Format::Single;
    let one = s.one();
    lemma_format(s);
    lemma2_to64();
    lemma2_to64_rest();
    lemma_pow2_pos(s.scale());
    // The two frequencies are whole numbers.
    lemma_pow2_adds(15, 134);
    lemma_pow2_adds(17, 132);
    assert(13_107_200 * pow2(134) == 400 * one && 9_175_040 * pow2(132) == 70 * one)
        by (nonlinear_arith)
        requires
            one == 32_768 * pow2(134),
            one == 131_072 * pow2(132),
    ;
    law_small_whole_is_exact(s, 400);
    law_small_whole_is_exact(s, 70);
    assert(single(MAX_FREQ) == from_int(s, 400));
    assert(single(MIN_FREQ) == from_int(s, 70));
    law_small_wholes_divide(s, 16_000, 400);
    law_small_wholes_divide(s, 16_000, 70);
    // 40 samples.
    assert(16_000 * one == (40 * one) * 400) by (nonlinear_arith);
    lemma_rounded_scale(40 * one, 1, 400, 24);
    lemma_exact_product(s, 40, s.scale());
    lemma_fundamental_div_mod_converse((40 * one) as int, one as int, 40, 0);
    // 228 samples and a bit.
    let r = rounded(16_000 * one, 70, 24);
    lemma_exact_product(s, 228, s.scale());
    lemma_exact_product(s, 915, 147);
    lemma_pow2_adds(2, 147);
    assert((228 * one) * 70 <= (16_000 * one) * 1) by (nonlinear_arith);
    lemma_rounded_order(228 * one, 1, 16_000 * one, 70, 24);
    assert((16_000 * one) * 1 <= (915 * pow2(147)) * 70) by (nonlinear_arith)
        requires
            one == 4 * pow2(147),
    ;
    lemma_rounded_order(16_000 * one, 70, 915 * pow2(147), 1, 24);
    lemma_pow2_pos(147);
    assert(228 * one <= r < 229 * one);
    lemma_fundamental_div_mod_converse(r as int, one as int, 228, r - 228 * one);
}

/// A pitch that is found at 16 kHz lies between 70 and 400 hertz.
pub proof fn law_pitch_is_in_range(window: Seq<i16>)
    requires
        suggested_pitch(window, SAMPLE_RATE) is Some,
    ensures
        ({
            let pitch = suggested_pitch(window, SAMPLE_RATE).unwrap();
            from_int(Format::Single, 70).le(pitch) && pitch.le(from_int(Format::Single, 400))
        }),
{
    let s = Format::Single;
    let one = s.one();
    law_lags_at_sample_rate();
    law_best_lag_is_tried(centered(window), 40, 229);
    let lag = best_lag(centered(window), 40, 229).0;
    lemma_format(s);
    law_small_wholes_divide(s, 16_000, lag);
    law_small_whole_is_exact(s, 70);
    law_small_whole_is_exact(s, 400);
    lemma_exact_product(s, 70, s.scale());
    lemma_exact_product(s, 400, s.scale());
    assert((70 * one) * lag <= (16_000 * one) * 1 && (16_000 * one) * 1 <= (400 * one) * lag)
        by (nonlinear_arith)
        requires
            40 <= lag <= 228,
            one >= 0,
    ;
    lemma_rounded_order(70 * one, 1, 16_000 * one, lag, 24);
    lemma_rounded_order(16_000 * one, lag, 400 * one, 1, 24);
}

/// Zeros add up to zero.
proof fn lemma_zeros(xs: Seq<Float>)
    requires
        forall|i: int| 0 <= i < xs.len() ==> #[trigger] xs[i] == Float::zero(),
    ensures
        total(Format::Single, xs) == Float::zero(),
    decreases xs.len(),
{
    if xs.len() > 0 {
        let before = xs.drop_last();
        assert forall|i: int| 0 <= i < before.len() implies #[trigger] before[i]
            == Float::zero() by {
            assert(xs[i] == Float::zero());
        }
        lemma_zeros(before);
        assert(xs[xs.len() - 1] == Float::zero());
    }
}

/// Zeros do not correlate.
proof fn lemma_zeros_do_not_correlate(xs: Seq<Float>, lag: nat, n: nat)
    requires
        forall|i: int| 0 <= i < xs.len() ==> #[trigger] xs[i] == Float::zero(),
        n + lag <= xs.len(),
    ensures
        correlation(xs, lag, n) == Float::zero(),
    decreases n,
{
    if n > 0 {
        let s = Format::Single;
        lemma_zeros_do_not_correlate(xs, lag, (n - 1) as nat);
        assert(xs[n - 1] == Float::zero());
        assert(xs[(n - 1 + lag) as int] == Float::zero());
        lemma_pow2_pos(s.scale());
        lemma_mul_basics(0);
        lemma_rounded_zero(s, false, s.one());
    }
}

/// Among zeros no lag is found.
proof fn lemma_no_lag_in_zeros(xs: Seq<Float>, lo: nat, hi: nat)
    requires
        forall|i: int| 0 <= i < xs.len() ==> #[trigger] xs[i] == Float::zero(),
        hi <= xs.len() + 1,
    ensures
        best_lag(xs, lo, hi).0 == 0,
        best_lag(xs, lo, hi).1 == Float::zero(),
    decreases hi,
{
    if hi > lo {
        lemma_no_lag_in_zeros(xs, lo, (hi - 1) as nat);
        lemma_zeros_do_not_correlate(xs, (hi - 1) as nat, (xs.len() - (hi - 1)) as nat);
    }
}

/// Silence has no pitch.
pub proof fn law_silence_has_no_pitch(window: Seq<i16>, sample_rate: u32)
    requires
        is_silent(window),
        window.len() <= u64::MAX,
    ensures
        suggested_pitch(window, sample_rate) is None,
{
    let s = Format::Single;
    let longest = lag_of(sample_rate, MIN_FREQ);
    if window.len() > longest {
        let xs = as_numbers(window);
        lemma_mul_basics(s.one() as int);
        assert forall|i: int| 0 <= i < xs.len() implies #[trigger] xs[i] == Float::zero() by {
            assert(window[i] == 0);
        }
        lemma_zeros(xs);
        lemma_u64_is_finite(s, window.len());
        lemma_rounded_zero(s, false, from_int(s, window.len() as int).mag());
        assert(mean(s, xs) == Float::zero());
        let ys = centered(window);
        assert forall|i: int| 0 <= i < ys.len() implies #[trigger] ys[i] == Float::zero() by {
            assert(xs[i] == Float::zero());
        }
        lemma_no_lag_in_zeros(ys, lag_of(sample_rate, MAX_FREQ), longest + 1);
    }
}

/// The median is one of the numbers; those before it in order are not above it, and those after it
/// are not below it.
pub proof fn law_median_is_in_the_middle(numbers: Seq<Binary32>)
    requires
        all_ranked(numbers),
        numbers.len() > 0,
    ensures
        middle(numbers) matches Some(m) && {
            &&& numbers.contains(m)
            &&& forall|i: int|
                0 <= i < numbers.len() / 2 ==> (#[trigger] sorting(numbers)[i])@.le(m@)
            &&& forall|i: int|
                numbers.len() / 2 <= i < numbers.len() ==> m@.le((#[trigger] sorting(numbers)[i])@)
        },
{
    let ordered = sorting(numbers);
    law_sorting_exists(numbers);
    lemma_same_things(ordered, numbers);
    let k = numbers.len() as int / 2;
    let m = ordered[k];
    assert(numbers.contains(m));
    let j = choose|j: int| 0 <= j < numbers.len() && numbers[j] == m;
    assert(numbers[j].has_rank());
    assert forall|i: int| 0 <= i < k implies (#[trigger] ordered[i])@.le(m@) by {
        assert(ordered[i].ranked(m));
    }
    assert forall|i: int| k <= i < numbers.len() implies m@.le((#[trigger] ordered[i])@) by {
        if i > k {
            assert(m.ranked(ordered[i]));
        }
    }
}

/// What is found among lags: nothing, where none correlates positively; else the first that
/// correlates better than all before it and not worse than any after.
pub proof fn lemma_best_lag(xs: Seq<Float>, lo: nat, hi: nat)
    requires
        lo > 0,
    ensures
        ({
            let best = best_lag(xs, lo, hi);
            &&& !best.1.is_nan()
            &&& best.0 == 0 ==> best.1 == Float::zero()
            &&& best.0 != 0 ==> Float::zero().lt(best.1) && lo <= best.0 < hi && best.1
                == self_correlation(xs, best.0)
            &&& forall|lag: nat|
                lo <= lag < hi ==> !best.1.lt(#[trigger] self_correlation(xs, lag))
            &&& forall|lag: nat|
                lo <= lag < best.0 ==> !best.1.le(#[trigger] self_correlation(xs, lag))
        }),
    decreases hi,
{
    if hi > lo {
        lemma_best_lag(xs, lo, (hi - 1) as nat);
        let earlier = best_lag(xs, lo, (hi - 1) as nat);
        let here = self_correlation(xs, (hi - 1) as nat);
        let best = best_lag(xs, lo, hi);
        assert forall|lag: nat| lo <= lag < hi implies !best.1.lt(
            #[trigger] self_correlation(xs, lag),
        ) by {
            if lag < hi - 1 {
                assert(!earlier.1.lt(self_correlation(xs, lag)));
            }
        }
        assert forall|lag: nat| lo <= lag < best.0 implies !best.1.le(
            #[trigger] self_correlation(xs, lag),
        ) by {
            if earlier.1.lt(here) {
                assert(!earlier.1.lt(self_correlation(xs, lag)));
            }
        }
    }
}

/// Whether a lag is the one that a pitch at 16 kHz belongs to: from 40 to 228 samples, it
/// correlates positively, better than all shorter ones, and no longer one correlates better.
pub open spec fn is_best_lag(window: Seq<i16>, lag: nat) -> bool {
    &&& 40 <= lag <= 228
    &&& Float::zero().lt(self_correlation(centered(window), lag))
    &&& forall|other: nat|
        40 <= other <= 228 ==> !self_correlation(centered(window), lag).lt(
            #[trigger] self_correlation(centered(window), other),
        )
    &&& forall|other: nat|
        40 <= other < lag ==> !self_correlation(centered(window), lag).le(
            #[trigger] self_correlation(centered(window), other),
        )
}

/// A pitch is told exactly when the window is long enough and some lag correlates positively; it is
/// the sample rate divided by the lag that correlates best.
pub proof fn law_pitch_belongs_to_best_lag(window: Seq<i16>)
    ensures
        window.len() <= 228 ==> suggested_pitch(window, SAMPLE_RATE) is None,
        window.len() > 228 ==> (suggested_pitch(window, SAMPLE_RATE) is Some <==> exists|lag: nat|
            40 <= lag <= 228 && Float::zero().lt(
                #[trigger] self_correlation(centered(window), lag),
            )),
        suggested_pitch(window, SAMPLE_RATE) matches Some(pitch) ==> exists|lag: nat|
            #[trigger] is_best_lag(window, lag) && pitch == nearest(
                Format::Single,
                false,
                16_000 * Format::Single.one(),
                lag,
            ),
{
    let xs = centered(window);
    law_lags_at_sample_rate();
    lemma_best_lag(xs, 40, 229);
    let best = best_lag(xs, 40, 229);
    if best.0 != 0 && window.len() > 228 {
        lemma_format(Format::Single);
        law_small_wholes_divide(Format::Single, 16_000, best.0);
        assert(Float::zero().lt(self_correlation(xs, best.0)));
        assert(is_best_lag(window, best.0));
    }
}

/// The sum of the products of the first `n` samples with those that come `lag` later.
pub open spec fn products(window: Seq<i16>, lag: nat, n: nat) -> int
    decreases n,
{
    if n == 0 {
        0
    } else {
        products(window, lag, (n - 1) as nat) + window[n - 1] * window[n - 1 + lag]
    }
}

/// A quiet window: at most 1024 samples of magnitude at most 127 that add up to nothing.
pub open spec fn is_quiet_window(window: Seq<i16>) -> bool {
    &&& 0 < window.len() <= 1024
    &&& forall|i: int| 0 <= i < window.len() ==> -127 <= #[trigger] window[i] <= 127
    &&& sum_of(wholes(window)) == 0
}

/// Samples as whole numbers.
pub open spec fn wholes(window: Seq<i16>) -> Seq<int> {
    Seq::new(window.len(), |i: int| window[i] as int)
}

/// The magnitudes of the samples of a quiet window.
proof fn lemma_size_of_quiet(ws: Seq<int>)
    requires
        forall|i: int| 0 <= i < ws.len() ==> -127 <= #[trigger] ws[i] <= 127,
    ensures
        size_of_all(ws) <= 127 * ws.len(),
    decreases ws.len(),
{
    if ws.len() > 0 {
        let rest = ws.drop_last();
        assert forall|i: int| 0 <= i < rest.len() implies -127 <= #[trigger] rest[i] <= 127 by {
            assert(-127 <= ws[i] <= 127);
        }
        lemma_size_of_quiet(rest);
        assert(-127 <= ws[ws.len() - 1] <= 127);
    }
}

/// A quiet window has no offset to take away.
proof fn lemma_centered_quiet(window: Seq<i16>, i: int)
    requires
        is_quiet_window(window),
        0 <= i < window.len(),
    ensures
        centered(window)[i] == from_int(Format::Single, window[i] as int),
{
    let s = Format::Single;
    let xs = as_numbers(window);
    let ws = wholes(window);
    lemma_format(s);
    assert(are_wholes(s, xs, ws));
    assert forall|j: int| 0 <= j < ws.len() implies -127 <= #[trigger] ws[j] <= 127 by {
        assert(-127 <= window[j] <= 127);
    }
    lemma_size_of_quiet(ws);
    law_mean_of_wholes(s, xs, ws);
    lemma_mul_basics(s.one() as int);
    lemma_rounded_zero(s, false, window.len());
    lemma_pow2_pos(s.precision() + s.top());
    assert(mean(s, xs) == Float::zero());
    assert(from_int(s, 0) == Float::zero());
    assert(-127 <= window[i] <= 127);
    law_small_wholes_add(s, window[i] as int, 0);
}

/// A product of small whole numbers, added to a small whole number.
proof fn lemma_product_added(c: int, a: int, b: int)
    requires
        -127 <= a <= 127,
        -127 <= b <= 127,
        magnitude(c) <= 0x100_0000,
    ensures
        sum(
            Format::Single,
            from_int(Format::Single, c),
            product(Format::Single, from_int(Format::Single, a), from_int(Format::Single, b)),
        ) == from_int(Format::Single, c + a * b),
{
    let s = Format::Single;
    let one = s.one();
    lemma_format(s);
    law_small_whole_is_exact(s, a);
    law_small_whole_is_exact(s, b);
    law_small_whole_is_exact(s, c);
    lemma_mul_basics(one as int);
    lemma_pow2_pos(s.scale());
    assert(-16_129 <= a * b <= 16_129) by (nonlinear_arith)
        requires
            -127 <= a <= 127,
            -127 <= b <= 127,
    ;
    if (a < 0) == (b < 0) {
        law_small_wholes_multiply(s, a, b);
        law_small_wholes_add(s, c, a * b);
    } else {
        let x = magnitude(a);
        let y = magnitude(b);
        let m = (x * y) as nat;
        assert(a * b == -(m as int)) by (nonlinear_arith)
            requires
                m == x * y,
                (a < 0) != (b < 0),
                x == if a < 0 {
                    -a
                } else {
                    a
                },
                y == if b < 0 {
                    -b
                } else {
                    b
                },
        ;
        assert((x * one) * (y * one) == (m * one) * one) by (nonlinear_arith)
            requires
                m == x * y,
        ;
        lemma_rounded_scale(m * one, 1, one, 24);
        law_small_whole_is_exact(s, a * b);
        if m > 0 {
            lemma_exact_product(s, m, s.scale());
            law_small_wholes_add(s, c, a * b);
        } else {
            lemma_rounded_zero(s, true, 1);
            assert(c * one + 0 == (c + a * b) * one);
        }
    }
}

/// The correlation of a quiet window with itself is exact.
proof fn lemma_correlation_of_quiet(window: Seq<i16>, lag: nat, n: nat)
    requires
        is_quiet_window(window),
        n + lag <= window.len(),
    ensures
        correlation(centered(window), lag, n) == from_int(
            Format::Single,
            products(window, lag, n),
        ),
        magnitude(products(window, lag, n)) <= 16_129 * n,
    decreases n,
{
    let s = Format::Single;
    if n > 0 {
        let m = (n - 1) as nat;
        lemma_correlation_of_quiet(window, lag, m);
        let a = window[n - 1] as int;
        let b = window[n - 1 + lag] as int;
        lemma_centered_quiet(window, n - 1);
        lemma_centered_quiet(window, n - 1 + lag);
        assert(-16_129 <= a * b <= 16_129) by (nonlinear_arith)
            requires
                -127 <= a <= 127,
                -127 <= b <= 127,
        ;
        lemma_product_added(products(window, lag, m), a, b);
    } else {
        lemma_mul_basics(s.one() as int);
    }
}

/// Whether a lag from 40 to 228 is the one after which the samples agree best with themselves, told
/// in whole numbers.
pub open spec fn agrees_best(window: Seq<i16>, lag: nat) -> bool {
    let at = |l: nat| products(window, l, (window.len() - l) as nat);
    &&& 40 <= lag <= 228
    &&& at(lag) > 0
    &&& forall|other: nat|
        40 <= other <= 228 ==> #[trigger] products(window, other, (window.len() - other) as nat)
            <= at(lag)
    &&& forall|other: nat|
        40 <= other < lag ==> #[trigger] products(window, other, (window.len() - other) as nat)
            < at(lag)
}

/// The pitch of a quiet window at 16 kHz, told in whole numbers: there is one exactly when the
/// samples agree with themselves after some lag from 40 to 228, and it is the sample rate divided
/// by the first lag after which they agree best.
#[verifier::rlimit(40)]
pub proof fn law_pitch_of_quiet_window(window: Seq<i16>)
    requires
        is_quiet_window(window),
        window.len() > 228,
    ensures
        suggested_pitch(window, SAMPLE_RATE) is Some <==> exists|lag: nat|
            40 <= lag <= 228 && #[trigger] products(window, lag, (window.len() - lag) as nat) > 0,
        suggested_pitch(window, SAMPLE_RATE) matches Some(pitch) ==> exists|lag: nat|
            #[trigger] agrees_best(window, lag) && pitch == nearest(
                Format::Single,
                false,
                16_000 * Format::Single.one(),
                lag,
            ),
{
    let s = Format::Single;
    let xs = centered(window);
    law_pitch_belongs_to_best_lag(window);
    lemma_format(s);
    lemma_mul_basics(s.one() as int);
    assert forall|lag: nat| 40 <= lag <= 228 implies {
        let p = products(window, lag, (window.len() - lag) as nat);
        &&& #[trigger] self_correlation(xs, lag) == from_int(s, p)
        &&& magnitude(p) <= 0x100_0000
    } by {
        lemma_correlation_of_quiet(window, lag, (window.len() - lag) as nat);
    }
    assert forall|a: nat, b: nat| 40 <= a <= 228 && 40 <= b <= 228 implies {
        let x = products(window, a, (window.len() - a) as nat);
        let y = products(window, b, (window.len() - b) as nat);
        &&& #[trigger] self_correlation(xs, a).lt(#[trigger] self_correlation(xs, b)) <==> x < y
        &&& self_correlation(xs, a).le(self_correlation(xs, b)) <==> x <= y
        &&& Float::zero().lt(self_correlation(xs, a)) <==> x > 0
    } by {
        let x = products(window, a, (window.len() - a) as nat);
        let y = products(window, b, (window.len() - b) as nat);
        law_small_wholes_keep_order(s, x, y);
        law_small_wholes_keep_order(s, 0, x);
        assert(self_correlation(xs, a) == from_int(s, x));
        assert(self_correlation(xs, b) == from_int(s, y));
    }
    if suggested_pitch(window, SAMPLE_RATE) is Some {
        let pitch = suggested_pitch(window, SAMPLE_RATE).unwrap();
        let lag = choose|lag: nat|
            #[trigger] is_best_lag(window, lag) && pitch == nearest(
                Format::Single,
                false,
                16_000 * Format::Single.one(),
                lag,
            );
        let p = products(window, lag, (window.len() - lag) as nat);
        assert(!self_correlation(xs, lag).lt(self_correlation(xs, lag)));
        assert(p > 0);
        assert forall|other: nat| 40 <= other <= 228 implies #[trigger] products(
            window,
            other,
            (window.len() - other) as nat,
        ) <= p by {
            assert(!self_correlation(xs, lag).lt(self_correlation(xs, other)));
        }
        assert forall|other: nat| 40 <= other < lag implies #[trigger] products(
            window,
            other,
            (window.len() - other) as nat,
        ) < p by {
            assert(!self_correlation(xs, lag).le(self_correlation(xs, other)));
            assert(!self_correlation(xs, lag).lt(self_correlation(xs, other)));
        }
        assert(agrees_best(window, lag));
    }
    if exists|lag: nat|
        40 <= lag <= 228 && #[trigger] products(window, lag, (window.len() - lag) as nat) > 0 {
        let lag = choose|lag: nat|
            40 <= lag <= 228 && #[trigger] products(window, lag, (window.len() - lag) as nat) > 0;
        assert(!self_correlation(xs, lag).lt(self_correlation(xs, lag)));
        assert(Float::zero().lt(self_correlation(xs, lag)));
    }
}

} // verus!
