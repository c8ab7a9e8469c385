//! What is decided on a frame while listening, told in whole numbers.

use crate::float::arith::lemma_format;
use crate::float::binary32::clamped;
use crate::float::laws::{
    law_product_keeps_order, law_rounding_error, law_small_whole_is_exact,
    law_small_wholes_keep_order, lemma_exact_product, lemma_one_is_exact, lemma_rounded_order,
    lemma_rounded_scale,
};
use crate::float::model::{from_int, magnitude, product, rounded, Float, Format};
use crate::laws::frames::{
    at_least_half, law_count_is_of_set_flags, law_loudness_in_whole_numbers,
    law_noise_floor_follows, law_voiced_from_one_half, lemma_trailing, speech_among,
};
use crate::laws::live::law_four_of_six_confirm;
use crate::laws::signal::{is_level, law_loudness_is_level, sum_of_squares};
use crate::live::{
    filled_marks, live_after, live_at_rest, live_confirms, live_pitch, LiveState,
    NOISE_FLOOR_MARGIN,
};
use crate::pitch::suggested_pitch;
use crate::signal::{loudness, single};
use vstd::arithmetic::div_mod::{lemma_div_is_ordered, lemma_fundamental_div_mod_converse};
use vstd::arithmetic::mul::lemma_mul_basics;
use vstd::arithmetic::power2::{lemma2_to64, lemma_pow2_adds, lemma_pow2_pos, pow2};
use vstd::prelude::*;

verus! {

/// The last five frames are kept, and the new one is added as voiced exactly when its score is at
/// least one half.
pub proof fn law_live_history(state: LiveState, frame: Seq<i16>, score: Float)
    requires
        state.history.len() <= 6,
    ensures
        ({
            let after = live_after(state, frame, score).history;
            let kept = if state.history.len() == 6 {
                state.history.skip(1)
            } else {
                state.history
            };
            &&& after.len() == kept.len() + 1
            &&& after.drop_last() == kept
            &&& after.last() == at_least_half(score)
        }),
{
    law_voiced_from_one_half(score);
    let after = live_after(state, frame, score).history;
    let kept = if state.history.len() == 6 {
        state.history.skip(1)
    } else {
        state.history
    };
    assert(after.drop_last() =~= kept);
}

/// 1.3 times a level, compared with a whole number.
#[verifier::rlimit(40)]
proof fn lemma_margin(floor: Float, m: nat, k: nat)
    requires
        is_level(floor),
        m <= 0x1_0000,
        k <= 0x2_0000,
    ensures
        floor.le(from_int(Format::Single, m as int)) && 10 * k > 13 * m ==> product(
            Format::Single,
            floor,
            single(NOISE_FLOOR_MARGIN),
        ).lt(from_int(Format::Single, k as int)),
        from_int(Format::Single, m as int).le(floor) && 10 * k < 13 * m ==> from_int(
            Format::Single,
            k as int,
        ).le(product(Format::Single, floor, single(NOISE_FLOOR_MARGIN))),
{
    let s = Format::Single;
    let one = s.one();
    lemma_format(s);
    lemma2_to64();
    lemma_pow2_pos(s.scale());
    let v = pow2(126);
    lemma_pow2_pos(126);
    lemma_pow2_adds(23, 126);
    let margin = single(NOISE_FLOOR_MARGIN);
    assert(margin == (Float::Finite { neg: false, mag: 10_905_190 * v }));
    law_small_whole_is_exact(s, m as int);
    law_small_whole_is_exact(s, k as int);
    let x = from_int(s, m as int);
    // 1.3 times the whole number.
    let num = (m * one) * (10_905_190 * v);
    let r = rounded(num, one, 24);
    law_rounding_error(num, one, 24);
    lemma_rounded_scale(m * (10_905_190 * v), 1, one, 24);
    assert(num == (m * (10_905_190 * v)) * one) by (nonlinear_arith)
        requires
            num == (m * one) * (10_905_190 * v),
    ;
    let exact = (m * 10_905_190) * v;
    assert(m * (10_905_190 * v) == exact) by (nonlinear_arith)
        requires
            exact == (m * 10_905_190) * v,
    ;
    law_rounding_error(exact, 1, 24);
    lemma_mul_basics(r as int);
    let e = magnitude(r - exact);
    assert(0x100_0000 * e <= exact || e == 0);
    let km = k * one;
    assert(km == (k * 8_388_608) * v) by (nonlinear_arith)
        requires
            km == k * one,
            one == 8_388_608 * v,
    ;
    if k > 0 {
        lemma_exact_product(s, k, s.scale());
    }
    lemma_exact_product(s, 0x2_0000, s.scale());
    assert(exact <= 0x2_0000 * one) by (nonlinear_arith)
        requires
            exact == (m * 10_905_190) * v,
            m <= 0x1_0000,
            one == 8_388_608 * v,
            v > 0,
    ;
    lemma_rounded_order(exact, 1, 0x2_0000 * one, 1, 24);
    assert(product(s, x, margin) == (Float::Finite { neg: false, mag: r }));
    if 10 * k > 13 * m {
        assert(r < km) by (nonlinear_arith)
            requires
                10 * k >= 13 * m + 1,
                m <= 0x1_0000,
                km == (k * 8_388_608) * v,
                exact == (m * 10_905_190) * v,
                0x100_0000 * e <= exact || e == 0,
                r <= exact + e,
                v > 0,
                e >= 0,
        ;
    }
    if 10 * k < 13 * m {
        assert(r >= km) by (nonlinear_arith)
            requires
                10 * k + 1 <= 13 * m,
                m <= 0x1_0000,
                km == (k * 8_388_608) * v,
                exact == (m * 10_905_190) * v,
                0x100_0000 * e <= exact || e == 0,
                r + e >= exact,
                v > 0,
                e >= 0,
        ;
    }
    if floor is Finite {
        if floor.le(x) {
            law_product_keeps_order(s, floor, x, margin);
        }
        if x.le(floor) {
            law_product_keeps_order(s, x, floor, margin);
        }
    }
}

/// 1.3 times a level, compared with another level.
proof fn lemma_margin_of_levels(floor: Float, level: Float)
    requires
        floor is Finite && !floor.neg() && floor.mag() <= 0x10_0000 * Format::Single.one(),
        level is Finite && !level.neg(),
    ensures
        1_000_000 * level.mag() >= 1_300_002 * floor.mag() + 2_000_000 ==> product(
            Format::Single,
            floor,
            single(NOISE_FLOOR_MARGIN),
        ).lt(level),
        1_000_000 * level.mag() + 2_000_000 <= 1_299_998 * floor.mag() ==> !product(
            Format::Single,
            floor,
            single(NOISE_FLOOR_MARGIN),
        ).lt(level),
{
    let s = Format::Single;
    let one = s.one();
    lemma_format(s);
    lemma2_to64();
    lemma_pow2_pos(s.scale());
    let v = pow2(126);
    lemma_pow2_pos(126);
    lemma_pow2_adds(23, 126);
    let margin = single(NOISE_FLOOR_MARGIN);
    assert(margin == (Float::Finite { neg: false, mag: 10_905_190 * v }));
    let f = floor.mag();
    let num = f * (10_905_190 * v);
    let r = rounded(num, one, 24);
    law_rounding_error(num, one, 24);
    let t = 8_388_608 * r - 10_905_190 * f;
    let e = magnitude(t);
    assert(r * one - num == t * v) by (nonlinear_arith)
        requires
            one == 8_388_608 * v,
            num == f * (10_905_190 * v),
            t == 8_388_608 * r - 10_905_190 * f,
    ;
    assert(magnitude(t * v) == e * v) by (nonlinear_arith)
        requires
            v > 0,
            e == if t < 0 {
                -t
            } else {
                t
            },
            magnitude(t * v) == if t * v < 0 {
                -(t * v)
            } else {
                t * v
            },
    ;
    assert(0x100_0000 * e <= 10_905_190 * f || 2 * e <= 8_388_608) by (nonlinear_arith)
        requires
            0x100_0000 * (e * v) <= num || 2 * (e * v) <= one,
            num == f * (10_905_190 * v),
            one == 8_388_608 * v,
            v > 0,
    ;
    lemma_exact_product(s, 0x20_0000, s.scale());
    assert(num * 1 <= (0x20_0000 * one) * one) by (nonlinear_arith)
        requires
            num == f * (10_905_190 * v),
            f <= 0x10_0000 * one,
            one == 8_388_608 * v,
            v > 0,
    ;
    lemma_rounded_order(num, one, 0x20_0000 * one, 1, 24);
    assert(product(s, floor, margin) == (Float::Finite { neg: false, mag: r }));
}

/// When a voice is confirmed, by levels: with six frames remembered, at least four of them voiced,
/// the frame must be more than 1.3 times as loud as the noise floor, and that is enough.
pub proof fn law_voice_is_confirmed_by_level(after: LiveState, frame: Seq<i16>)
    requires
        after.noise_floor_initialized,
        after.noise_floor is Finite && !after.noise_floor.neg(),
        after.noise_floor.mag() <= 0x10_0000 * Format::Single.one(),
        loudness(frame) is Finite && !loudness(frame).neg(),
    ensures
        ({
            let level = loudness(frame).mag();
            let floor = after.noise_floor.mag();
            &&& {
                &&& after.history.len() == 6 && speech_among(after.history) >= 4
                &&& 1_000_000 * level >= 1_300_002 * floor + 2_000_000
            } ==> live_confirms(after, frame)
            &&& 1_000_000 * level + 2_000_000 <= 1_299_998 * floor ==> !live_confirms(after, frame)
        }),
{
    lemma_margin_of_levels(after.noise_floor, loudness(frame));
    if after.history.len() == 6 {
        law_four_of_six_confirm(after.history);
        law_count_is_of_set_flags(after.history);
    }
}

/// When a voice is confirmed: six frames are remembered, at least four of them voiced, and the
/// frame is more than 1.3 times as loud as the noise floor, or no noise floor is known.
pub proof fn law_voice_is_confirmed(after: LiveState, frame: Seq<i16>, m: nat, k: nat)
    requires
        0 < frame.len() <= 0x80_0000,
        m <= 0x1_0000,
        k <= 0x2_0000,
        is_level(after.noise_floor),
    ensures
        live_confirms(after, frame) ==> after.history.len() == 6 && speech_among(after.history)
            >= 4,
        after.history.len() == 6 && speech_among(after.history) >= 4 ==> {
            &&& !after.noise_floor_initialized ==> live_confirms(after, frame)
            &&& {
                &&& after.noise_floor.le(from_int(Format::Single, m as int))
                &&& sum_of_squares(frame) >= frame.len() * (k * k)
                &&& 10 * k > 13 * m
            } ==> live_confirms(after, frame)
        },
        ({
            &&& after.noise_floor_initialized
            &&& from_int(Format::Single, m as int).le(after.noise_floor)
            &&& sum_of_squares(frame) <= frame.len() * (k * k)
            &&& 10 * k < 13 * m
        }) ==> !live_confirms(after, frame),
{
    let s = Format::Single;
    lemma_format(s);
    law_loudness_is_level(frame);
    law_loudness_in_whole_numbers(frame, k);
    law_small_whole_is_exact(s, k as int);
    lemma_margin(after.noise_floor, m, k);
    if after.history.len() == 6 {
        law_four_of_six_confirm(after.history);
        law_count_is_of_set_flags(after.history);
    }
}

/// A frame that is scored at least one half leaves the noise floor alone. The first other frame
/// sets it to its loudness, and every other moves it by a twentieth of the way, up to one part in a
/// thousand.
pub proof fn law_live_noise_floor(state: LiveState, frame: Seq<i16>, score: Float)
    requires
        0 < frame.len() <= 0x80_0000,
    ensures
        ({
            let after = live_after(state, frame, score);
            let level = loudness(frame);
            &&& at_least_half(score) ==> after.noise_floor == state.noise_floor
                && after.noise_floor_initialized == state.noise_floor_initialized
            &&& !at_least_half(score) ==> after.noise_floor_initialized
            &&& !at_least_half(score) && !state.noise_floor_initialized ==> after.noise_floor
                == level
            &&& {
                &&& !at_least_half(score) && state.noise_floor_initialized
                &&& is_level(state.noise_floor)
                &&& state.noise_floor.le(from_int(Format::Single, 0x10_0000))
            } ==> {
                &&& after.noise_floor is Finite && !after.noise_floor.neg()
                &&& 1000 * after.noise_floor.mag() <= 951 * state.noise_floor.mag() + 51
                    * level.mag() + 3000
                &&& 1000 * after.noise_floor.mag() + 3000 >= 949 * state.noise_floor.mag() + 49
                    * level.mag()
                // Up to two parts in a million.
                &&& 1_000_000 * after.noise_floor.mag() <= 950_002 * state.noise_floor.mag()
                    + 50_002 * level.mag() + 3_000_000
                &&& 1_000_000 * after.noise_floor.mag() + 3_000_000 >= 949_998
                    * state.noise_floor.mag() + 49_998 * level.mag()
            }
        }),
{
    let s = Format::Single;
    law_voiced_from_one_half(score);
    law_loudness_is_level(frame);
    law_loudness_in_whole_numbers(frame, 0x8000);
    crate::laws::signal::lemma_squares_bounded(frame);
    lemma_format(s);
    law_small_whole_is_exact(s, 0x8000);
    law_small_whole_is_exact(s, 0x10_0000);
    law_small_wholes_keep_order(s, 0x8000, 0x10_0000);
    assert(frame.len() * 0x4000_0000 == frame.len() * (0x8000 * 0x8000));
    if !at_least_half(score) && state.noise_floor_initialized && is_level(state.noise_floor)
        && state.noise_floor.le(from_int(s, 0x10_0000)) {
        law_noise_floor_follows(state.noise_floor, loudness(frame), score);
    }
}

/// The pitch at a frame is that of the last 1024 samples, at 16 kHz; there is none before so many
/// were heard.
pub proof fn law_live_pitch_is_of_last_samples(
    state: LiveState,
    samples: Seq<i16>,
    frame: Seq<i16>,
    score: Float,
)
    requires
        state.window == if samples.len() > 1024 {
            samples.skip(samples.len() - 1024)
        } else {
            samples
        },
    ensures
        ({
            let after = live_after(state, frame, score);
            let all = samples + frame;
            &&& all.len() < 1024 ==> live_pitch(after) is None && after.window == all
            &&& all.len() >= 1024 ==> {
                let last = all.skip(all.len() - 1024);
                after.window == last && live_pitch(after) == suggested_pitch(last, 16_000)
            }
        }),
{
    let after = live_after(state, frame, score);
    let all = samples + frame;
    if all.len() >= 1024 {
        assert(after.window =~= all.skip(all.len() - 1024));
    } else {
        assert(after.window =~= all);
    }
}

/// The state after the first `n` frames, which were scored so.
pub open spec fn live_after_frames(
    frames: Seq<Seq<i16>>,
    scores: Seq<Float>,
    n: nat,
) -> LiveState
    decreases n,
{
    if n == 0 {
        live_at_rest()
    } else {
        live_after(
            live_after_frames(frames, scores, (n - 1) as nat),
            frames[n - 1],
            scores[n - 1],
        )
    }
}

/// What is remembered of the frames heard: of the last six, whether each was scored at least one
/// half. A noise floor is known exactly when one of all frames was not.
pub proof fn law_last_six_are_remembered(frames: Seq<Seq<i16>>, scores: Seq<Float>, n: nat)
    ensures
        ({
            let state = live_after_frames(frames, scores, n);
            let len = if n < 6 {
                n
            } else {
                6
            };
            &&& state.history == Seq::new(len, |j: int| at_least_half(scores[n - len + j]))
            &&& state.noise_floor_initialized <==> exists|j: int|
                0 <= j < n && !at_least_half(#[trigger] scores[j])
        }),
    decreases n,
{
    let state = live_after_frames(frames, scores, n);
    let len = if n < 6 {
        n
    } else {
        6
    };
    if n > 0 {
        let m = (n - 1) as nat;
        law_last_six_are_remembered(frames, scores, m);
        let before = live_after_frames(frames, scores, m);
        law_live_history(before, frames[n - 1], scores[n - 1]);
        law_voiced_from_one_half(scores[n - 1]);
        assert(state.history =~= state.history.drop_last().push(state.history.last()));
        assert(state.history =~= Seq::new(len, |j: int| at_least_half(scores[n - len + j])));
        if before.noise_floor_initialized {
            let j = choose|j: int| 0 <= j < m && !at_least_half(#[trigger] scores[j]);
            assert(!at_least_half(scores[j]));
        }
        if !at_least_half(scores[n - 1]) {
            assert(!at_least_half(scores[n - 1]));
        }
    } else {
        assert(state.history =~= Seq::new(0nat, |j: int| at_least_half(scores[n - len + j])));
    }
}

/// As long as every frame is scored at least one half, the sixth and all that follow are confirmed,
/// however loud they are, and none before.
pub proof fn law_sixth_voiced_frame_is_confirmed(
    frames: Seq<Seq<i16>>,
    scores: Seq<Float>,
    n: nat,
)
    requires
        0 < n,
        forall|j: int| 0 <= j < n ==> at_least_half(#[trigger] scores[j]),
    ensures
        live_confirms(live_after_frames(frames, scores, n), frames[n - 1]) <==> n >= 6,
{
    law_last_six_are_remembered(frames, scores, n);
    let state = live_after_frames(frames, scores, n);
    if n >= 6 {
        law_four_of_six_confirm(state.history);
        law_count_is_of_set_flags(state.history);
        assert forall|i: int| 0 <= i < 6 implies #[trigger] state.history[i] by {
            assert(at_least_half(scores[n - 6 + i]));
        }
        lemma_trailing(state.history, 6);
    }
}

/// The meter: the number of filled marks is twenty times the score, without the fraction. What is
/// below zero fills none, what is above one fills all.
#[verifier::rlimit(40)]
pub proof fn law_meter_tells_twentieths(score: Float, k: nat)
    requires
        k <= 20,
    ensures
        score.is_nan() ==> filled_marks(score) == 0,
        score.le(Float::zero()) ==> filled_marks(score) == 0,
        from_int(Format::Single, 1).le(score) ==> filled_marks(score) == 20,
        score is Finite && 20 * score.units() >= k * Format::Single.one() ==> filled_marks(score)
            >= k,
        score is Finite && 20 * score.units() <= k * Format::Single.one() ==> filled_marks(score)
            <= k,
        score is Finite && 20_480 * score.units() <= (1024 * k + 1023) * Format::Single.one()
            ==> filled_marks(score) <= k,
{
    let s = Format::Single;
    let one = s.one();
    crate::laws::live::law_meter_has_twenty_marks(score);
    lemma_format(s);
    lemma2_to64();
    lemma_pow2_pos(s.scale());
    lemma_one_is_exact(s);
    law_small_whole_is_exact(s, 20);
    let x = clamped(score, Float::zero(), from_int(s, 1));
    if x is Finite {
        let mag = x.mag();
        let num = mag * (20 * one);
        let r = rounded(num, one, 24);
        assert(num == (20 * mag) * one) by (nonlinear_arith)
            requires
                num == mag * (20 * one),
        ;
        lemma_rounded_scale(20 * mag, 1, one, 24);
        lemma_exact_product(s, 20, s.scale());
        lemma_rounded_order(20 * mag, 1, 20 * one, 1, 24);
        lemma_tells(r, 20 * mag, k);
        lemma_tells(r, 20 * mag, 20);
        lemma_tells(r, 20 * mag, 0);
        lemma_mul_basics(one as int);
        if score is Finite && score.units() <= 0 {
            assert(mag == 0);
            crate::float::ops::lemma_rounded_zero(s, x.neg(), 1);
            lemma_fundamental_div_mod_converse(0, one as int, 0, 0);
            assert(k == 0 || k * one > 0) by (nonlinear_arith)
                requires
                    one > 0,
                    k >= 0,
            ;
        }
    }
}

/// The whole part of a rounded number keeps the order with small whole numbers.
proof fn lemma_tells(r: nat, exact: nat, k: nat)
    requires
        r == rounded(exact, 1, 24),
        k <= 20,
    ensures
        exact >= k * Format::Single.one() ==> r / Format::Single.one() >= k,
        exact <= k * Format::Single.one() ==> r / Format::Single.one() <= k,
        1024 * exact <= (1024 * k + 1023) * Format::Single.one() ==> r / Format::Single.one() <= k,
{
    let s = Format::Single;
    let one = s.one();
    lemma_format(s);
    lemma2_to64();
    lemma_pow2_pos(s.scale());
    if k > 0 {
        lemma_exact_product(s, k, s.scale());
    } else {
        lemma_mul_basics(one as int);
        crate::float::ops::lemma_rounded_zero(s, false, 1);
    }
    lemma_fundamental_div_mod_converse((k * one) as int, one as int, k as int, 0);
    if exact >= k * one {
        lemma_rounded_order(k * one, 1, exact, 1, 24);
        lemma_div_is_ordered((k * one) as int, r as int, one as int);
    }
    if exact <= k * one {
        lemma_rounded_order(exact, 1, k * one, 1, 24);
        lemma_div_is_ordered(r as int, (k * one) as int, one as int);
    }
    if 1024 * exact <= (1024 * k + 1023) * one {
        let u = pow2(139);
        lemma_pow2_pos(139);
        lemma_pow2_adds(10, 139);
        let t = 1024 * k + 1023;
        lemma_exact_product(s, t, 139);
        assert(exact <= t * u && t * u < k * one + one) by (nonlinear_arith)
            requires
                1024 * exact <= t * one,
                t == 1024 * k + 1023,
                one == 1024 * u,
                u > 0,
        ;
        lemma_rounded_order(exact, 1, t * u, 1, 24);
        if exact > k * one {
            lemma_rounded_order(k * one, 1, exact, 1, 24);
            lemma_fundamental_div_mod_converse(r as int, one as int, k as int, r - k * one);
        }
    }
}

} // verus!
