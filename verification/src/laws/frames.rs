//! What is decided on a frame, told in whole numbers: how often its sign changes, the sum of its
//! squares, and counts of frames.

use crate::engine::{
    confirms, decisions, frame_at, frame_count, gate_after, gate_at_rest, history_after, is_valid,
    stands_out, state_after, GateState, NOISE_FLOOR_MARGIN, SPEECH_ZCR_LIMIT, SUSTAIN_RATIO,
    WIND_RMS_THRESHOLD, WIND_ZCR_THRESHOLD,
};
use crate::float::arith::lemma_format;
use crate::float::laws::{
    law_product_keeps_order, law_root_keeps_order, law_rounding_error, law_small_whole_is_exact,
    law_small_wholes_divide, law_small_wholes_keep_order, law_small_wholes_multiply,
    lemma_exact_product, lemma_one_is_exact, lemma_rounded_at, lemma_rounded_order,
    lemma_rounded_scale,
};
use crate::float::model::{
    converted, difference, from_int, magnitude, nearest, product, rounded, square_root, Float,
    Format,
};
use crate::laws::signal::{is_level, law_energy_is_exact, law_loudness_is_level, sum_of_squares};
use crate::signal::{
    count_set, crossing_rate, crossings, followed, loudness, scores_voiced, set_share, single,
    NOISE_FLOOR_ALPHA, VAD_THRESHOLD,
};
use vstd::arithmetic::mul::lemma_mul_basics;
use vstd::arithmetic::power2::{lemma2_to64, lemma_pow2_adds, lemma_pow2_pos, pow2};
use vstd::prelude::*;

verus! {

/// The places among the first `n` samples where the sign changes to the next; zero counts as
/// positive.
pub open spec fn changes(samples: Seq<i16>, n: nat) -> Seq<int> {
    Seq::new(
        if n == 0 {
            0
        } else {
            (n - 1) as nat
        },
        |i: int| i,
    ).filter(|i: int| (samples[i] < 0) != (samples[i + 1] < 0))
}

/// How often the sign of samples changes.
pub open spec fn sign_changes(samples: Seq<i16>) -> nat {
    changes(samples, samples.len()).len()
}

/// Sign changes are counted one by one.
proof fn lemma_changes(samples: Seq<i16>, n: nat)
    requires
        n <= samples.len(),
    ensures
        crossings(samples, n) == changes(samples, n).len(),
        n > 0 ==> crossings(samples, n) < n,
    decreases n,
{
    reveal(Seq::filter);
    if n >= 2 {
        lemma_changes(samples, (n - 1) as nat);
        let all = Seq::new((n - 1) as nat, |i: int| i);
        let before = Seq::new((n - 2) as nat, |i: int| i);
        assert(all.drop_last() =~= before);
        assert(all.last() == n - 2);
    }
}

/// The rate of sign changes is how often the sign changes, in relation to the number of samples.
pub proof fn law_crossing_rate_counts_changes(samples: Seq<i16>)
    requires
        2 <= samples.len() <= 0x100_0000,
    ensures
        crossing_rate(samples) == nearest(
            Format::Single,
            false,
            sign_changes(samples) * Format::Single.one(),
            samples.len(),
        ),
{
    lemma_changes(samples, samples.len());
    lemma_format(Format::Single);
    law_small_wholes_divide(Format::Single, sign_changes(samples), samples.len());
}

/// Samples are at least as loud as a whole number where their mean square is at least its square,
/// and at most as loud where it is at most that.
pub proof fn law_loudness_in_whole_numbers(samples: Seq<i16>, k: nat)
    requires
        0 < samples.len() <= 0x80_0000,
        k <= 0x10_0000,
    ensures
        sum_of_squares(samples) >= samples.len() * (k * k) ==> from_int(
            Format::Single,
            k as int,
        ).le(loudness(samples)),
        sum_of_squares(samples) <= samples.len() * (k * k) ==> loudness(samples).le(
            from_int(Format::Single, k as int),
        ),
{
    let d = Format::Double;
    let s = Format::Single;
    let n = samples.len();
    let e = sum_of_squares(samples);
    let one = d.one();
    lemma_format(d);
    lemma_format(s);
    law_energy_is_exact(samples);
    crate::laws::signal::lemma_squares_bounded(samples);
    law_small_wholes_divide(d, e, n);
    let kk = k * k;
    assert(kk <= 0x100_0000_0000) by (nonlinear_arith)
        requires
            kk == k * k,
            k <= 0x10_0000,
    ;
    // The mean square.
    let m = rounded(e * one, n, 53);
    lemma_pow2_pos(d.scale());
    if kk > 0 {
        lemma_exact_product(d, kk, d.scale());
    } else {
        lemma_mul_basics(one as int);
        crate::float::ops::lemma_rounded_zero(d, false, 1);
    }
    lemma_exact_product(d, 0x4000_0000, d.scale());
    assert((e * one) * 1 <= (0x4000_0000 * one) * n) by (nonlinear_arith)
        requires
            e <= n * 0x4000_0000,
            one > 0,
    ;
    lemma_rounded_order(e * one, n, 0x4000_0000 * one, 1, 53);
    assert(m < d.limit());
    if e >= n * kk {
        assert((kk * one) * n <= (e * one) * 1) by (nonlinear_arith)
            requires
                e >= n * kk,
                one > 0,
        ;
        lemma_rounded_order(kk * one, 1, e * one, n, 53);
    }
    if e <= n * kk {
        assert((e * one) * 1 <= (kk * one) * n) by (nonlinear_arith)
            requires
                e <= n * kk,
                one > 0,
        ;
        lemma_rounded_order(e * one, n, kk * one, 1, 53);
    }
    // Its root.
    law_root_keeps_order(d, m, k);
    let root = square_root(d, Float::Finite { neg: false, mag: m });
    law_small_whole_is_exact(d, k as int);
    law_small_whole_is_exact(s, k as int);
    lemma_converted_order(root, k);
}

/// Converting to single precision keeps the order with small whole numbers.
proof fn lemma_converted_order(x: Float, k: nat)
    requires
        k <= 0x100_0000,
        !x.is_nan() && !x.neg(),
    ensures
        from_int(Format::Double, k as int).le(x) ==> from_int(Format::Single, k as int).le(
            converted(Format::Double, Format::Single, x),
        ),
        x.le(from_int(Format::Double, k as int)) ==> converted(
            Format::Double,
            Format::Single,
            x,
        ).le(from_int(Format::Single, k as int)),
{
    let d = Format::Double;
    let s = Format::Single;
    let one = d.one();
    let t = s.one();
    lemma_format(d);
    lemma_format(s);
    law_small_whole_is_exact(d, k as int);
    law_small_whole_is_exact(s, k as int);
    lemma_pow2_pos(d.scale());
    if k > 0 {
        lemma_exact_product(s, k, s.scale());
    } else {
        lemma_mul_basics(t as int);
        crate::float::ops::lemma_rounded_zero(s, false, 1);
    }
    if x is Finite {
        let m = x.mag();
        if m >= k * one {
            assert((k * t) * one <= (m * t) * 1) by (nonlinear_arith)
                requires
                    m >= k * one,
            ;
            lemma_rounded_order(k * t, 1, m * t, one, 24);
        }
        if m <= k * one {
            assert((m * t) * 1 <= (k * t) * one) by (nonlinear_arith)
                requires
                    m <= k * one,
            ;
            lemma_rounded_order(m * t, one, k * t, 1, 24);
        }
    }
}

/// Whether a score is at least one half.
pub open spec fn at_least_half(score: Float) -> bool {
    match score {
        Float::Nan => false,
        Float::Infinite { neg } => !neg,
        Float::Finite { .. } => 2 * score.units() >= Format::Single.one(),
    }
}

/// A score counts as voiced exactly when it is at least one half.
pub proof fn law_voiced_from_one_half(score: Float)
    ensures
        scores_voiced(score) <==> at_least_half(score),
{
    lemma_format(Format::Single);
    lemma2_to64();
    lemma_pow2_adds(23, 125);
    vstd::arithmetic::power2::lemma_pow2_unfold(149);
    assert(single(VAD_THRESHOLD) == (Float::Finite { neg: false, mag: pow2(148) }));
}

/// A frame that is certainly taken for speech: scored at least one half, its sign changes at most
/// once in four samples, and either at least once in ten or it is not louder than 800.
pub open spec fn surely_speech(frame: Seq<i16>, score: Float) -> bool {
    &&& 0 < frame.len() <= 0x10_0000
    &&& at_least_half(score)
    &&& 4 * sign_changes(frame) <= frame.len()
    &&& {
        ||| 10 * sign_changes(frame) >= frame.len()
        ||| sum_of_squares(frame) <= frame.len() * (800 * 800)
        ||| loudness(frame).le(from_int(Format::Single, 800))
    }
}

/// A frame that is certainly not taken for speech: scored below one half, or its sign changes more
/// than once in four samples, or it is wind: its sign changes less than once in ten samples and it
/// is louder than 800.
pub open spec fn surely_none(frame: Seq<i16>, score: Float) -> bool {
    &&& 0 < frame.len() <= 0x10_0000
    &&& {
        ||| !at_least_half(score)
        ||| 4 * sign_changes(frame) > frame.len()
        ||| 10 * sign_changes(frame) < frame.len() && sum_of_squares(frame) >= frame.len() * (801
            * 801)
        ||| 10 * sign_changes(frame) < frame.len() && from_int(Format::Single, 800).lt(
            loudness(frame),
        )
    }
}

/// The rate of sign changes of a frame, and the two rates that it is compared with.
proof fn lemma_rate_of_frame(frame: Seq<i16>)
    requires
        0 < frame.len() <= 0x10_0000,
    ensures
        crossing_rate(frame).le(single(SPEECH_ZCR_LIMIT)) <==> 4 * sign_changes(frame)
            <= frame.len(),
        crossing_rate(frame).lt(single(WIND_ZCR_THRESHOLD)) <==> 10 * sign_changes(frame)
            < frame.len(),
{
    let s = Format::Single;
    let one = s.one();
    let c = sign_changes(frame);
    let n = frame.len();
    lemma_format(s);
    lemma2_to64();
    lemma_changes(frame, n);
    let v = pow2(122);
    let u = pow2(124);
    lemma_pow2_pos(122);
    lemma_pow2_pos(124);
    lemma_pow2_adds(2, 122);
    lemma_pow2_adds(27, 122);
    lemma_pow2_adds(23, 124);
    lemma_pow2_adds(25, 124);
    assert(single(SPEECH_ZCR_LIMIT) == (Float::Finite { neg: false, mag: 8_388_608 * u }));
    assert(single(WIND_ZCR_THRESHOLD) == (Float::Finite { neg: false, mag: 13_421_773 * v }));
    if n >= 2 {
        law_crossing_rate_counts_changes(frame);
        let r = rounded(c * one, n, 24);
        assert((c * one) * 1 <= one * n) by (nonlinear_arith)
            requires
                c <= n,
        ;
        lemma_rounded_order(c * one, n, one, 1, 24);
        lemma_one_is_exact(s);
        // One in four, and the next number above.
        lemma_exact_product(s, 8_388_608, 124);
        lemma_exact_product(s, 8_388_609, 124);
        if 4 * c <= n {
            assert((c * one) * 1 <= (8_388_608 * u) * n) by (nonlinear_arith)
                requires
                    4 * c <= n,
                    one == 33_554_432 * u,
            ;
            lemma_rounded_order(c * one, n, 8_388_608 * u, 1, 24);
        } else {
            assert((8_388_609 * u) * n <= (c * one) * 1) by (nonlinear_arith)
                requires
                    4 * c >= n + 1,
                    n <= 0x10_0000,
                    one == 33_554_432 * u,
            ;
            lemma_rounded_order(8_388_609 * u, 1, c * one, n, 24);
        }
        // One in ten, and the next number below.
        lemma_rounded_at(134_217_728, 10, 24, 122, 13_421_772, 8);
        lemma_exact_product(s, 13_421_772, 122);
        if 10 * c >= n {
            assert(one * n <= (c * one) * 10) by (nonlinear_arith)
                requires
                    10 * c >= n,
                    one >= 0,
            ;
            lemma_rounded_order(one, 10, c * one, n, 24);
        } else {
            assert((c * one) * 1 <= (13_421_772 * v) * n) by (nonlinear_arith)
                requires
                    10 * c + 1 <= n,
                    n <= 0x10_0000,
                    one == 134_217_728 * v,
            ;
            lemma_rounded_order(c * one, n, 13_421_772 * v, 1, 24);
        }
    }
}

/// The level that is compared with wind.
proof fn lemma_wind_level()
    ensures
        single(WIND_RMS_THRESHOLD) == from_int(Format::Single, 800),
        single(NOISE_FLOOR_MARGIN) == from_int(Format::Single, 3),
{
    let s = Format::Single;
    let one = s.one();
    lemma_format(s);
    lemma2_to64();
    lemma_pow2_adds(14, 135);
    lemma_pow2_adds(22, 127);
    assert(13_107_200 * pow2(135) == 800 * one && 12_582_912 * pow2(127) == 3 * one)
        by (nonlinear_arith)
        requires
            one == 16_384 * pow2(135),
            one == 4_194_304 * pow2(127),
    ;
    law_small_whole_is_exact(s, 800);
    law_small_whole_is_exact(s, 3);
}

/// What is certainly speech is taken for speech, and what is certainly not is not.
proof fn lemma_taken_for_speech(frame: Seq<i16>, score: Float)
    ensures
        surely_speech(frame, score) ==> is_valid(frame, score),
        surely_none(frame, score) ==> !is_valid(frame, score),
{
    if 0 < frame.len() <= 0x10_0000 {
        law_voiced_from_one_half(score);
        lemma_rate_of_frame(frame);
        lemma_wind_level();
        law_loudness_in_whole_numbers(frame, 800);
        law_loudness_in_whole_numbers(frame, 801);
        lemma_format(Format::Single);
        law_small_wholes_keep_order(Format::Single, 800, 801);
    }
}

/// The frames that are remembered after one more: the last nine, and the frame itself, which is
/// there as speech where it certainly is, and as none where it certainly is not.
pub proof fn law_history_tells_speech(state: GateState, frame: Seq<i16>, score: Float)
    requires
        state.history.len() <= 10,
    ensures
        ({
            let after = gate_after(state, frame, score).history;
            let kept = if state.history.len() == 10 {
                state.history.skip(1)
            } else {
                state.history
            };
            &&& after.len() == kept.len() + 1
            &&& after.drop_last() == kept
            &&& surely_speech(frame, score) ==> after.last()
            &&& surely_none(frame, score) ==> !after.last()
        }),
{
    lemma_taken_for_speech(frame, score);
    let after = gate_after(state, frame, score).history;
    let kept = if state.history.len() == 10 {
        state.history.skip(1)
    } else {
        state.history
    };
    assert(after.drop_last() =~= kept);
}

/// How many frames of a history are speech.
pub open spec fn speech_among(history: Seq<bool>) -> nat {
    history.filter(|b: bool| b).len()
}

/// Flags that are set are counted one by one.
pub proof fn law_count_is_of_set_flags(flags: Seq<bool>)
    ensures
        count_set(flags) == speech_among(flags),
        speech_among(flags) <= flags.len(),
    decreases flags.len(),
{
    reveal(Seq::filter);
    if flags.len() > 0 {
        law_count_is_of_set_flags(flags.drop_last());
    }
}

/// Whether a frame is certainly loud enough to stand out: while no noise floor is known, any is;
/// else it must be louder than three times the floor, or three times a whole number that the floor
/// does not exceed.
pub open spec fn surely_stands_out(state: GateState, frame: Seq<i16>) -> bool {
    ||| !state.noise_floor_initialized
    ||| exists|m: nat| #[trigger] is_over_three_times(state, frame, m)
    ||| is_clearly_over(state.noise_floor, loudness(frame))
}

/// Whether a level is more than three times a noise floor, by at least one part in a million.
pub open spec fn is_clearly_over(floor: Float, level: Float) -> bool {
    &&& floor is Finite && !floor.neg() && floor.mag() <= 0x10_0000 * Format::Single.one()
    &&& level is Finite && !level.neg()
    &&& 1_000_000 * level.mag() >= 3_000_003 * floor.mag() + 2_000_000
}

/// Whether a level is less than three times a noise floor, by at least one part in a million.
pub open spec fn is_clearly_under(floor: Float, level: Float) -> bool {
    &&& floor is Finite && !floor.neg() && floor.mag() <= 0x10_0000 * Format::Single.one()
    &&& level is Finite && !level.neg()
    &&& 1_000_000 * level.mag() + 2_000_000 <= 2_999_997 * floor.mag()
}

/// Three times a noise floor.
proof fn lemma_thrice(floor: Float, level: Float)
    ensures
        is_clearly_over(floor, level) ==> product(
            Format::Single,
            floor,
            single(NOISE_FLOOR_MARGIN),
        ).lt(level),
        is_clearly_under(floor, level) ==> !product(
            Format::Single,
            floor,
            single(NOISE_FLOOR_MARGIN),
        ).lt(level),
{
    let s = Format::Single;
    let one = s.one();
    if is_clearly_over(floor, level) || is_clearly_under(floor, level) {
        lemma_format(s);
        lemma2_to64();
        lemma_wind_level();
        law_small_whole_is_exact(s, 3);
        lemma_pow2_pos(s.scale());
        let f = floor.mag();
        assert(f * (3 * one) == (3 * f) * one) by (nonlinear_arith);
        lemma_rounded_scale(3 * f, 1, one, 24);
        let r = rounded(3 * f, 1, 24);
        law_rounding_error(3 * f, 1, 24);
        lemma_mul_basics(r as int);
        lemma_exact_product(s, 0x40_0000, s.scale());
        lemma_rounded_order(3 * f, 1, 0x40_0000 * one, 1, 24);
        assert(product(s, floor, single(NOISE_FLOOR_MARGIN)) == (Float::Finite {
            neg: false,
            mag: r,
        }));
    }
}

pub open spec fn is_over_three_times(state: GateState, frame: Seq<i16>, m: nat) -> bool {
    &&& 0 < m <= 0x1_0000
    &&& is_level(state.noise_floor)
    &&& state.noise_floor.le(from_int(Format::Single, m as int))
    &&& sum_of_squares(frame) >= frame.len() * ((3 * m + 1) * (3 * m + 1))
}

/// Whether a frame is certainly too quiet to stand out: at most three times as loud as a whole
/// number that the noise floor reaches.
pub open spec fn is_within_three_times(state: GateState, frame: Seq<i16>, m: nat) -> bool {
    &&& m <= 0x1_0000
    &&& state.noise_floor_initialized
    &&& is_level(state.noise_floor)
    &&& from_int(Format::Single, m as int).le(state.noise_floor)
    &&& sum_of_squares(frame) <= frame.len() * ((3 * m) * (3 * m))
}

/// Three times the noise floor.
proof fn lemma_three_times(floor: Float, m: nat)
    requires
        is_level(floor),
        m <= 0x1_0000,
    ensures
        floor.le(from_int(Format::Single, m as int)) ==> product(
            Format::Single,
            floor,
            single(NOISE_FLOOR_MARGIN),
        ).le(from_int(Format::Single, 3 * m as int)),
        from_int(Format::Single, m as int).le(floor) ==> from_int(Format::Single, 3 * m as int).le(
            product(Format::Single, floor, single(NOISE_FLOOR_MARGIN)),
        ),
{
    let s = Format::Single;
    lemma_format(s);
    lemma_wind_level();
    law_small_whole_is_exact(s, 3);
    law_small_whole_is_exact(s, m as int);
    law_small_wholes_multiply(s, m as int, 3);
    let x = from_int(s, m as int);
    let three = from_int(s, 3);
    lemma_pow2_pos(s.scale());
    if floor is Finite {
        if floor.le(x) {
            law_product_keeps_order(s, floor, x, three);
        }
        if x.le(floor) {
            law_product_keeps_order(s, x, floor, three);
        }
    }
}

/// A voiced frame stands out where it is certainly loud enough, and does not where it is certainly
/// too quiet.
proof fn lemma_stands_out(state: GateState, frame: Seq<i16>, score: Float, m: nat)
    requires
        0 < frame.len() <= 0x10_0000,
        at_least_half(score),
    ensures
        surely_stands_out(state, frame) ==> stands_out(state, frame, score),
        is_within_three_times(state, frame, m) ==> !stands_out(state, frame, score),
        state.noise_floor_initialized && is_clearly_under(state.noise_floor, loudness(frame))
            ==> !stands_out(state, frame, score),
{
    let s = Format::Single;
    law_voiced_from_one_half(score);
    lemma_format(s);
    law_loudness_is_level(frame);
    if state.noise_floor_initialized {
        lemma_thrice(state.noise_floor, loudness(frame));
        if surely_stands_out(state, frame) && !is_clearly_over(state.noise_floor, loudness(frame)) {
            let k = choose|k: nat| #[trigger] is_over_three_times(state, frame, k);
            lemma_three_times(state.noise_floor, k);
            law_loudness_in_whole_numbers(frame, 3 * k + 1);
            law_small_wholes_keep_order(s, 3 * k as int, (3 * k + 1) as int);
            law_small_whole_is_exact(s, 3 * k as int);
            law_small_whole_is_exact(s, (3 * k + 1) as int);
        }
        if is_within_three_times(state, frame, m) {
            lemma_three_times(state.noise_floor, m);
            law_loudness_in_whole_numbers(frame, 3 * m);
            law_small_whole_is_exact(s, 3 * m as int);
        }
    }
}

/// When a frame is confirmed: it is certainly speech and stands out, at least two such frames came
/// right before it, ten frames are remembered with it, and at least six of them are speech, or four
/// where there was speech already. The speech then goes on.
pub proof fn law_frame_is_confirmed(state: GateState, frame: Seq<i16>, score: Float)
    requires
        surely_speech(frame, score),
        surely_stands_out(state, frame),
        state.consecutive_voiced >= 2,
        9 <= state.history.len() <= 10,
        1 + speech_among(state.history.skip(state.history.len() - 9)) >= if state.is_speech {
            4nat
        } else {
            6
        },
    ensures
        confirms(state, frame, score),
        gate_after(state, frame, score).is_speech,
        gate_after(state, frame, score).consecutive_voiced == state.consecutive_voiced + 1,
{
    lemma_taken_for_speech(frame, score);
    lemma_stands_out(state, frame, score, 0);
    law_history_tells_speech(state, frame, score);
    let after = history_after(state, frame, score);
    let last_nine = state.history.skip(state.history.len() - 9);
    assert(after.drop_last() =~= last_nine);
    assert(after =~= last_nine.push(true));
    law_count_is_of_set_flags(after);
    reveal(Seq::filter);
    crate::laws::gate::law_six_begin_and_four_sustain(after);
}

/// When a frame is not confirmed: any one of these is enough.
pub proof fn law_frame_is_not_confirmed(state: GateState, frame: Seq<i16>, score: Float, m: nat)
    requires
        state.history.len() <= 10,
        0 < frame.len() <= 0x10_0000,
        ({
            ||| surely_none(frame, score)
            ||| is_within_three_times(state, frame, m)
            ||| state.noise_floor_initialized && is_clearly_under(
                state.noise_floor,
                loudness(frame),
            )
            ||| state.consecutive_voiced < 2
            ||| state.history.len() < 9
            ||| 1 + speech_among(state.history.skip(state.history.len() - 9)) < if state.is_speech {
                4nat
            } else {
                6
            }
        }),
    ensures
        !confirms(state, frame, score),
        surely_none(frame, score) || at_least_half(score) && (is_within_three_times(state, frame, m)
            || state.noise_floor_initialized && is_clearly_under(
            state.noise_floor,
            loudness(frame),
        )) ==> gate_after(state, frame, score).consecutive_voiced == 0,
{
    lemma_taken_for_speech(frame, score);
    law_voiced_from_one_half(score);
    if at_least_half(score) {
        lemma_stands_out(state, frame, score, m);
    }
    law_history_tells_speech(state, frame, score);
    let after = history_after(state, frame, score);
    if state.history.len() >= 9 {
        let last_nine = state.history.skip(state.history.len() - 9);
        assert(after.drop_last() =~= last_nine);
        law_count_is_of_set_flags(after);
        law_count_is_of_set_flags(last_nine);
        reveal(Seq::filter);
        crate::laws::gate::law_six_begin_and_four_sustain(after);
    }
}

/// The share of speech that is too small for speech to go on: less than two in five.
proof fn lemma_too_few(history: Seq<bool>)
    requires
        0 < history.len() <= 10,
    ensures
        set_share(history).lt(single(SUSTAIN_RATIO)) <==> 5 * speech_among(history) < 2
            * history.len(),
{
    let s = Format::Single;
    let one = s.one();
    let n = history.len();
    let c = speech_among(history);
    law_count_is_of_set_flags(history);
    lemma_format(s);
    lemma2_to64();
    lemma_pow2_adds(25, 124);
    lemma_pow2_pos(124);
    let w = pow2(124);
    law_small_wholes_divide(s, c, n);
    let r = rounded(c * one, n, 24);
    assert(single(SUSTAIN_RATIO) == (Float::Finite { neg: false, mag: 13_421_773 * w }));
    assert(2 * one == (2 * 33_554_432) * w) by (nonlinear_arith)
        requires
            one == 33_554_432 * w,
    ;
    lemma_rounded_at(67_108_864, 5, 24, 124, 13_421_772, 4);
    assert((c * one) * 1 <= one * n) by (nonlinear_arith)
        requires
            c <= n,
    ;
    lemma_rounded_order(c * one, n, one, 1, 24);
    lemma_one_is_exact(s);
    if 5 * c >= 2 * n {
        assert((2 * one) * n <= (c * one) * 5) by (nonlinear_arith)
            requires
                5 * c >= 2 * n,
                one >= 0,
        ;
        lemma_rounded_order(2 * one, 5, c * one, n, 24);
    } else {
        lemma_pow2_adds(19, 124);
        lemma_exact_product(s, 25, 143);
        let bound = 25 * pow2(143);
        lemma_pow2_adds(6, 143);
        assert((c * one) * 1 <= bound * n) by (nonlinear_arith)
            requires
                64 * c <= 25 * n,
                one == 64 * pow2(143),
                bound == 25 * pow2(143),
        ;
        lemma_rounded_order(c * one, n, bound, 1, 24);
    }
}

/// Speech is over as soon as a frame is not confirmed and less than two in five of the remembered
/// frames are speech, and not before; it begins with a confirmed frame only.
pub proof fn law_speech_ends(state: GateState, frame: Seq<i16>, score: Float)
    requires
        state.history.len() <= 10,
        !confirms(state, frame, score),
    ensures
        ({
            let after = gate_after(state, frame, score);
            after.is_speech <==> state.is_speech && 5 * speech_among(after.history) >= 2
                * after.history.len()
        }),
{
    law_history_tells_speech(state, frame, score);
    lemma_too_few(gate_after(state, frame, score).history);
}

/// A frame that is scored at least one half leaves the noise floor alone. The first other frame
/// sets it to its loudness.
pub proof fn law_noise_floor_is_set(state: GateState, frame: Seq<i16>, score: Float, k: nat)
    requires
        0 < frame.len() <= 0x10_0000,
        k <= 0x10_0000,
    ensures
        ({
            let after = gate_after(state, frame, score);
            &&& at_least_half(score) ==> after.noise_floor == state.noise_floor
                && after.noise_floor_initialized == state.noise_floor_initialized
            &&& !at_least_half(score) ==> after.noise_floor_initialized
            &&& !at_least_half(score) && !state.noise_floor_initialized ==> {
                &&& sum_of_squares(frame) >= frame.len() * (k * k) ==> from_int(
                    Format::Single,
                    k as int,
                ).le(after.noise_floor)
                &&& sum_of_squares(frame) <= frame.len() * (k * k) ==> after.noise_floor.le(
                    from_int(Format::Single, k as int),
                )
            }
        }),
{
    law_voiced_from_one_half(score);
    law_loudness_in_whole_numbers(frame, k);
}

/// A share of a number, computed: the error is at most one part in 2^24 of the number, and one
/// unit.
pub proof fn law_share_is_accurate(x: nat, a: nat, b: nat, k: nat)
    requires
        b >= 24,
        k + b == 149,
        a <= pow2(b),
    ensures
        0x100_0000 * magnitude(
            rounded(x * (a * pow2(k)), Format::Single.one(), 24) * pow2(b) - x * a,
        ) <= x * pow2(b) + 0x100_0000 * pow2(b),
{
    let one = Format::Single.one();
    let v = pow2(k);
    let w = pow2(b);
    lemma_pow2_adds(b, k);
    lemma_pow2_pos(k);
    lemma_pow2_pos(b);
    lemma_pow2_pos(149);
    lemma_format(Format::Single);
    let num = x * (a * v);
    law_rounding_error(num, one, 24);
    let r = rounded(num, one, 24);
    let t = r * w - x * a;
    assert(r * one - num == t * v) by (nonlinear_arith)
        requires
            one == w * v,
            num == x * (a * v),
            t == r * w - x * a,
    ;
    let e = magnitude(t);
    assert(magnitude(t * v) == e * v) by (nonlinear_arith)
        requires
            v > 0,
            magnitude(t * v) == if t * v < 0 {
                -(t * v)
            } else {
                t * v
            },
            e == if t < 0 {
                -t
            } else {
                t
            },
    ;
    assert(num == (x * a) * v) by (nonlinear_arith)
        requires
            num == x * (a * v),
    ;
    assert(x * a <= x * w) by (nonlinear_arith)
        requires
            a <= w,
    ;
    if 0x100_0000 * (e * v) <= num {
        assert(0x100_0000 * e <= x * a) by (nonlinear_arith)
            requires
                0x100_0000 * (e * v) <= (x * a) * v,
                v > 0,
        ;
    } else {
        assert(2 * e <= w) by (nonlinear_arith)
            requires
                2 * (e * v) <= w * v,
                v > 0,
        ;
    }
}

/// The weight that the noise floor keeps.
proof fn lemma_kept_weight()
    ensures
        single(NOISE_FLOOR_ALPHA) == (Float::Finite { neg: false, mag: 13_421_773 * pow2(121) }),
        difference(
            Format::Single,
            from_int(Format::Single, 1),
            single(NOISE_FLOOR_ALPHA),
        ) == (Float::Finite { neg: false, mag: 15_938_355 * pow2(125) }),
{
    let s = Format::Single;
    lemma_format(s);
    lemma2_to64();
    lemma_one_is_exact(s);
    let u = pow2(121);
    lemma_pow2_pos(121);
    lemma_pow2_adds(28, 121);
    lemma_pow2_adds(4, 121);
    assert(single(NOISE_FLOOR_ALPHA) == (Float::Finite { neg: false, mag: 13_421_773 * u }));
    let m = (s.one() - 13_421_773 * u) as nat;
    assert(m == 255_013_683 * u);
    // 28 bits, of which four are rounded off.
    lemma_mul_basics(16);
    assert(255_013_683 * u * 1 == m);
    lemma_rounded_twenty_eight(u);
    lemma_exact_product(s, 15_938_355, 125);
}

/// 28 significant bits rounded to 24.
proof fn lemma_rounded_twenty_eight(u: nat)
    requires
        u == pow2(121),
    ensures
        rounded(255_013_683 * u, 1, 24) == 15_938_355 * pow2(125),
{
    let num = 255_013_683 * u;
    let w = pow2(125);
    lemma2_to64();
    lemma_pow2_pos(121);
    lemma_pow2_adds(4, 121);
    lemma_pow2_adds(24, 125);
    lemma_pow2_adds(23, 125);
    assert(num / 1 == num);
    crate::float::rounding::lemma_excess_at(num, 24, 125);
    lemma_mul_basics(w as int);
    crate::float::rounding::lemma_nearest_even_parts(num, w, 15_938_355, 3 * u);
}

/// After a frame that is scored below one half, a noise floor that was known is made of 95 parts of
/// what it was and five parts of the loudness of the frame, up to one part in a thousand.
pub proof fn law_noise_floor_follows(floor: Float, level: Float, score: Float)
    requires
        !at_least_half(score),
        is_level(floor) && floor.le(from_int(Format::Single, 0x10_0000)),
        is_level(level) && level.le(from_int(Format::Single, 0x10_0000)),
    ensures
        ({
            let after = followed(floor, true, level, score);
            &&& after is Finite && !after.neg()
            &&& 1000 * after.mag() <= 951 * floor.mag() + 51 * level.mag() + 3000
            &&& 1000 * after.mag() + 3000 >= 949 * floor.mag() + 49 * level.mag()
            // Up to two parts in a million.
            &&& 1_000_000 * after.mag() <= 950_002 * floor.mag() + 50_002 * level.mag() + 3_000_000
            &&& 1_000_000 * after.mag() + 3_000_000 >= 949_998 * floor.mag() + 49_998 * level.mag()
        }),
{
    let s = Format::Single;
    law_voiced_from_one_half(score);
    lemma_format(s);
    lemma2_to64();
    lemma_kept_weight();
    law_small_whole_is_exact(s, 0x10_0000);
    lemma_exact_product(s, 0x20_0000, s.scale());
    lemma_pow2_pos(s.scale());
    let f = floor.mag();
    let l = level.mag();
    let p = rounded(f * (15_938_355 * pow2(125)), s.one(), 24);
    let q = rounded(l * (13_421_773 * pow2(121)), s.one(), 24);
    law_share_is_accurate(f, 15_938_355, 24, 125);
    law_share_is_accurate(l, 13_421_773, 28, 121);
    assert(p <= f + 1 && 1000 * p <= 951 * f + 1000 && 1000 * p + 1001 >= 949 * f + f / 2000);
    assert(q <= l + 2 && 1000 * q <= 51 * l + 1000 && 1000 * q + 1001 >= 49 * l + l / 2000);
    assert(1_000_000 * p <= 950_001 * f + 1_000_000 && 1_000_000 * p + 1_000_001 >= 949_999 * f);
    assert(1_000_000 * q <= 50_001 * l + 1_000_000 && 1_000_000 * q + 1_000_001 >= 49_999 * l);
    law_rounding_error(p + q, 1, 24);
    let r = rounded(p + q, 1, 24);
    assert(f <= 0x10_0000 * s.one() && l <= 0x10_0000 * s.one());
    lemma_fits(p, q);
}

/// Whatever the frame is like otherwise, one that is scored below one half moves a noise floor that
/// was known by a twentieth of the way to its loudness, up to one part in a thousand.
pub proof fn law_gate_noise_floor_follows(state: GateState, frame: Seq<i16>, score: Float)
    requires
        0 < frame.len() <= 0x80_0000,
        !at_least_half(score),
        state.noise_floor_initialized,
        is_level(state.noise_floor),
        state.noise_floor.le(from_int(Format::Single, 0x10_0000)),
    ensures
        ({
            let after = gate_after(state, frame, score);
            let floor = after.noise_floor;
            let level = loudness(frame).mag();
            &&& after.noise_floor_initialized
            &&& floor is Finite && !floor.neg()
            &&& 1000 * floor.mag() <= 951 * state.noise_floor.mag() + 51 * level + 3000
            &&& 1000 * floor.mag() + 3000 >= 949 * state.noise_floor.mag() + 49 * level
            // Up to two parts in a million.
            &&& 1_000_000 * floor.mag() <= 950_002 * state.noise_floor.mag() + 50_002 * level
                + 3_000_000
            &&& 1_000_000 * floor.mag() + 3_000_000 >= 949_998 * state.noise_floor.mag() + 49_998
                * level
        }),
{
    let s = Format::Single;
    law_voiced_from_one_half(score);
    law_loudness_is_level(frame);
    law_loudness_in_whole_numbers(frame, 0x8000);
    crate::laws::signal::lemma_squares_bounded(frame);
    lemma_format(s);
    law_small_whole_is_exact(s, 0x8000);
    law_small_whole_is_exact(s, 0x10_0000);
    law_small_wholes_keep_order(s, 0x8000, 0x10_0000);
    assert(frame.len() * 0x4000_0000 == frame.len() * (0x8000 * 0x8000));
    law_noise_floor_follows(state.noise_floor, loudness(frame), score);
}

proof fn lemma_fits(p: nat, q: nat)
    requires
        p <= 0x10_0000 * Format::Single.one() + 1,
        q <= 0x10_0000 * Format::Single.one() + 2,
    ensures
        p < Format::Single.limit(),
        q < Format::Single.limit(),
        rounded(p + q, 1, 24) < Format::Single.limit(),
{
    let s = Format::Single;
    lemma_format(s);
    lemma2_to64();
    lemma_exact_product(s, 0x20_0001, s.scale());
    crate::float::rounding::lemma_pow2_le(2, s.scale());
    lemma_rounded_order(p + q, 1, 0x20_0001 * s.one(), 1, 24);
}

/// Eight times is more than three times the double.
proof fn lemma_eight_times(squares: nat, n: nat, k: nat)
    requires
        k > 0,
        squares >= n * ((8 * k) * (8 * k)),
    ensures
        squares >= n * ((3 * (2 * k) + 1) * (3 * (2 * k) + 1)),
{
    let a = (8 * k) * (8 * k);
    let b = (3 * (2 * k) + 1) * (3 * (2 * k) + 1);
    assert(a >= b) by (nonlinear_arith)
        requires
            k > 0,
            a == (8 * k) * (8 * k),
            b == (3 * (2 * k) + 1) * (3 * (2 * k) + 1),
    ;
    assert(n * a >= n * b) by (nonlinear_arith)
        requires
            a >= b,
            n >= 0,
    ;
}

/// One more frame that is certainly speech and stands out is counted, whatever came before.
pub proof fn law_frames_in_a_row_are_counted(state: GateState, frame: Seq<i16>, score: Float)
    requires
        surely_speech(frame, score),
        surely_stands_out(state, frame),
    ensures
        gate_after(state, frame, score).consecutive_voiced == state.consecutive_voiced + 1,
{
    lemma_taken_for_speech(frame, score);
    lemma_stands_out(state, frame, score, 0);
}

/// A history whose last flags are set has at least as many set flags.
pub proof fn lemma_trailing(history: Seq<bool>, n: nat)
    requires
        n <= history.len(),
        forall|i: int| history.len() - n <= i < history.len() ==> #[trigger] history[i],
    ensures
        speech_among(history) >= n,
    decreases n,
{
    reveal(Seq::filter);
    if n > 0 {
        assert(history[history.len() - 1]);
        let before = history.drop_last();
        assert forall|i: int| before.len() - (n - 1) <= i < before.len() implies
            #[trigger] before[i] by {
            assert(history[i]);
        }
        lemma_trailing(before, (n - 1) as nat);
    }
}

/// The state after frames of which the first `quiet` are scored below one half and not louder than
/// `k`, and all others are certainly speech and at least eight times as loud.
#[verifier::rlimit(40)]
proof fn lemma_after_quiet_and_speech(
    samples: Seq<i16>,
    scores: Seq<Float>,
    quiet: nat,
    k: nat,
    n: nat,
)
    requires
        0 < k <= 0x8000,
        quiet_then_speech(samples, scores, quiet, k, n),
    ensures
        ({
            let state = state_after(gate_at_rest(), samples, scores, n);
            &&& state.history.len() == if n < 10 {
                n
            } else {
                10
            }
            &&& forall|i: int|
                0 <= i < state.history.len() && n - state.history.len() + i >= quiet
                    ==> #[trigger] state.history[i]
            &&& state.consecutive_voiced == if n <= quiet {
                0
            } else {
                (n - quiet) as nat
            }
            &&& state.noise_floor_initialized == (quiet > 0 && n > 0)
            &&& is_level(state.noise_floor)
            &&& state.noise_floor.le(from_int(Format::Single, 2 * k as int))
        }),
    decreases n,
{
    let s = Format::Single;
    lemma_format(s);
    law_small_whole_is_exact(s, 2 * k as int);
    law_small_whole_is_exact(s, k as int);
    if n > 0 {
        let m = (n - 1) as nat;
        assert(quiet_then_speech(samples, scores, quiet, k, m)) by {
            assert forall|i: int| 0 <= i < m implies is_quiet_or_speech(
                #[trigger] frame_at(samples, i),
                scores[i],
                i < quiet,
                k,
            ) by {
                assert(is_quiet_or_speech(frame_at(samples, i), scores[i], i < quiet, k));
            }
        }
        lemma_after_quiet_and_speech(samples, scores, quiet, k, m);
        let state = state_after(gate_at_rest(), samples, scores, m);
        let frame = frame_at(samples, m as int);
        let score = scores[m as int];
        let after = state_after(gate_at_rest(), samples, scores, n);
        assert(is_quiet_or_speech(frame, score, m < quiet, k));
        law_history_tells_speech(state, frame, score);
        law_noise_floor_is_set(state, frame, score, 2 * k);
        law_loudness_is_level(frame);
        law_voiced_from_one_half(score);
        let kept = if state.history.len() == 10 {
            state.history.skip(1)
        } else {
            state.history
        };
        assert forall|i: int|
            0 <= i < after.history.len() && n - after.history.len() + i >= quiet implies
            #[trigger] after.history[i] by {
            if i < after.history.len() - 1 {
                assert(after.history[i] == after.history.drop_last()[i]);
                assert(kept[i] == after.history[i]);
                if state.history.len() == 10 {
                    assert(state.history[i + 1]);
                } else {
                    assert(state.history[i]);
                }
            }
        }
        law_loudness_in_whole_numbers(frame, k);
        law_small_wholes_keep_order(s, k as int, 2 * k as int);
        if m < quiet {
            lemma_taken_for_speech(frame, score);
            if state.noise_floor_initialized {
                law_small_wholes_keep_order(s, 2 * k as int, 0x10_0000);
                law_small_whole_is_exact(s, 0x10_0000);
                law_noise_floor_follows(state.noise_floor, loudness(frame), score);
                let one = s.one();
                crate::float::rounding::lemma_pow2_le(24, 149);
                assert(k * one >= one) by (nonlinear_arith)
                    requires
                        k >= 1,
                        one >= 0,
                ;
                assert((2 * k) * one == 2 * (k * one)) by (nonlinear_arith);
            }
        } else {
            if state.noise_floor_initialized {
                lemma_eight_times(sum_of_squares(frame), frame.len(), k);
                assert(is_over_three_times(state, frame, 2 * k));
            }
            law_frames_in_a_row_are_counted(state, frame, score);
        }
    } else {
        lemma_mul_basics(s.one() as int);
        lemma_pow2_pos(s.scale());
    }
}

/// Whether a frame is quiet and scored below one half, or is certainly speech and loud.
pub open spec fn is_quiet_or_speech(frame: Seq<i16>, score: Float, quiet: bool, k: nat) -> bool {
    if quiet {
        !at_least_half(score) && sum_of_squares(frame) <= frame.len() * (k * k)
    } else {
        surely_speech(frame, score) && sum_of_squares(frame) >= frame.len() * ((8 * k) * (8 * k))
    }
}

/// Of the first `n` frames of a recording, the first `quiet` are quiet and all others are speech.
pub open spec fn quiet_then_speech(
    samples: Seq<i16>,
    scores: Seq<Float>,
    quiet: nat,
    k: nat,
    n: nat,
) -> bool {
    forall|i: int|
        0 <= i < n ==> is_quiet_or_speech(
            #[trigger] frame_at(samples, i),
            scores[i],
            i < quiet,
            k,
        )
}

/// Speech is found over noise: after frames that are scored below one half and not louder than `k`,
/// frames that are certainly speech and at least eight times as loud are confirmed from the sixth
/// on, once ten frames have been heard.
pub proof fn law_speech_is_found_over_noise(
    samples: Seq<i16>,
    scores: Seq<Float>,
    quiet: nat,
    k: nat,
    i: nat,
)
    requires
        0 < k <= 0x8000,
        i < frame_count(samples.len()),
        quiet_then_speech(samples, scores, quiet, k, i + 1),
        i >= 9,
        i >= quiet + 5,
    ensures
        decisions(gate_at_rest(), samples, scores)[i as int],
{
    assert(quiet_then_speech(samples, scores, quiet, k, i)) by {
        assert forall|j: int| 0 <= j < i implies is_quiet_or_speech(
            #[trigger] frame_at(samples, j),
            scores[j],
            j < quiet,
            k,
        ) by {
            assert(is_quiet_or_speech(frame_at(samples, j), scores[j], j < quiet, k));
        }
    }
    lemma_after_quiet_and_speech(samples, scores, quiet, k, i);
    let state = state_after(gate_at_rest(), samples, scores, i);
    let frame = frame_at(samples, i as int);
    let score = scores[i as int];
    assert(is_quiet_or_speech(frame, score, i < quiet, k));
    if state.noise_floor_initialized {
        lemma_eight_times(sum_of_squares(frame), frame.len(), k);
        assert(is_over_three_times(state, frame, 2 * k));
    }
    let last_nine = state.history.skip(state.history.len() - 9);
    assert forall|j: int| last_nine.len() - 5 <= j < last_nine.len() implies
        #[trigger] last_nine[j] by {
        assert(state.history[j + state.history.len() - 9]);
    }
    lemma_trailing(last_nine, 5);
    law_frame_is_confirmed(state, frame, score);
}

/// The state after frames that are all certainly speech.
proof fn lemma_after_speech(samples: Seq<i16>, scores: Seq<Float>, n: nat)
    requires
        forall|i: int| 0 <= i < n ==> surely_speech(#[trigger] frame_at(samples, i), scores[i]),
    ensures
        ({
            let state = state_after(gate_at_rest(), samples, scores, n);
            &&& state.history.len() == if n < 10 {
                n
            } else {
                10
            }
            &&& forall|i: int| 0 <= i < state.history.len() ==> #[trigger] state.history[i]
            &&& state.consecutive_voiced == n
            &&& !state.noise_floor_initialized
        }),
    decreases n,
{
    if n > 0 {
        let m = (n - 1) as nat;
        lemma_after_speech(samples, scores, m);
        let state = state_after(gate_at_rest(), samples, scores, m);
        let frame = frame_at(samples, m as int);
        let score = scores[m as int];
        let after = state_after(gate_at_rest(), samples, scores, n);
        assert(surely_speech(frame, score));
        law_history_tells_speech(state, frame, score);
        law_noise_floor_is_set(state, frame, score, 0);
        law_frames_in_a_row_are_counted(state, frame, score);
        assert forall|i: int| 0 <= i < after.history.len() implies #[trigger] after.history[i] by {
            if i < after.history.len() - 1 {
                assert(after.history[i] == after.history.drop_last()[i]);
                if state.history.len() == 10 {
                    assert(state.history[i + 1]);
                } else {
                    assert(state.history[i]);
                }
            }
        }
    }
}

/// Ten frames in a row that are certainly speech, from the first on, end with a confirmed one, and
/// all that follow without a break are confirmed too, however loud they are.
pub proof fn law_tenth_frame_of_speech_is_confirmed(
    samples: Seq<i16>,
    scores: Seq<Float>,
    i: nat,
)
    requires
        9 <= i < frame_count(samples.len()),
        forall|j: int| 0 <= j <= i ==> surely_speech(#[trigger] frame_at(samples, j), scores[j]),
    ensures
        decisions(gate_at_rest(), samples, scores)[i as int],
{
    lemma_after_speech(samples, scores, i);
    let state = state_after(gate_at_rest(), samples, scores, i);
    let last_nine = state.history.skip(state.history.len() - 9);
    assert forall|j: int| 0 <= j < 9 implies #[trigger] last_nine[j] by {
        assert(state.history[j + state.history.len() - 9]);
    }
    lemma_trailing(last_nine, 9);
    assert(surely_speech(frame_at(samples, i as int), scores[i as int]));
    law_frame_is_confirmed(state, frame_at(samples, i as int), scores[i as int]);
}

/// No frame of a recording is confirmed before the tenth, and none is that is certainly something
/// else, or comes within two frames after such a one.
pub proof fn law_confirmed_frames_of_a_recording(
    samples: Seq<i16>,
    scores: Seq<Float>,
    i: int,
    j: int,
)
    requires
        0 <= i < frame_count(samples.len()),
        decisions(gate_at_rest(), samples, scores)[i],
        i - 2 <= j <= i,
    ensures
        i >= 9,
        !surely_none(frame_at(samples, j), scores[j]),
{
    crate::laws::gate::law_three_in_a_row(samples, scores, i);
    if i < 9 {
        crate::laws::gate::law_warm_up(samples, scores, i);
    }
    lemma_taken_for_speech(frame_at(samples, j), scores[j]);
}

} // verus!
