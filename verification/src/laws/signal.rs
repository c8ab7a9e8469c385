//! Laws of what is measured of samples, and of the filter.

use crate::engine::{
    confirms, decisions, floor_known_after, frame_at, frame_count, gate_at_rest, state_after,
    GateState, FRAME_SIZE, NOISE_FLOOR_MARGIN,
};
use crate::float::arith::lemma_format;
use crate::float::laws::{
    law_proper_fraction, law_root_of_square, law_small_whole_is_exact, law_small_wholes_add,
    law_small_wholes_divide, law_small_wholes_multiply, lemma_exact_product, lemma_one_is_exact,
    lemma_rounded_order, lemma_rounded_scale, lemma_u64_is_finite,
};
use crate::float::model::{difference, from_int, magnitude, quotient, Float, Format};
use crate::float::ops::lemma_rounded_zero;
use crate::signal::{
    crossing_rate, crossings, energy, filter_after, filter_at_rest, filtered, followed, loudness,
    sample_of, scores_voiced, single, FilterState, FULL_SCALE, HPF_ALPHA, NOISE_FLOOR_ALPHA,
};
use vstd::arithmetic::mul::lemma_mul_basics;
use vstd::arithmetic::power2::{
    lemma2_to64, lemma2_to64_rest, lemma_pow2_adds, lemma_pow2_pos, pow2,
};
use vstd::prelude::*;

verus! {

/// The sum of the squares of samples.
pub open spec fn sum_of_squares(samples: Seq<i16>) -> nat
    decreases samples.len(),
{
    if samples.len() == 0 {
        0
    } else {
        sum_of_squares(samples.drop_last()) + (samples.last() * samples.last()) as nat
    }
}

/// The square of a sample has at most 30 bits.
proof fn lemma_square(sample: i16)
    ensures
        0 <= sample * sample <= 0x4000_0000,
{
    assert(0 <= sample * sample <= 0x4000_0000) by (nonlinear_arith)
        requires
            -0x8000 <= sample <= 0x7fff,
    ;
}

/// The sum of the squares grows by at most 2^30 with each sample.
pub proof fn lemma_squares_bounded(samples: Seq<i16>)
    ensures
        sum_of_squares(samples) <= samples.len() * 0x4000_0000,
    decreases samples.len(),
{
    if samples.len() > 0 {
        lemma_squares_bounded(samples.drop_last());
        lemma_square(samples.last());
    }
}

/// Up to 2^23 samples, which take almost nine minutes, nothing is lost in summing squares.
pub proof fn law_energy_is_exact(samples: Seq<i16>)
    requires
        samples.len() <= 0x80_0000,
    ensures
        energy(samples) == from_int(Format::Double, sum_of_squares(samples) as int),
    decreases samples.len(),
{
    let d = Format::Double;
    lemma_format(d);
    if samples.len() == 0 {
        lemma_mul_basics(d.one() as int);
    } else {
        let before = samples.drop_last();
        let x = samples.last() as int;
        law_energy_is_exact(before);
        lemma_squares_bounded(before);
        lemma_square(samples.last());
        law_small_wholes_multiply(d, x, x);
        law_small_wholes_add(d, sum_of_squares(before) as int, x * x);
    }
}

/// The square of a sample is that of its magnitude.
proof fn lemma_square_of_magnitude(sample: i16)
    ensures
        sample * sample == magnitude(sample as int) * magnitude(sample as int),
{
    let m = magnitude(sample as int);
    assert(sample * sample == m * m) by (nonlinear_arith)
        requires
            m == if sample < 0 {
                -sample
            } else {
                sample as int
            },
    ;
}

/// The squares of samples that all have the same magnitude.
proof fn lemma_equal_squares(samples: Seq<i16>, c: i16)
    requires
        forall|i: int|
            0 <= i < samples.len() ==> magnitude(#[trigger] samples[i] as int) == magnitude(
                c as int,
            ),
    ensures
        sum_of_squares(samples) == samples.len() * (c * c),
    decreases samples.len(),
{
    if samples.len() > 0 {
        let before = samples.drop_last();
        assert forall|i: int| 0 <= i < before.len() implies magnitude(#[trigger] before[i] as int)
            == magnitude(c as int) by {
            assert(before[i] == samples[i]);
        }
        lemma_equal_squares(before, c);
        lemma_square_of_magnitude(samples[samples.len() - 1]);
        lemma_square_of_magnitude(c);
        lemma_square(c);
        let n = samples.len() as int;
        let cc = c * c;
        assert((n - 1) * cc + cc == n * cc) by (nonlinear_arith);
    } else {
        lemma_mul_basics(c * c);
    }
}

/// Samples that all have the same magnitude are as loud as that.
pub proof fn law_constant_loudness(samples: Seq<i16>, c: i16)
    requires
        0 < samples.len() <= 0x80_0000,
        forall|i: int|
            0 <= i < samples.len() ==> magnitude(#[trigger] samples[i] as int) == magnitude(
                c as int,
            ),
    ensures
        loudness(samples) == from_int(Format::Single, magnitude(c as int) as int),
{
    let d = Format::Double;
    let s = Format::Single;
    let n = samples.len();
    let m = magnitude(c as int);
    let one = d.one();
    lemma_format(d);
    lemma_format(s);
    lemma_equal_squares(samples, c);
    law_energy_is_exact(samples);
    lemma_squares_bounded(samples);
    lemma_square(c);
    lemma_square_of_magnitude(c);
    let square = (m * m) as nat;
    // The mean square is exact.
    law_small_wholes_divide(d, n * square, n);
    assert((n * square) * one == (square * one) * n) by (nonlinear_arith);
    lemma_mul_basics(n as int);
    lemma_rounded_scale(square * one, 1, n, 53);
    law_small_whole_is_exact(d, square as int);
    lemma_pow2_pos(d.scale());
    if square > 0 {
        lemma_exact_product(d, square, d.scale());
    } else {
        lemma_mul_basics(one as int);
        lemma_rounded_zero(d, false, 1);
    }
    let mean_square = quotient(d, energy(samples), from_int(d, n as int));
    assert(mean_square == from_int(d, square as int));
    // Its root is exact, and fits single precision.
    law_root_of_square(d, m);
    law_small_whole_is_exact(d, m as int);
    law_small_whole_is_exact(s, m as int);
    let t = s.one();
    assert((m * one) * t == (m * t) * one) by (nonlinear_arith);
    lemma_mul_basics(one as int);
    lemma_rounded_scale(m * t, 1, one, 24);
    if m > 0 {
        lemma_exact_product(s, m, s.scale());
    } else {
        lemma_mul_basics(t as int);
        lemma_rounded_zero(s, false, 1);
    }
}

/// A level: neither negative nor undefined.
pub open spec fn is_level(x: Float) -> bool {
    !x.is_nan() && !x.neg()
}

/// The sum of squares is a level.
proof fn lemma_energy_is_level(samples: Seq<i16>)
    ensures
        is_level(energy(samples)),
    decreases samples.len(),
{
    if samples.len() > 0 {
        let d = Format::Double;
        lemma_energy_is_level(samples.drop_last());
        lemma_format(d);
        law_small_whole_is_exact(d, samples.last() as int);
    }
}

/// How loud samples are is a level.
pub proof fn law_loudness_is_level(samples: Seq<i16>)
    requires
        0 < samples.len() <= u64::MAX,
    ensures
        is_level(loudness(samples)),
{
    lemma_energy_is_level(samples);
    lemma_u64_is_finite(Format::Double, samples.len());
}

/// There are fewer sign changes than samples.
proof fn lemma_crossings_bounded(samples: Seq<i16>, n: nat)
    ensures
        crossings(samples, n) <= n,
    decreases n,
{
    if n >= 2 {
        lemma_crossings_bounded(samples, (n - 1) as nat);
    }
}

/// The rate of sign changes lies between zero and one.
pub proof fn law_crossing_rate_is_bounded(samples: Seq<i16>)
    requires
        samples.len() <= u64::MAX,
    ensures
        ({
            let rate = crossing_rate(samples);
            rate is Finite && !rate.neg() && rate.mag() <= Format::Single.one()
        }),
{
    lemma_pow2_pos(Format::Single.scale());
    if samples.len() >= 2 {
        lemma_crossings_bounded(samples, samples.len());
        lemma_u64_is_finite(Format::Single, samples.len());
        law_proper_fraction(Format::Single, crossings(samples, samples.len()), samples.len());
    }
}

/// The weights of the noise floor are positive.
proof fn lemma_weights()
    ensures
        single(NOISE_FLOOR_ALPHA) is Finite && !single(NOISE_FLOOR_ALPHA).neg(),
        single(NOISE_FLOOR_ALPHA).mag() > 0,
        single(NOISE_FLOOR_MARGIN) is Finite && !single(NOISE_FLOOR_MARGIN).neg(),
        single(NOISE_FLOOR_MARGIN).mag() > 0,
        ({
            let s = Format::Single;
            let rest = difference(s, from_int(s, 1), single(NOISE_FLOOR_ALPHA));
            rest is Finite && !rest.neg() && rest.mag() > 0
        }),
{
    let s = Format::Single;
    lemma_format(s);
    lemma2_to64();
    lemma2_to64_rest();
    lemma_one_is_exact(s);
    let alpha = single(NOISE_FLOOR_ALPHA);
    let v = pow2(121);
    lemma_pow2_pos(121);
    lemma_pow2_adds(28, 121);
    assert(alpha == (Float::Finite { neg: false, mag: 13_421_773 * v }));
    let margin = single(NOISE_FLOOR_MARGIN);
    let w = pow2(127);
    lemma_pow2_pos(127);
    assert(margin == (Float::Finite { neg: false, mag: 12_582_912 * w }));
    let m = (s.one() - alpha.mag()) as nat;
    assert(0 < m <= s.one());
    lemma_exact_product(s, 1, 0);
    lemma_rounded_order(1, 1, m, 1, 24);
    lemma_rounded_order(m, 1, s.one(), 1, 24);
}

/// The noise floor stays a level.
pub proof fn law_noise_floor_is_level(floor: Float, known: bool, level: Float, score: Float)
    requires
        is_level(floor),
        is_level(level),
    ensures
        is_level(followed(floor, known, level, score)),
{
    lemma_weights();
}

/// The noise floor of a voice gate is a level, whatever is heard.
pub proof fn law_gate_floor_is_level(samples: Seq<i16>, scores: Seq<Float>, n: nat)
    ensures
        is_level(state_after(gate_at_rest(), samples, scores, n).noise_floor),
    decreases n,
{
    if n > 0 {
        let before = state_after(gate_at_rest(), samples, scores, (n - 1) as nat);
        let frame = frame_at(samples, n - 1);
        law_gate_floor_is_level(samples, scores, (n - 1) as nat);
        law_loudness_is_level(frame);
        law_noise_floor_is_level(
            before.noise_floor,
            before.noise_floor_initialized,
            loudness(frame),
            scores[n - 1],
        );
    }
}

/// Nothing but zeros.
pub open spec fn is_silent(samples: Seq<i16>) -> bool {
    forall|i: int| 0 <= i < samples.len() ==> #[trigger] samples[i] == 0
}

/// Silence has no energy.
proof fn lemma_silence_has_no_energy(samples: Seq<i16>)
    requires
        is_silent(samples),
    ensures
        energy(samples) == Float::zero(),
    decreases samples.len(),
{
    if samples.len() > 0 {
        let d = Format::Double;
        let before = samples.drop_last();
        assert forall|i: int| 0 <= i < before.len() implies #[trigger] before[i] == 0 by {
            assert(samples[i] == 0);
        }
        assert(samples[samples.len() - 1] == 0);
        lemma_silence_has_no_energy(before);
        lemma_mul_basics(0);
        lemma_mul_basics(d.one() as int);
        lemma_pow2_pos(d.scale());
        lemma_rounded_zero(d, false, d.one());
    }
}

/// Silence has no loudness.
pub proof fn law_silence_is_not_loud(samples: Seq<i16>)
    requires
        is_silent(samples),
        0 < samples.len() <= u64::MAX,
    ensures
        loudness(samples) == Float::zero(),
{
    let d = Format::Double;
    let s = Format::Single;
    lemma_silence_has_no_energy(samples);
    lemma_u64_is_finite(d, samples.len());
    let n = from_int(d, samples.len() as int);
    lemma_mul_basics(d.one() as int);
    lemma_mul_basics(s.one() as int);
    lemma_rounded_zero(d, false, n.mag());
    lemma_pow2_pos(d.scale());
    lemma_rounded_zero(s, false, d.one());
}

/// Once the noise floor is known, a silent frame is never confirmed, whatever its score.
pub proof fn law_silent_frame_is_not_confirmed(state: GateState, frame: Seq<i16>, score: Float)
    requires
        is_silent(frame),
        frame.len() == FRAME_SIZE,
        is_level(state.noise_floor),
        floor_known_after(state, score),
    ensures
        !confirms(state, frame, score),
{
    law_silence_is_not_loud(frame);
    law_noise_floor_is_level(
        state.noise_floor,
        state.noise_floor_initialized,
        loudness(frame),
        score,
    );
    lemma_weights();
}

/// A noise floor that is known stays known.
proof fn lemma_floor_stays_known(samples: Seq<i16>, scores: Seq<Float>, j: nat, n: nat)
    requires
        j < n,
        !scores_voiced(scores[j as int]),
    ensures
        state_after(gate_at_rest(), samples, scores, n).noise_floor_initialized,
    decreases n,
{
    if j < n - 1 {
        lemma_floor_stays_known(samples, scores, j, (n - 1) as nat);
    }
}

/// In a silent recording nothing is confirmed from the first frame on that is not scored as
/// voiced.
pub proof fn law_silence_is_not_speech(samples: Seq<i16>, scores: Seq<Float>, j: nat, i: int)
    requires
        is_silent(samples),
        j <= i < frame_count(samples.len()),
        !scores_voiced(scores[j as int]),
    ensures
        !decisions(gate_at_rest(), samples, scores)[i],
{
    let state = state_after(gate_at_rest(), samples, scores, i as nat);
    law_gate_floor_is_level(samples, scores, i as nat);
    if j < i {
        lemma_floor_stays_known(samples, scores, j, i as nat);
    }
    assert(is_silent(frame_at(samples, i)));
    law_silent_frame_is_not_confirmed(state, frame_at(samples, i), scores[i]);
}

/// What the filter remembers does not depend on how samples are cut into pieces.
pub proof fn law_filter_goes_on(state: FilterState, a: Seq<i16>, b: Seq<i16>)
    ensures
        filter_after(state, a + b) == filter_after(filter_after(state, a), b),
    decreases b.len(),
{
    if b.len() == 0 {
        assert(a + b =~= a);
    } else {
        assert((a + b).drop_last() =~= a + b.drop_last());
        law_filter_goes_on(state, a, b.drop_last());
    }
}

/// Filtering a recording piece by piece gives what filtering it at once gives.
pub proof fn law_filtering_goes_on(state: FilterState, a: Seq<i16>, b: Seq<i16>)
    ensures
        filtered(state, a + b) == filtered(state, a) + filtered(filter_after(state, a), b),
{
    let whole = filtered(state, a + b);
    let parts = filtered(state, a) + filtered(filter_after(state, a), b);
    assert forall|i: int| 0 <= i < whole.len() implies whole[i] == parts[i] by {
        if i < a.len() {
            assert((a + b).take(i + 1) =~= a.take(i + 1));
        } else {
            assert((a + b).take(i + 1) =~= a + b.take(i - a.len() + 1));
            law_filter_goes_on(state, a, b.take(i - a.len() + 1));
        }
    }
    assert(whole =~= parts);
}

/// The constants of the filter are positive.
proof fn lemma_filter_constants()
    ensures
        single(HPF_ALPHA) is Finite && !single(HPF_ALPHA).neg(),
        single(FULL_SCALE) is Finite && !single(FULL_SCALE).neg() && single(FULL_SCALE).mag() > 0,
{
    let s = Format::Single;
    lemma_format(s);
    lemma2_to64();
    lemma2_to64_rest();
    let w = pow2(141);
    lemma_pow2_pos(141);
    assert(single(FULL_SCALE) == (Float::Finite { neg: false, mag: 8_388_608 * w }));
}

/// Silence leaves a filter at rest.
proof fn lemma_filter_rests(samples: Seq<i16>)
    requires
        is_silent(samples),
    ensures
        filter_after(filter_at_rest(), samples) == filter_at_rest(),
    decreases samples.len(),
{
    if samples.len() > 0 {
        let s = Format::Single;
        let before = samples.drop_last();
        assert forall|i: int| 0 <= i < before.len() implies #[trigger] before[i] == 0 by {
            assert(samples[i] == 0);
        }
        assert(samples[samples.len() - 1] == 0);
        lemma_filter_rests(before);
        lemma_filter_constants();
        lemma_mul_basics(s.one() as int);
        lemma_pow2_pos(s.scale());
        lemma_rounded_zero(s, false, single(FULL_SCALE).mag());
        lemma_mul_basics(single(HPF_ALPHA).mag() as int);
        lemma_rounded_zero(s, false, s.one());
    }
}

/// A filter at rest keeps silence silent.
pub proof fn law_filter_keeps_silence(samples: Seq<i16>)
    requires
        is_silent(samples),
    ensures
        is_silent(filtered(filter_at_rest(), samples)),
{
    let s = Format::Single;
    let out = filtered(filter_at_rest(), samples);
    assert forall|i: int| 0 <= i < out.len() implies #[trigger] out[i] == 0 by {
        let head = samples.take(i + 1);
        assert forall|j: int| 0 <= j < head.len() implies #[trigger] head[j] == 0 by {
            assert(samples[j] == 0);
        }
        lemma_filter_rests(head);
        lemma_sample_of_zero();
    }
}

/// Zero is the sample zero.
proof fn lemma_sample_of_zero()
    ensures
        sample_of(Float::zero()) == 0,
{
    let s = Format::Single;
    lemma_format(s);
    lemma2_to64();
    lemma2_to64_rest();
    lemma_filter_constants();
    lemma_pow2_pos(s.scale());
    lemma_mul_basics(single(FULL_SCALE).mag() as int);
    lemma_rounded_zero(s, false, s.one());
    lemma_pow2_pos(141);
    lemma_pow2_pos(140);
    lemma_mul_basics(s.one() as int);
}

} // verus!
