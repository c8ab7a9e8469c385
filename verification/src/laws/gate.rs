//! Laws of the decision whether a frame is speech.

use crate::engine::{
    confirms, decisions, frame_at, frame_count, gate_after, gate_at_rest, history_after, is_valid,
    is_wind, stands_out, state_after, GateState, FRAME_SIZE, HISTORY_FRAMES, MIN_CONSECUTIVE_FRAMES,
    ONSET_RATIO, SPEECH_ZCR_LIMIT, SUSTAIN_RATIO,
};
use crate::float::arith::lemma_format;
use crate::float::laws::{law_small_wholes_divide, lemma_rounded_at, lemma_rounded_order};
use crate::float::model::{rounded, settled, Float, Format};
use crate::signal::{
    count_set, crossing_rate, lemma_count_set_bound, remembered, scores_voiced, set_share, single,
};
use vstd::arithmetic::power2::{
    lemma2_to64, lemma2_to64_rest, lemma_pow2_adds, lemma_pow2_pos, pow2,
};
use vstd::prelude::*;

verus! {

/// The share of `count` in ten, in single precision.
spec fn tenths(count: nat) -> nat {
    rounded(count * Format::Single.one(), 10, 24)
}

/// The shares of three to six in ten, and the two that are asked for.
proof fn lemma_tenths()
    ensures
        tenths(3) == 10_066_330 * pow2(124),
        tenths(4) == 13_421_773 * pow2(124),
        tenths(5) == 8_388_608 * pow2(125),
        tenths(6) == 10_066_330 * pow2(125),
        single(ONSET_RATIO) == (Float::Finite { neg: false, mag: 10_066_330 * pow2(125) }),
        single(SUSTAIN_RATIO) == (Float::Finite { neg: false, mag: 13_421_773 * pow2(124) }),
        pow2(125) == 2 * pow2(124),
        pow2(124) > 0,
{
    let s = Format::Single;
    let one = s.one();
    lemma2_to64();
    lemma2_to64_rest();
    lemma_format(s);
    lemma_pow2_adds(25, 124);
    lemma_pow2_adds(24, 125);
    vstd::arithmetic::power2::lemma_pow2_unfold(125);
    lemma_pow2_pos(124);
    let w = pow2(124);
    let v = pow2(125);
    assert(3 * one == (3 * 33_554_432) * w && 4 * one == (4 * 33_554_432) * w) by (nonlinear_arith)
        requires
            one == 33_554_432 * w,
    ;
    assert(5 * one == (5 * 16_777_216) * v && 6 * one == (6 * 16_777_216) * v) by (nonlinear_arith)
        requires
            one == 16_777_216 * v,
    ;
    lemma_rounded_at(100_663_296, 10, 24, 124, 10_066_329, 6);
    lemma_rounded_at(134_217_728, 10, 24, 124, 13_421_772, 8);
    lemma_rounded_at(83_886_080, 10, 24, 125, 8_388_608, 0);
    lemma_rounded_at(100_663_296, 10, 24, 125, 10_066_329, 6);
}

/// Of ten frames, six are needed for speech to begin and four for it to go on.
pub proof fn law_six_begin_and_four_sustain(history: Seq<bool>)
    requires
        history.len() == HISTORY_FRAMES,
    ensures
        single(ONSET_RATIO).le(set_share(history)) <==> count_set(history) >= 6,
        single(SUSTAIN_RATIO).le(set_share(history)) <==> count_set(history) >= 4,
        set_share(history).lt(single(SUSTAIN_RATIO)) <==> count_set(history) < 4,
{
    let s = Format::Single;
    let one = s.one();
    let c = count_set(history);
    lemma_count_set_bound(history);
    lemma_format(s);
    lemma_tenths();
    law_small_wholes_divide(s, c, 10);
    let w = pow2(124);
    assert(set_share(history) == settled(s, false, tenths(c)));
    lemma_tenths_order(c, 10);
    lemma_tenths_order(c, 3);
    lemma_tenths_order(4, c);
    lemma_tenths_order(c, 5);
    lemma_tenths_order(6, c);
    lemma_rounded_order(10 * one, 10, one, 1, 24);
    crate::float::laws::lemma_one_is_exact(s);
    assert(tenths(c) < s.limit());
}

/// More in ten is not a smaller share.
proof fn lemma_tenths_order(a: nat, b: nat)
    ensures
        a <= b ==> tenths(a) <= tenths(b),
{
    let one = Format::Single.one();
    if a <= b {
        assert((a * one) * 10 <= (b * one) * 10) by (nonlinear_arith)
            requires
                a <= b,
        ;
        lemma_rounded_order(a * one, 10, b * one, 10, 24);
    }
}

/// A confirmed frame scored as voiced, is neither wind nor too noisy, is louder than the noise
/// floor, comes after at least two such frames, and has enough voiced frames around it.
pub proof fn law_confirmed_frames_qualify(state: GateState, frame: Seq<i16>, score: Float)
    requires
        confirms(state, frame, score),
    ensures
        scores_voiced(score),
        crossing_rate(frame).le(single(SPEECH_ZCR_LIMIT)),
        !is_wind(frame),
        stands_out(state, frame, score),
        state.consecutive_voiced + 1 >= MIN_CONSECUTIVE_FRAMES,
        history_after(state, frame, score).len() == HISTORY_FRAMES,
        count_set(history_after(state, frame, score)) >= if state.is_speech {
            4nat
        } else {
            6
        },
        gate_after(state, frame, score).is_speech,
{
    law_six_begin_and_four_sustain(history_after(state, frame, score));
}

/// Speech goes on while at least four of the last ten frames are voiced, and is over when fewer
/// are.
pub proof fn law_speech_lasts(state: GateState, frame: Seq<i16>, score: Float)
    requires
        state.is_speech,
        history_after(state, frame, score).len() == HISTORY_FRAMES,
    ensures
        gate_after(state, frame, score).is_speech <==> count_set(
            history_after(state, frame, score),
        ) >= 4,
{
    law_six_begin_and_four_sustain(history_after(state, frame, score));
}

/// The history after some frames: which of the last ten, or of all if there are fewer, looked like
/// speech.
pub open spec fn recent(samples: Seq<i16>, scores: Seq<Float>, n: nat) -> Seq<bool> {
    let len = if n < HISTORY_FRAMES {
        n
    } else {
        HISTORY_FRAMES as nat
    };
    Seq::new(
        len,
        |j: int| is_valid(frame_at(samples, n - len + j), scores[n - len + j]),
    )
}

/// A voice gate remembers the last ten frames, and nothing older.
pub proof fn law_history_is_recent(samples: Seq<i16>, scores: Seq<Float>, n: nat)
    ensures
        state_after(gate_at_rest(), samples, scores, n).history == recent(samples, scores, n),
    decreases n,
{
    if n > 0 {
        law_history_is_recent(samples, scores, (n - 1) as nat);
        let before = recent(samples, scores, (n - 1) as nat);
        let flag = is_valid(frame_at(samples, n - 1), scores[n - 1]);
        assert(remembered(before, flag, HISTORY_FRAMES as nat) =~= recent(samples, scores, n));
    } else {
        assert(recent(samples, scores, 0) =~= Seq::<bool>::empty());
    }
}

/// Nothing is confirmed before ten frames have been heard.
pub proof fn law_warm_up(samples: Seq<i16>, scores: Seq<Float>, i: int)
    requires
        0 <= i < frame_count(samples.len()),
        i + 1 < HISTORY_FRAMES,
    ensures
        !decisions(gate_at_rest(), samples, scores)[i],
{
    law_history_is_recent(samples, scores, i as nat);
}

/// As many frames in a row as are counted looked like speech.
proof fn lemma_counted_frames_are_valid(
    samples: Seq<i16>,
    scores: Seq<Float>,
    n: nat,
    j: int,
)
    requires
        n - state_after(gate_at_rest(), samples, scores, n).consecutive_voiced <= j < n,
    ensures
        state_after(gate_at_rest(), samples, scores, n).consecutive_voiced <= n,
        is_valid(frame_at(samples, j), scores[j]),
    decreases n,
{
    if n > 0 {
        let before = state_after(gate_at_rest(), samples, scores, (n - 1) as nat);
        if j < n - 1 {
            lemma_counted_frames_are_valid(samples, scores, (n - 1) as nat, j);
        } else {
            lemma_count_is_bounded(samples, scores, n);
        }
    }
}

/// No more frames are counted than were heard.
proof fn lemma_count_is_bounded(samples: Seq<i16>, scores: Seq<Float>, n: nat)
    ensures
        state_after(gate_at_rest(), samples, scores, n).consecutive_voiced <= n,
    decreases n,
{
    if n > 0 {
        lemma_count_is_bounded(samples, scores, (n - 1) as nat);
    }
}

/// A frame that is confirmed is at least the third in a row that looks like speech.
pub proof fn law_three_in_a_row(samples: Seq<i16>, scores: Seq<Float>, i: int)
    requires
        0 <= i < frame_count(samples.len()),
        decisions(gate_at_rest(), samples, scores)[i],
    ensures
        i >= 2,
        is_valid(frame_at(samples, i), scores[i]),
        is_valid(frame_at(samples, i - 1), scores[i - 1]),
        is_valid(frame_at(samples, i - 2), scores[i - 2]),
{
    let before = state_after(gate_at_rest(), samples, scores, i as nat);
    law_confirmed_frames_qualify(before, frame_at(samples, i), scores[i]);
    lemma_count_is_bounded(samples, scores, i as nat);
    lemma_counted_frames_are_valid(samples, scores, i as nat, i - 1);
    lemma_counted_frames_are_valid(samples, scores, i as nat, i - 2);
}

/// Two states from which the same is decided: a noise floor that is not known does not count.
pub open spec fn decide_alike(a: GateState, b: GateState) -> bool {
    &&& a.history == b.history
    &&& a.noise_floor_initialized == b.noise_floor_initialized
    &&& a.noise_floor_initialized ==> a.noise_floor == b.noise_floor
    &&& a.consecutive_voiced == b.consecutive_voiced
    &&& a.is_speech == b.is_speech
}

/// States from which the same is decided stay so.
proof fn lemma_stay_alike(
    a: GateState,
    b: GateState,
    samples: Seq<i16>,
    scores: Seq<Float>,
    n: nat,
)
    requires
        decide_alike(a, b),
    ensures
        decide_alike(state_after(a, samples, scores, n), state_after(b, samples, scores, n)),
    decreases n,
{
    if n > 0 {
        lemma_stay_alike(a, b, samples, scores, (n - 1) as nat);
    }
}

/// A gate that was reset decides like a new one, whatever noise floor it has kept.
pub proof fn law_reset_is_like_new(floor: Float, samples: Seq<i16>, scores: Seq<Float>)
    ensures
        decisions(GateState { noise_floor: floor, ..gate_at_rest() }, samples, scores) == decisions(
            gate_at_rest(),
            samples,
            scores,
        ),
{
    let reset = GateState { noise_floor: floor, ..gate_at_rest() };
    assert forall|i: int| 0 <= i < frame_count(samples.len()) implies decisions(
        reset,
        samples,
        scores,
    )[i] == decisions(gate_at_rest(), samples, scores)[i] by {
        lemma_stay_alike(reset, gate_at_rest(), samples, scores, i as nat);
    }
    assert(decisions(reset, samples, scores) =~= decisions(gate_at_rest(), samples, scores));
}

/// Recordings that agree up to a frame, and are scored alike up to there, lead to the same state.
proof fn lemma_same_past(
    state: GateState,
    a: Seq<i16>,
    b: Seq<i16>,
    scores_a: Seq<Float>,
    scores_b: Seq<Float>,
    n: nat,
)
    requires
        n * FRAME_SIZE <= a.len(),
        n * FRAME_SIZE <= b.len(),
        a.take((n * FRAME_SIZE) as int) == b.take((n * FRAME_SIZE) as int),
        forall|i: int| 0 <= i < n ==> scores_a[i] == scores_b[i],
    ensures
        state_after(state, a, scores_a, n) == state_after(state, b, scores_b, n),
        forall|i: int| 0 <= i < n ==> #[trigger] frame_at(a, i) == frame_at(b, i),
    decreases n,
{
    let m = n * FRAME_SIZE;
    assert forall|i: int| 0 <= i < n implies #[trigger] frame_at(a, i) == frame_at(b, i) by {
        assert forall|j: int| 0 <= j < FRAME_SIZE implies frame_at(a, i)[j] == frame_at(
            b,
            i,
        )[j] by {
            assert(a[i * FRAME_SIZE + j] == a.take(m as int)[i * FRAME_SIZE + j]);
            assert(b[i * FRAME_SIZE + j] == b.take(m as int)[i * FRAME_SIZE + j]);
        }
        assert(frame_at(a, i) =~= frame_at(b, i));
    }
    if n > 0 {
        let k = ((n - 1) * FRAME_SIZE) as int;
        assert(a.take(k) =~= a.take(m as int).take(k));
        assert(b.take(k) =~= b.take(m as int).take(k));
        lemma_same_past(state, a, b, scores_a, scores_b, (n - 1) as nat);
        assert(frame_at(a, n - 1) == frame_at(b, n - 1));
    }
}

/// What is decided on a frame depends on nothing that comes after it.
pub proof fn law_decisions_are_causal(
    state: GateState,
    a: Seq<i16>,
    b: Seq<i16>,
    scores_a: Seq<Float>,
    scores_b: Seq<Float>,
    n: nat,
    i: int,
)
    requires
        n * FRAME_SIZE <= a.len(),
        n * FRAME_SIZE <= b.len(),
        a.take((n * FRAME_SIZE) as int) == b.take((n * FRAME_SIZE) as int),
        forall|k: int| 0 <= k < n ==> scores_a[k] == scores_b[k],
        0 <= i < n,
    ensures
        decisions(state, a, scores_a)[i] == decisions(state, b, scores_b)[i],
{
    lemma_same_past(state, a, b, scores_a, scores_b, n);
    let k = i * FRAME_SIZE;
    let m = (n * FRAME_SIZE) as int;
    assert(a.take(k) =~= a.take(m).take(k));
    assert(b.take(k) =~= b.take(m).take(k));
    lemma_same_past(state, a, b, scores_a, scores_b, i as nat);
    assert(frame_at(a, i) == frame_at(b, i));
    assert(i < frame_count(a.len()) && i < frame_count(b.len()));
}

/// There is one decision for each frame, the last of which may be short: enough for all samples,
/// and no more.
pub proof fn law_one_decision_per_frame(state: GateState, samples: Seq<i16>, scores: Seq<Float>)
    ensures
        ({
            let n = decisions(state, samples, scores).len();
            &&& n == frame_count(samples.len())
            &&& n >= samples.len() / FRAME_SIZE as nat
            &&& samples.len() <= n * FRAME_SIZE < samples.len() + FRAME_SIZE
            &&& n == 0 <==> samples.len() == 0
        }),
{
}

/// Every sample stands in its frame, and what the last frame has beyond them is silence.
pub proof fn law_frames_hold_the_samples(samples: Seq<i16>, i: int)
    requires
        0 <= i < frame_count(samples.len()) * FRAME_SIZE,
    ensures
        frame_at(samples, i / FRAME_SIZE as int)[i % FRAME_SIZE as int] == if i < samples.len() {
            samples[i]
        } else {
            0
        },
{
}

/// The frames of a recording that is put together of two, the first of which has whole frames only.
proof fn lemma_frames_of_both(a: Seq<i16>, b: Seq<i16>, n: nat, i: int)
    requires
        a.len() == n * FRAME_SIZE,
        0 <= i,
    ensures
        i < n ==> frame_at(a + b, i) == frame_at(a, i),
        frame_at(a + b, n + i) == frame_at(b, i),
{
    if i < n {
        assert(frame_at(a + b, i) =~= frame_at(a, i));
    }
    assert(frame_at(a + b, n + i) =~= frame_at(b, i));
}

/// The state within the first of two recordings.
proof fn lemma_state_in_first(
    state: GateState,
    a: Seq<i16>,
    b: Seq<i16>,
    scores_a: Seq<Float>,
    scores_b: Seq<Float>,
    n: nat,
    i: nat,
)
    requires
        a.len() == n * FRAME_SIZE,
        scores_a.len() == n,
        i <= n,
    ensures
        state_after(state, a + b, scores_a + scores_b, i) == state_after(state, a, scores_a, i),
    decreases i,
{
    if i > 0 {
        lemma_state_in_first(state, a, b, scores_a, scores_b, n, (i - 1) as nat);
        lemma_frames_of_both(a, b, n, i - 1);
    }
}

/// One more frame of a recording.
proof fn lemma_one_frame_on(
    state: GateState,
    samples: Seq<i16>,
    scores: Seq<Float>,
    n: nat,
    before: GateState,
    frame: Seq<i16>,
    score: Float,
)
    requires
        n > 0,
        state_after(state, samples, scores, (n - 1) as nat) == before,
        frame_at(samples, n - 1) == frame,
        scores[n - 1] == score,
    ensures
        state_after(state, samples, scores, n) == gate_after(before, frame, score),
{
}

/// The state within the second of two recordings.
proof fn lemma_state_in_second(
    state: GateState,
    a: Seq<i16>,
    b: Seq<i16>,
    scores_a: Seq<Float>,
    scores_b: Seq<Float>,
    n: nat,
    i: nat,
)
    requires
        a.len() == n * FRAME_SIZE,
        scores_a.len() == n,
        i <= scores_b.len(),
    ensures
        state_after(state, a + b, scores_a + scores_b, n + i) == state_after(
            state_after(state, a, scores_a, n),
            b,
            scores_b,
            i,
        ),
    decreases i,
{
    if i > 0 {
        lemma_state_in_second(state, a, b, scores_a, scores_b, n, (i - 1) as nat);
        lemma_frames_of_both(a, b, n, i - 1);
        let middle = state_after(state, a, scores_a, n);
        let before = state_after(middle, b, scores_b, (i - 1) as nat);
        let frame = frame_at(b, i - 1);
        let score = scores_b[i - 1];
        assert((scores_a + scores_b)[n + i - 1] == score);
        lemma_one_frame_on(state, a + b, scores_a + scores_b, n + i, before, frame, score);
        lemma_one_frame_on(middle, b, scores_b, i, before, frame, score);
    } else {
        lemma_state_in_first(state, a, b, scores_a, scores_b, n, n);
    }
}

/// Processing a recording in two pieces, of which the first has whole frames only, decides what
/// processing it at once decides.
pub proof fn law_processing_goes_on(
    state: GateState,
    a: Seq<i16>,
    b: Seq<i16>,
    scores_a: Seq<Float>,
    scores_b: Seq<Float>,
    n: nat,
)
    requires
        a.len() == n * FRAME_SIZE,
        scores_a.len() == n,
        scores_b.len() == frame_count(b.len()),
    ensures
        decisions(state, a + b, scores_a + scores_b) == decisions(state, a, scores_a) + decisions(
            state_after(state, a, scores_a, n),
            b,
            scores_b,
        ),
{
    let whole = decisions(state, a + b, scores_a + scores_b);
    let middle = state_after(state, a, scores_a, n);
    let parts = decisions(state, a, scores_a) + decisions(middle, b, scores_b);
    assert(frame_count(a.len()) == n);
    assert(frame_count((a + b).len()) == n + frame_count(b.len()));
    assert forall|i: int| 0 <= i < whole.len() implies whole[i] == parts[i] by {
        if i < n {
            lemma_state_in_first(state, a, b, scores_a, scores_b, n, i as nat);
            lemma_frames_of_both(a, b, n, i);
        } else {
            let j = (i - n) as nat;
            lemma_state_in_second(state, a, b, scores_a, scores_b, n, j);
            lemma_frames_of_both(a, b, n, j as int);
            assert((scores_a + scores_b)[i] == scores_b[j as int]);
        }
    }
    assert(whole =~= parts);
}

} // verus!
