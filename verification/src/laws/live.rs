//! Laws of listening: of the decision on each frame, of utterances, and of the comparison of
//! voices.

use crate::float::arith::lemma_format;
use crate::float::binary32::{clamped, Binary32};
use crate::float::laws::{
    law_small_whole_is_exact, law_small_wholes_divide, lemma_exact_product, lemma_one_is_exact,
    lemma_rounded_at, lemma_rounded_order,
};
use crate::float::model::{from_int, rounded, settled, Float, Format};
use crate::float::ops::lemma_decoded_is_rounded;
use crate::live::{
    begun, continued, counts, elapsed, filled_marks, finished_by, is_profile_of, live_after,
    live_at_rest, live_confirms, progress_after, window_after, LiveFrame, LiveState, Spoken,
    VoiceProfile, HANGOVER_MS, HISTORY_FRAMES, MIN_SEGMENT_MS, NANOS_PER_MS, ONSET_RATIO,
    PITCH_SLACK_ABOVE, PITCH_SLACK_BELOW, PITCH_WINDOW_LEN,
};
use crate::signal::{count_set, lemma_count_set_bound, set_share, single};
use crate::sorting::{in_order, Ranked};
use vstd::arithmetic::div_mod::{lemma_div_is_ordered, lemma_fundamental_div_mod_converse};
use vstd::arithmetic::mul::lemma_mul_basics;
use vstd::arithmetic::power2::{
    lemma2_to64, lemma2_to64_rest, lemma_pow2_adds, lemma_pow2_pos, pow2,
};
use vstd::prelude::*;

verus! {

/// The share of `count` in six, in single precision.
spec fn sixths(count: nat) -> nat {
    rounded(count * Format::Single.one(), 6, 24)
}

/// More in six is not a smaller share.
proof fn lemma_sixths_order(a: nat, b: nat)
    ensures
        a <= b ==> sixths(a) <= sixths(b),
{
    let one = Format::Single.one();
    if a <= b {
        assert((a * one) * 6 <= (b * one) * 6) by (nonlinear_arith)
            requires
                a <= b,
        ;
        lemma_rounded_order(a * one, 6, b * one, 6, 24);
    }
}

/// Of six frames, four are needed to confirm a voice.
pub proof fn law_four_of_six_confirm(history: Seq<bool>)
    requires
        history.len() == HISTORY_FRAMES,
    ensures
        single(ONSET_RATIO).le(set_share(history)) <==> count_set(history) >= 4,
{
    let s = Format::Single;
    let one = s.one();
    let c = count_set(history);
    lemma_count_set_bound(history);
    lemma_format(s);
    lemma2_to64();
    lemma2_to64_rest();
    lemma_pow2_adds(24, 125);
    lemma_pow2_pos(125);
    let v = pow2(125);
    assert(3 * one == (3 * 16_777_216) * v && 4 * one == (4 * 16_777_216) * v) by (nonlinear_arith)
        requires
            one == 16_777_216 * v,
    ;
    lemma_rounded_at(50_331_648, 6, 24, 125, 8_388_608, 0);
    lemma_rounded_at(67_108_864, 6, 24, 125, 11_184_810, 4);
    assert(sixths(3) == 8_388_608 * v);
    assert(sixths(4) == 11_184_811 * v);
    assert(single(ONSET_RATIO) == (Float::Finite { neg: false, mag: 10_905_190 * v }));
    law_small_wholes_divide(s, c, 6);
    assert(set_share(history) == settled(s, false, sixths(c)));
    lemma_sixths_order(c, 3);
    lemma_sixths_order(4, c);
    lemma_sixths_order(c, 6);
    lemma_rounded_order(6 * one, 6, one, 1, 24);
    lemma_one_is_exact(s);
    assert(sixths(c) < s.limit());
}

/// A voice is confirmed only after six frames, of which at least four were voiced.
pub proof fn law_confirmed_voice_was_heard(after: LiveState, frame: Seq<i16>)
    requires
        live_confirms(after, frame),
    ensures
        after.history.len() == HISTORY_FRAMES,
        count_set(after.history) >= 4,
{
    law_four_of_six_confirm(after.history);
}

/// The last samples, at most as many as the pitch is estimated from.
pub open spec fn latest(samples: Seq<i16>) -> Seq<i16> {
    if samples.len() > PITCH_WINDOW_LEN {
        samples.skip(samples.len() - PITCH_WINDOW_LEN)
    } else {
        samples
    }
}

/// The pitch is always estimated from the samples that came in last.
pub proof fn law_window_is_latest(samples: Seq<i16>, frame: Seq<i16>)
    ensures
        window_after(latest(samples), frame) == latest(samples + frame),
        latest(samples).len() <= PITCH_WINDOW_LEN,
{
    assert(window_after(latest(samples), frame) =~= latest(samples + frame));
}

/// No more than six frames are ever remembered, nor more samples than the pitch is estimated from.
pub proof fn law_live_memory_is_bounded(state: LiveState, frame: Seq<i16>, score: Float)
    requires
        state.history.len() <= HISTORY_FRAMES,
    ensures
        live_after(state, frame, score).history.len() <= HISTORY_FRAMES,
        live_after(state, frame, score).window.len() <= PITCH_WINDOW_LEN,
        live_at_rest().history.len() <= HISTORY_FRAMES,
{
}

/// An utterance goes on while a voice is heard, and through a pause that is not longer than the
/// hangover.
pub proof fn law_short_pause_does_not_split(spoken: Spoken, now: u64, frame: LiveFrame)
    requires
        frame.confirmed_voiced || elapsed(spoken.last_voiced, now) <= HANGOVER_MS * NANOS_PER_MS,
    ensures
        progress_after(Some(spoken), now, frame) == Some(continued(spoken, now, frame)),
        finished_by(Some(spoken), now, frame) is None,
{
}

/// An utterance is over when no voice was heard for longer than the hangover.
pub proof fn law_long_pause_ends(spoken: Spoken, now: u64, frame: LiveFrame)
    requires
        !frame.confirmed_voiced,
        elapsed(spoken.last_voiced, now) > HANGOVER_MS * NANOS_PER_MS,
    ensures
        progress_after(Some(spoken), now, frame) is None,
        finished_by(Some(spoken), now, frame) == if counts(spoken) {
            Some(spoken)
        } else {
            None
        },
{
}

/// The times of an utterance are in order.
pub open spec fn in_time(open: Option<Spoken>, now: u64) -> bool {
    open matches Some(spoken) ==> spoken.start <= spoken.last_voiced <= now
}

/// As long as time does not run backwards, the times of an utterance stay in order.
pub proof fn law_times_stay_in_order(
    open: Option<Spoken>,
    before: u64,
    now: u64,
    frame: LiveFrame,
)
    requires
        in_time(open, before),
        before <= now,
    ensures
        in_time(progress_after(open, now, frame), now),
{
}

/// A click is dropped: no utterance is told that lasts less than 200 milliseconds from its start to
/// where a voice was last heard.
pub proof fn law_clicks_are_dropped(open: Option<Spoken>, now: u64, frame: LiveFrame)
    ensures
        finished_by(open, now, frame) matches Some(spoken) ==> elapsed(
            spoken.start,
            spoken.last_voiced,
        ) >= MIN_SEGMENT_MS * NANOS_PER_MS,
        open matches Some(spoken) ==> elapsed(spoken.start, spoken.last_voiced) < MIN_SEGMENT_MS
            * NANOS_PER_MS && !frame.confirmed_voiced ==> finished_by(open, now, frame) is None,
{
}

/// An utterance of a single frame is a click, whenever it ends.
pub proof fn law_single_frame_is_a_click(
    first: LiveFrame,
    start: u64,
    now: u64,
    frame: LiveFrame,
)
    requires
        !frame.confirmed_voiced,
    ensures
        finished_by(Some(begun(start, first)), now, frame) is None,
{
}

/// No utterance but a click is dropped: one that is over is told if it lasts long enough.
pub proof fn law_long_utterances_are_told(spoken: Spoken, now: u64, frame: LiveFrame)
    requires
        progress_after(Some(spoken), now, frame) is None,
        elapsed(spoken.start, spoken.last_voiced) >= MIN_SEGMENT_MS * NANOS_PER_MS,
    ensures
        finished_by(Some(spoken), now, frame) == Some(spoken),
{
}

/// The peak of an utterance is not below the score of any of its frames.
pub proof fn law_peak_is_highest(spoken: Spoken, now: u64, frame: LiveFrame)
    requires
        !spoken.peak_score@.is_nan(),
        !frame.score@.is_nan(),
    ensures
        spoken.peak_score@.le(continued(spoken, now, frame).peak_score@),
        frame.confirmed_voiced ==> frame.score@.le(continued(spoken, now, frame).peak_score@),
        !continued(spoken, now, frame).peak_score@.is_nan(),
        begun(now, frame).peak_score == frame.score,
{
}

/// A number with the given bits that is neither negative nor infinite is its own rounding.
pub proof fn lemma_is_rounded(x: Binary32)
    requires
        x@ is Finite,
    ensures
        rounded(x@.mag(), 1, 24) == x@.mag(),
        x@.mag() < Format::Single.limit(),
{
    lemma_decoded_is_rounded(
        Format::Single,
        (x.bits % 0x8000_0000) as nat,
        x.bits >= 0x8000_0000,
    );
}

/// The slack of a profile: the one bound is below one, the other above.
proof fn lemma_slack()
    ensures
        ({
            let below = single(PITCH_SLACK_BELOW);
            let above = single(PITCH_SLACK_ABOVE);
            let one = Format::Single.one();
            &&& below is Finite && !below.neg() && below.mag() <= one
            &&& above is Finite && !above.neg() && above.mag() >= one
        }),
{
    let s = Format::Single;
    lemma_format(s);
    lemma2_to64();
    lemma2_to64_rest();
    lemma_pow2_adds(24, 125);
    lemma_pow2_adds(23, 126);
    lemma_pow2_pos(125);
    lemma_pow2_pos(126);
    assert(single(PITCH_SLACK_BELOW) == (Float::Finite { neg: false, mag: 14_260_634 * pow2(125) }));
    assert(single(PITCH_SLACK_ABOVE) == (Float::Finite { neg: false, mag: 9_646_899 * pow2(126) }));
}

/// The range of a profile holds every pitch between the two that it was made from.
pub proof fn law_profile_holds_its_pitches(
    profile: VoiceProfile,
    ordered: Seq<Binary32>,
    levels: Seq<Binary32>,
    pitch: Float,
)
    requires
        is_profile_of(profile, ordered, levels),
        in_order(ordered),
        ordered.len() >= 3,
        forall|i: int|
            0 <= i < ordered.len() ==> (#[trigger] ordered[i])@ is Finite && !ordered[i]@.neg(),
        ({
            let n = ordered.len() as int;
            ordered[n / 10]@.le(pitch) && pitch.le(ordered[n - 1 - n / 10]@)
        }),
    ensures
        profile.pitch_min@.le(pitch),
        pitch.le(profile.pitch_max@),
{
    let s = Format::Single;
    let one = s.one();
    let n = ordered.len() as int;
    let lo = ordered[n / 10];
    let hi = ordered[n - 1 - n / 10];
    assert(lo@ is Finite && !lo@.neg());
    assert(hi@ is Finite && !hi@.neg());
    lemma_slack();
    lemma_pow2_pos(s.scale());
    lemma_is_rounded(lo);
    lemma_is_rounded(hi);
    let below = single(PITCH_SLACK_BELOW);
    let above = single(PITCH_SLACK_ABOVE);
    assert((lo@.mag() * below.mag()) * 1 <= lo@.mag() * one) by (nonlinear_arith)
        requires
            below.mag() <= one,
    ;
    lemma_rounded_order(lo@.mag() * below.mag(), one, lo@.mag(), 1, 24);
    assert(hi@.mag() * one <= (hi@.mag() * above.mag()) * 1) by (nonlinear_arith)
        requires
            above.mag() >= one,
    ;
    lemma_rounded_order(hi@.mag(), 1, hi@.mag() * above.mag(), one, 24);
}

/// The lower bound of a profile is not above its upper bound.
pub proof fn law_profile_is_a_range(
    profile: VoiceProfile,
    ordered: Seq<Binary32>,
    levels: Seq<Binary32>,
)
    requires
        is_profile_of(profile, ordered, levels),
        in_order(ordered),
        ordered.len() >= 3,
        forall|i: int|
            0 <= i < ordered.len() ==> (#[trigger] ordered[i])@ is Finite && !ordered[i]@.neg(),
    ensures
        profile.pitch_min@.le(profile.pitch_max@),
{
    let n = ordered.len() as int;
    let lo = ordered[n / 10];
    let hi = ordered[n - 1 - n / 10];
    assert(lo@ is Finite && hi@ is Finite);
    assert(n / 10 < n - 1 - n / 10);
    assert(lo.ranked(hi));
    law_profile_holds_its_pitches(profile, ordered, levels, lo@);
}

/// The meter has twenty marks, and no score fills more.
pub proof fn law_meter_has_twenty_marks(score: Float)
    ensures
        0 <= filled_marks(score) <= 20,
{
    let s = Format::Single;
    let one = s.one();
    lemma_format(s);
    lemma_pow2_pos(s.scale());
    lemma_one_is_exact(s);
    law_small_whole_is_exact(s, 20);
    lemma_exact_product(s, 20, s.scale());
    let x = clamped(score, Float::zero(), from_int(s, 1));
    if x is Finite {
        let m = x.mag();
        assert(m <= one);
        let r = rounded(m * (20 * one), one, 24);
        assert((m * (20 * one)) * 1 <= (20 * one) * one) by (nonlinear_arith)
            requires
                m <= one,
        ;
        lemma_rounded_order(m * (20 * one), one, 20 * one, 1, 24);
        lemma_div_is_ordered(r as int, (20 * one) as int, one as int);
        lemma_fundamental_div_mod_converse((20 * one) as int, one as int, 20, 0);
        if x.neg() {
            assert(m == 0);
            lemma_mul_basics((20 * one) as int);
            crate::float::ops::lemma_rounded_zero(s, true, one);
            lemma_fundamental_div_mod_converse(0, one as int, 0, 0);
        }
    }
}

} // verus!
