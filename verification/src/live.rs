//! Listening to a microphone: calibration to a voice, and the utterances that follow.

use crate::detector::{frames_heard, new_detector, reset_detector, score_frame, scores_given};
use crate::engine::{is_score, FRAME_SIZE, SAMPLE_RATE};
use crate::float::binary32::{clamped, Binary32};
use crate::float::model::{from_int, mean, product, total, truncated, Float, Format};
use crate::pitch::{estimate_pitch, median, middle, suggested_pitch};
use crate::signal::{
    above_floor, follow, followed, is_above, is_voiced, loudness, remember, remembered, rms,
    scores_voiced, set_share, share_set, single,
};
use crate::sorting::{all_ranked, lemma_same_things, sortable, sorted, sorting, Ranked};
use std::collections::VecDeque;
use vstd::prelude::*;

verus! {

/// How many frames are remembered.
pub const HISTORY_FRAMES: usize = 6;

/// 0.65: the share of voiced frames that confirms a voice.
pub const ONSET_RATIO: u32 = 0x3f26_6666;

/// After so much silence an utterance is over, in milliseconds.
pub const HANGOVER_MS: u64 = 400;

/// An utterance that is shorter than this is dropped, in milliseconds.
pub const MIN_SEGMENT_MS: u64 = 200;

/// 1.3: how many times louder than the noise floor a voice is.
pub const NOISE_FLOOR_MARGIN: u32 = 0x3fa6_6666;

/// How many samples the pitch is estimated from.
pub const PITCH_WINDOW_LEN: usize = 1024;

/// How long the calibration takes, in milliseconds.
pub const CALIBRATION_MS: u64 = 3000;

/// 0.85: the lowest pitch of a profile, as a share of the lowest that was heard.
pub const PITCH_SLACK_BELOW: u32 = 0x3f59_999a;

/// 1.15: the highest pitch of a profile, as a share of the highest that was heard.
pub const PITCH_SLACK_ABOVE: u32 = 0x3f93_3333;

/// 0.2: the least loudness of a voice, as a share of that of its profile.
pub const LEVEL_SHARE: u32 = 0x3e4c_cccd;

/// Nanoseconds in a millisecond.
pub const NANOS_PER_MS: u64 = 1_000_000;

/// Whether an input can be taken as it is: mono, 16-bit integers, and 16 kHz among its rates.
pub fn accepts_input(channels: u16, is_i16: bool, min_rate: u32, max_rate: u32) -> (r: bool)
    ensures
        r == (channels == 1 && is_i16 && min_rate <= SAMPLE_RATE <= max_rate),
        r <==> channels == 1 && is_i16 && min_rate <= 16_000 && max_rate >= 16_000,
{
    channels == 1 && is_i16 && min_rate <= SAMPLE_RATE && max_rate >= SAMPLE_RATE
}

/// Takes a frame off the front of the samples that have come in, if there are enough.
pub fn take_frame(buffer: &mut Vec<i16>) -> (r: Option<Vec<i16>>)
    ensures
        old(buffer)@.len() < FRAME_SIZE ==> r is None && final(buffer)@ == old(buffer)@,
        old(buffer)@.len() >= FRAME_SIZE ==> {
            &&& r matches Some(frame) && frame@ == old(buffer)@.take(FRAME_SIZE as int)
            &&& final(buffer)@ == old(buffer)@.skip(FRAME_SIZE as int)
        },
        r is Some <==> old(buffer)@.len() >= 256,
        r matches Some(frame) ==> frame@.len() == 256 && frame@ + final(buffer)@ == old(buffer)@,
{
    if buffer.len() < FRAME_SIZE {
        return None;
    }
    let mut rest: Vec<i16> = buffer.split_off(FRAME_SIZE);
    std::mem::swap(buffer, &mut rest);
    proof {
        assert(rest@ =~= old(buffer)@.take(FRAME_SIZE as int));
        assert(buffer@ =~= old(buffer)@.skip(FRAME_SIZE as int));
        assert(rest@ + buffer@ =~= old(buffer)@);
    }
    Some(rest)
}

/// What is told of a frame.
#[derive(Clone, Copy, Debug)]
pub struct LiveFrame {
    pub score: Binary32,
    pub confirmed_voiced: bool,
    pub pitch: Option<Binary32>,
    pub rms: Binary32,
}

impl LiveFrame {
    /// A pitch, where there is one, is a number.
    pub open spec fn wf(self) -> bool {
        self.pitch matches Some(p) ==> p.has_rank()
    }
}

/// What the decision on a frame rests on besides the frame and its score.
pub struct LiveState {
    pub history: Seq<bool>,
    pub window: Seq<i16>,
    pub noise_floor: Float,
    pub noise_floor_initialized: bool,
}

/// Before the first frame.
pub open spec fn live_at_rest() -> LiveState {
    LiveState {
        history: Seq::empty(),
        window: Seq::empty(),
        noise_floor: Float::zero(),
        noise_floor_initialized: false,
    }
}

/// The last samples, at most as many as the pitch is estimated from.
pub open spec fn window_after(window: Seq<i16>, frame: Seq<i16>) -> Seq<i16> {
    let all = window + frame;
    if all.len() > PITCH_WINDOW_LEN {
        all.skip(all.len() - PITCH_WINDOW_LEN)
    } else {
        all
    }
}

/// The state after a frame and its score.
pub open spec fn live_after(state: LiveState, frame: Seq<i16>, score: Float) -> LiveState {
    LiveState {
        history: remembered(state.history, scores_voiced(score), HISTORY_FRAMES as nat),
        window: window_after(state.window, frame),
        noise_floor: followed(
            state.noise_floor,
            state.noise_floor_initialized,
            loudness(frame),
            score,
        ),
        noise_floor_initialized: state.noise_floor_initialized || !scores_voiced(score),
    }
}

/// Whether a frame, after which the state is this, is confirmed to be a voice.
pub open spec fn live_confirms(after: LiveState, frame: Seq<i16>) -> bool {
    &&& after.history.len() == HISTORY_FRAMES
    &&& single(ONSET_RATIO).le(set_share(after.history))
    &&& is_above(
        after.noise_floor,
        after.noise_floor_initialized,
        loudness(frame),
        single(NOISE_FLOOR_MARGIN),
    )
}

/// The pitch at a frame, after which the state is this: that of a full window.
pub open spec fn live_pitch(after: LiveState) -> Option<Float> {
    if after.window.len() >= PITCH_WINDOW_LEN {
        suggested_pitch(after.window, SAMPLE_RATE)
    } else {
        None
    }
}

/// What decides by the scores of the frames, and estimates the pitch.
pub struct LiveGate {
    history: VecDeque<bool>,
    pitch_window: Vec<i16>,
    noise_floor: Binary32,
    noise_floor_initialized: bool,
}

impl View for LiveGate {
    type V = LiveState;

    closed spec fn view(&self) -> LiveState {
        LiveState {
            history: self.history@,
            window: self.pitch_window@,
            noise_floor: self.noise_floor@,
            noise_floor_initialized: self.noise_floor_initialized,
        }
    }
}

impl LiveGate {
    /// A gate before the first frame.
    pub fn new() -> (r: LiveGate)
        ensures
            r@ == live_at_rest(),
    {
        proof {
            vstd::arithmetic::mul::lemma_mul_basics(Format::Single.one() as int);
        }
        LiveGate {
            history: VecDeque::with_capacity(HISTORY_FRAMES),
            pitch_window: Vec::with_capacity(PITCH_WINDOW_LEN),
            noise_floor: Binary32::from_u64(0),
            noise_floor_initialized: false,
        }
    }

    /// Forgets which frames were voiced, and nothing else.
    pub fn reset(&mut self)
        ensures
            final(self)@ == (LiveState { history: Seq::empty(), ..old(self)@ }),
    {
        self.history.clear();
    }

    /// Decides on a frame by its score.
    pub fn decide(&mut self, frame: &[i16], score: Binary32) -> (r: LiveFrame)
        ensures
            final(self)@ == live_after(old(self)@, frame@, score@),
            r.wf(),
            r.score == score,
            r.confirmed_voiced == live_confirms(final(self)@, frame@),
            r.pitch is Some <==> live_pitch(final(self)@) is Some,
            r.pitch matches Some(p) ==> Some(p@) == live_pitch(final(self)@),
            r.rms@ == loudness(frame@),
    {
        let raw_voiced: bool = is_voiced(score);
        remember(&mut self.history, raw_voiced, HISTORY_FRAMES);
        let voiced_ratio: Binary32 = share_set(&self.history);
        self.pitch_window.extend_from_slice(frame);
        if self.pitch_window.len() > PITCH_WINDOW_LEN {
            let excess: usize = self.pitch_window.len() - PITCH_WINDOW_LEN;
            self.pitch_window = self.pitch_window.split_off(excess);
        }
        assert(self.pitch_window@ =~= window_after(old(self)@.window, frame@));
        let pitch: Option<Binary32> = if self.pitch_window.len() >= PITCH_WINDOW_LEN {
            estimate_pitch(self.pitch_window.as_slice(), SAMPLE_RATE)
        } else {
            None
        };
        let level: Binary32 = rms(frame);
        self.noise_floor = follow(self.noise_floor, self.noise_floor_initialized, level, score);
        if !raw_voiced {
            self.noise_floor_initialized = true;
        }
        let above_noise_floor: bool = above_floor(
            self.noise_floor,
            self.noise_floor_initialized,
            level,
            Binary32::from_bits(NOISE_FLOOR_MARGIN),
        );
        let confirmed_voiced: bool = self.history.len() == HISTORY_FRAMES && Binary32::from_bits(
            ONSET_RATIO,
        ).at_most(voiced_ratio) && above_noise_floor;
        LiveFrame { score, confirmed_voiced, pitch, rms: level }
    }
}

/// The detector, and what decides by its scores.
pub struct LiveEngine {
    detector: earshot::Detector,
    gate: LiveGate,
}

impl LiveEngine {
    /// The frames that the detector was given since the engine was made or last reset.
    pub closed spec fn heard(&self) -> Seq<Seq<i16>> {
        frames_heard(self.detector)
    }

    /// The scores that the detector gave since the engine was made or last reset.
    pub closed spec fn scored(&self) -> Seq<Float> {
        scores_given(self.detector)
    }

    /// The state of what decides by the scores.
    pub closed spec fn state(&self) -> LiveState {
        self.gate@
    }

    /// An engine before the first frame.
    pub fn new() -> (r: LiveEngine)
        ensures
            r.heard() == Seq::<Seq<i16>>::empty(),
            r.scored() == Seq::<Float>::empty(),
            r.state() == live_at_rest(),
    {
        LiveEngine { detector: new_detector(), gate: LiveGate::new() }
    }

    /// Resets the detector and forgets which frames were voiced.
    pub fn reset(&mut self)
        ensures
            final(self).heard() == Seq::<Seq<i16>>::empty(),
            final(self).scored() == Seq::<Float>::empty(),
            final(self).state() == (LiveState { history: Seq::empty(), ..old(self).state() }),
    {
        reset_detector(&mut self.detector);
        self.gate.reset();
    }

    /// Has the detector score a frame, and decides by that score.
    pub fn process_frame(&mut self, frame: &[i16]) -> (r: LiveFrame)
        requires
            frame@.len() == FRAME_SIZE,
        ensures
            final(self).heard() == old(self).heard().push(frame@),
            final(self).scored() == old(self).scored().push(r.score@),
            is_score(r.score@),
            final(self).state() == live_after(old(self).state(), frame@, r.score@),
            r.wf(),
            r.confirmed_voiced == live_confirms(final(self).state(), frame@),
            r.pitch is Some <==> live_pitch(final(self).state()) is Some,
            r.pitch matches Some(p) ==> Some(p@) == live_pitch(final(self).state()),
            r.rms@ == loudness(frame@),
    {
        let score: Binary32 = score_frame(&mut self.detector, frame);
        self.gate.decide(frame, score)
    }
}

/// The pitch and the loudness of the voice that was heard during calibration.
#[derive(Clone, Copy, Debug)]
pub struct VoiceProfile {
    pub pitch_min: Binary32,
    pub pitch_max: Binary32,
    pub rms_avg: Binary32,
}

/// The numbers that are meant.
pub open spec fn values(v: Seq<Binary32>) -> Seq<Float> {
    v.map_values(|x: Binary32| x@)
}

/// The mean of levels; zero of none.
pub open spec fn mean_level(levels: Seq<Binary32>) -> Float {
    if levels.len() == 0 {
        Float::zero()
    } else {
        mean(Format::Single, values(levels))
    }
}

/// The mean of levels; zero of none.
pub fn average(levels: &Vec<Binary32>) -> (r: Binary32)
    ensures
        r@ == mean_level(levels@),
{
    let mut acc: Binary32 = Binary32::from_u64(0);
    let mut i: usize = 0;
    proof {
        vstd::arithmetic::mul::lemma_mul_basics(Format::Single.one() as int);
        assert(values(levels@).take(0) =~= Seq::<Float>::empty());
    }
    if levels.len() == 0 {
        return acc;
    }
    while i < levels.len()
        invariant
            i <= levels@.len(),
            acc@ == total(Format::Single, values(levels@).take(i as int)),
        decreases levels@.len() - i,
    {
        proof {
            let all = values(levels@);
            assert(all.take(i + 1).drop_last() =~= all.take(i as int));
        }
        acc = acc.plus(levels[i]);
        i = i + 1;
    }
    assert(values(levels@).take(i as int) =~= values(levels@));
    acc.over(Binary32::from_u64(levels.len() as u64))
}

/// Whether a profile is the one that pitches, in order, and levels come to: a tenth of the pitches
/// is left out at either end.
pub open spec fn is_profile_of(
    profile: VoiceProfile,
    ordered: Seq<Binary32>,
    levels: Seq<Binary32>,
) -> bool {
    let n = ordered.len() as int;
    &&& profile.pitch_min@ == product(
        Format::Single,
        ordered[n / 10]@,
        single(PITCH_SLACK_BELOW),
    )
    &&& profile.pitch_max@ == product(
        Format::Single,
        ordered[n - 1 - n / 10]@,
        single(PITCH_SLACK_ABOVE),
    )
    &&& profile.rms_avg@ == mean_level(levels)
}

/// The profile of a voice from what was heard during calibration; `None` where fewer than three
/// pitches were.
pub fn voice_profile(pitches: &Vec<Binary32>, levels: &Vec<Binary32>) -> (r: Option<VoiceProfile>)
    requires
        pitches@.len() >= 3 ==> all_ranked(pitches@),
    ensures
        r is Some <==> pitches@.len() >= 3,
        r matches Some(profile) ==> is_profile_of(profile, sorting(pitches@), levels@),
{
    if pitches.len() < 3 {
        return None;
    }
    let ordered: Vec<Binary32> = sorted(pitches);
    proof {
        lemma_same_things(ordered@, pitches@);
    }
    let lo: usize = ordered.len() / 10;
    let hi: usize = ordered.len() - 1 - ordered.len() / 10;
    Some(
        VoiceProfile {
            pitch_min: ordered[lo].times(Binary32::from_bits(PITCH_SLACK_BELOW)),
            pitch_max: ordered[hi].times(Binary32::from_bits(PITCH_SLACK_ABOVE)),
            rms_avg: average(levels),
        },
    )
}

/// What is heard during calibration.
#[derive(Debug)]
pub struct Calibration {
    pub pitches: Vec<Binary32>,
    pub levels: Vec<Binary32>,
}

impl Calibration {
    /// Every pitch is a number.
    pub open spec fn wf(&self) -> bool {
        all_ranked(self.pitches@)
    }

    /// Nothing heard yet.
    pub fn new() -> (r: Calibration)
        ensures
            r.wf(),
            r.pitches@.len() == 0,
            r.levels@.len() == 0,
    {
        Calibration { pitches: Vec::new(), levels: Vec::new() }
    }

    /// Keeps what is told of a frame, if it is a voice.
    pub fn observe(&mut self, frame: &LiveFrame)
        ensures
            old(self).wf() && frame.wf() ==> final(self).wf(),
            final(self).levels@ == (if frame.confirmed_voiced {
                old(self).levels@.push(frame.rms)
            } else {
                old(self).levels@
            }),
            final(self).pitches@ == (match frame.pitch {
                Some(p) if frame.confirmed_voiced => old(self).pitches@.push(p),
                _ => old(self).pitches@,
            }),
    {
        if frame.confirmed_voiced {
            self.levels.push(frame.rms);
            if let Some(p) = frame.pitch {
                self.pitches.push(p);
            }
        }
    }

    /// The profile of the voice that was heard.
    pub fn profile(&self) -> (r: Option<VoiceProfile>)
        requires
            self.pitches@.len() >= 3 ==> self.wf(),
        ensures
            r is Some <==> self.pitches@.len() >= 3,
            r matches Some(profile) ==> is_profile_of(
                profile,
                sorting(self.pitches@),
                self.levels@,
            ),
    {
        voice_profile(&self.pitches, &self.levels)
    }
}

/// An utterance that is not over yet, or one that is. Times are in nanoseconds.
#[derive(Debug)]
pub struct Utterance {
    pub start: u64,
    pub last_voiced: u64,
    pub peak_score: Binary32,
    pub pitches: Vec<Binary32>,
    pub levels: Vec<Binary32>,
}

/// An utterance as it is modelled.
pub struct Spoken {
    pub start: u64,
    pub last_voiced: u64,
    pub peak_score: Binary32,
    pub pitches: Seq<Binary32>,
    pub levels: Seq<Binary32>,
}

impl View for Utterance {
    type V = Spoken;

    open spec fn view(&self) -> Spoken {
        Spoken {
            start: self.start,
            last_voiced: self.last_voiced,
            peak_score: self.peak_score,
            pitches: self.pitches@,
            levels: self.levels@,
        }
    }
}

/// The pitch of a frame, if there is one, after others.
pub open spec fn with_pitch(pitches: Seq<Binary32>, pitch: Option<Binary32>) -> Seq<Binary32> {
    match pitch {
        Some(p) => pitches.push(p),
        None => pitches,
    }
}

/// An utterance that begins with a frame.
pub open spec fn begun(now: u64, frame: LiveFrame) -> Spoken {
    Spoken {
        start: now,
        last_voiced: now,
        peak_score: frame.score,
        pitches: with_pitch(Seq::empty(), frame.pitch),
        levels: seq![frame.rms],
    }
}

/// An utterance after one more frame.
pub open spec fn continued(spoken: Spoken, now: u64, frame: LiveFrame) -> Spoken {
    if !frame.confirmed_voiced {
        spoken
    } else {
        Spoken {
            start: spoken.start,
            last_voiced: now,
            peak_score: if spoken.peak_score@.lt(frame.score@) {
                frame.score
            } else {
                spoken.peak_score
            },
            pitches: with_pitch(spoken.pitches, frame.pitch),
            levels: spoken.levels.push(frame.rms),
        }
    }
}

/// How long it is from one time to another; nothing if the other is not later.
pub open spec fn elapsed(from: u64, to: u64) -> nat {
    if to >= from {
        (to - from) as nat
    } else {
        0
    }
}

/// Whether an utterance is over: no voice for longer than the hangover.
pub open spec fn is_over(spoken: Spoken, now: u64) -> bool {
    elapsed(spoken.last_voiced, now) > HANGOVER_MS * NANOS_PER_MS
}

/// Whether an utterance has lasted long enough to count, from where it starts to where a voice was
/// last heard. What is shorter is a click.
pub open spec fn counts(spoken: Spoken) -> bool {
    elapsed(spoken.start, spoken.last_voiced) >= MIN_SEGMENT_MS * NANOS_PER_MS
}

/// The utterance in progress after a frame.
pub open spec fn progress_after(open: Option<Spoken>, now: u64, frame: LiveFrame) -> Option<
    Spoken,
> {
    match open {
        None => if frame.confirmed_voiced {
            Some(begun(now, frame))
        } else {
            None
        },
        Some(spoken) => {
            let next = continued(spoken, now, frame);
            if is_over(next, now) {
                None
            } else {
                Some(next)
            }
        },
    }
}

/// The utterance that is finished by a frame, if one is and it counts.
pub open spec fn finished_by(open: Option<Spoken>, now: u64, frame: LiveFrame) -> Option<Spoken> {
    match open {
        None => None,
        Some(spoken) => {
            let next = continued(spoken, now, frame);
            if is_over(next, now) && counts(next) {
                Some(next)
            } else {
                None
            }
        },
    }
}

/// Splits what is heard into utterances.
pub struct Segmenter {
    open: Option<Utterance>,
}

/// The model of an utterance that there may be.
pub open spec fn spoken(u: Option<Utterance>) -> Option<Spoken> {
    match u {
        Some(u) => Some(u@),
        None => None,
    }
}

impl Segmenter {
    /// The utterance in progress.
    pub closed spec fn progress(&self) -> Option<Spoken> {
        spoken(self.open)
    }

    /// Every pitch is a number.
    pub open spec fn wf(&self) -> bool {
        self.progress() matches Some(s) ==> all_ranked(s.pitches)
    }

    /// In silence.
    pub fn new() -> (r: Segmenter)
        ensures
            r.wf(),
            r.progress() is None,
    {
        Segmenter { open: None }
    }

    /// Whether an utterance is in progress.
    pub fn is_speaking(&self) -> (r: bool)
        ensures
            r == self.progress() is Some,
    {
        self.open.is_some()
    }

    /// Takes what is told of a frame at a time. Gives an utterance back when it is over, unless it
    /// was too short.
    pub fn observe(&mut self, now: u64, frame: &LiveFrame) -> (r: Option<Utterance>)
        ensures
            old(self).wf() && frame.wf() ==> final(self).wf(),
            final(self).progress() == progress_after(old(self).progress(), now, *frame),
            spoken(r) == finished_by(old(self).progress(), now, *frame),
            old(self).wf() && frame.wf() ==> (r matches Some(u) ==> all_ranked(u.pitches@)),
    {
        let mut taken: Option<Utterance> = None;
        std::mem::swap(&mut self.open, &mut taken);
        match taken {
            None => {
                if frame.confirmed_voiced {
                    let mut pitches: Vec<Binary32> = Vec::new();
                    if let Some(p) = frame.pitch {
                        pitches.push(p);
                    }
                    let mut levels: Vec<Binary32> = Vec::new();
                    levels.push(frame.rms);
                    assert(levels@ =~= seq![frame.rms]);
                    self.open = Some(
                        Utterance {
                            start: now,
                            last_voiced: now,
                            peak_score: frame.score,
                            pitches,
                            levels,
                        },
                    );
                }
                None
            },
            Some(mut utterance) => {
                if frame.confirmed_voiced {
                    utterance.last_voiced = now;
                    if let Some(p) = frame.pitch {
                        utterance.pitches.push(p);
                    }
                    utterance.levels.push(frame.rms);
                    if utterance.peak_score.below(frame.score) {
                        utterance.peak_score = frame.score;
                    }
                }
                if now.saturating_sub(utterance.last_voiced) > HANGOVER_MS * NANOS_PER_MS {
                    if utterance.last_voiced.saturating_sub(utterance.start) >= MIN_SEGMENT_MS
                        * NANOS_PER_MS {
                        Some(utterance)
                    } else {
                        None
                    }
                } else {
                    self.open = Some(utterance);
                    None
                }
            },
        }
    }
}

/// How an utterance compares with the profile of a voice.
#[derive(Clone, Copy, PartialEq, Eq, Structural, Debug)]
pub enum Verdict {
    /// Pitch and loudness fit.
    Alike,
    /// Pitch or loudness does not fit.
    Different,
    /// There is a profile, but no pitch was heard.
    PitchUnknown,
    /// There is no profile.
    NoProfile,
}

/// What is told of an utterance besides its length.
#[derive(Clone, Copy, Debug)]
pub struct SegmentReport {
    pub peak_score: Binary32,
    pub pitch: Option<Binary32>,
    pub verdict: Verdict,
}

/// Whether a pitch and a level fit a profile.
pub open spec fn fits(profile: VoiceProfile, pitch: Float, level: Float) -> bool {
    &&& profile.pitch_min@.le(pitch)
    &&& pitch.le(profile.pitch_max@)
    &&& profile.rms_avg@.le(Float::zero()) || product(
        Format::Single,
        profile.rms_avg@,
        single(LEVEL_SHARE),
    ).le(level)
}

/// How a pitch, if there is one, and a level compare with a profile, if there is one.
pub open spec fn verdict_on(
    profile: Option<VoiceProfile>,
    pitch: Option<Binary32>,
    level: Float,
) -> Verdict {
    match (profile, pitch) {
        (Some(profile), Some(p)) => if fits(profile, p@, level) {
            Verdict::Alike
        } else {
            Verdict::Different
        },
        (Some(_), None) => Verdict::PitchUnknown,
        (None, _) => Verdict::NoProfile,
    }
}

/// Judges an utterance as a whole: by the median of its pitches and the mean of its levels.
pub fn report_segment(
    peak_score: Binary32,
    pitches: &Vec<Binary32>,
    levels: &Vec<Binary32>,
    profile: &Option<VoiceProfile>,
) -> (r: SegmentReport)
    requires
        sortable(pitches@),
    ensures
        r.peak_score == peak_score,
        r.pitch == middle(pitches@),
        r.verdict == verdict_on(*profile, r.pitch, mean_level(levels@)),
{
    let pitch: Option<Binary32> = median(pitches);
    let level: Binary32 = average(levels);
    let verdict: Verdict = match (profile, pitch) {
        (Some(p), Some(f)) => {
            let pitch_ok: bool = p.pitch_min.at_most(f) && f.at_most(p.pitch_max);
            let zero: Binary32 = Binary32::from_u64(0);
            proof {
                vstd::arithmetic::mul::lemma_mul_basics(Format::Single.one() as int);
            }
            let level_ok: bool = p.rms_avg.at_most(zero) || p.rms_avg.times(
                Binary32::from_bits(LEVEL_SHARE),
            ).at_most(level);
            if pitch_ok && level_ok {
                Verdict::Alike
            } else {
                Verdict::Different
            }
        },
        (Some(_), None) => Verdict::PitchUnknown,
        (None, _) => Verdict::NoProfile,
    };
    SegmentReport { peak_score, pitch, verdict }
}

/// How many marks the meter has.
pub const METER_MARKS: usize = 20;

/// How long the meter stays as it is, in milliseconds.
pub const METER_INTERVAL_MS: u64 = 80;

/// Whether it is time to show the meter again.
pub fn meter_is_due(last_shown: u64, now: u64) -> (r: bool)
    ensures
        r == (elapsed(last_shown, now) >= METER_INTERVAL_MS * NANOS_PER_MS),
        r <==> now >= last_shown + 80_000_000,
{
    now.saturating_sub(last_shown) >= METER_INTERVAL_MS * NANOS_PER_MS
}

/// How many of the marks of the meter a score fills.
pub open spec fn filled_marks(score: Float) -> int {
    let s = Format::Single;
    truncated(
        s,
        product(s, clamped(score, Float::zero(), from_int(s, 1)), from_int(s, METER_MARKS as int)),
        0,
        usize::MAX as int,
    )
}

/// How many of the marks of the meter a score fills.
pub fn meter_marks(score: Binary32) -> (r: usize)
    ensures
        r == filled_marks(score@),
        r <= METER_MARKS,
{
    let zero: Binary32 = Binary32::from_u64(0);
    proof {
        vstd::arithmetic::mul::lemma_mul_basics(Format::Single.one() as int);
        crate::laws::live::law_meter_has_twenty_marks(score@);
    }
    score.clamped(zero, Binary32::from_u64(1)).times(Binary32::from_u64(20)).to_usize()
}

} // verus!
