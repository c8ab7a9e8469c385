//! The decision, frame by frame, whether there is speech.

use crate::detector::{frames_heard, new_detector, reset_detector, score_frame, scores_given};
use crate::float::binary32::Binary32;
use crate::float::binary64::Binary64;
use crate::float::model::{from_int, product, quotient, Float, Format};
use crate::laws::labels::law_frame_is_sixteen_ms;
use crate::signal::{
    above_floor, crossing_rate, filter_after, filter_at_rest, filtered, follow, followed, is_above,
    is_voiced, loudness, remember, remembered, rms, scores_voiced, set_share, share_set, single,
    to_samples, zcr, FilterState, HighPassFilter,
};
pub use crate::signal::VAD_THRESHOLD;
use std::collections::VecDeque;
use vstd::prelude::*;

verus! {

/// Samples per frame: 16 ms at 16 kHz.
pub const FRAME_SIZE: usize = 256;

/// Samples per second.
pub const SAMPLE_RATE: u32 = 16_000;

/// 16.0: the length of a frame in milliseconds, in double precision.
pub const FRAME_MS: u64 = 0x4030_0000_0000_0000;

/// How many frames are remembered.
pub const HISTORY_FRAMES: usize = 10;

/// 0.6: the share of voiced frames from which speech begins.
pub const ONSET_RATIO: u32 = 0x3f19_999a;

/// 0.4: the share of voiced frames from which speech goes on.
pub const SUSTAIN_RATIO: u32 = 0x3ecc_cccd;

/// How long a pause may last within speech.
pub const HANGOVER_MS: u64 = 300;

/// How long speech must last to count.
pub const MIN_SEGMENT_MS: u64 = 200;

/// 3.0: how many times louder than the noise floor speech is.
pub const NOISE_FLOOR_MARGIN: u32 = 0x4040_0000;

/// 0.10: below this rate of sign changes loud sound is wind.
pub const WIND_ZCR_THRESHOLD: u32 = 0x3dcc_cccd;

/// 800.0: above this level sound with few sign changes is wind.
pub const WIND_RMS_THRESHOLD: u32 = 0x4448_0000;

/// 0.25: the largest rate of sign changes that speech has.
pub const SPEECH_ZCR_LIMIT: u32 = 0x3e80_0000;

/// How many frames in a row must be voiced.
pub const MIN_CONSECUTIVE_FRAMES: usize = 3;

/// The length of a frame in milliseconds, as it comes out of double-precision operations.
pub open spec fn frame_length() -> Float {
    let d = Format::Double;
    quotient(
        d,
        product(d, from_int(d, FRAME_SIZE as int), from_int(d, 1000)),
        from_int(d, SAMPLE_RATE as int),
    )
}

/// The length of a frame in milliseconds.
pub fn frame_ms() -> (r: Binary64)
    ensures
        r.bits == FRAME_MS,
        r@ == frame_length(),
{
    proof {
        law_frame_is_sixteen_ms();
    }
    Binary64::from_bits(FRAME_MS)
}

/// What is told of a frame.
#[derive(Clone, Copy, Debug)]
pub struct FrameResult {
    pub score: Binary32,
    pub confirmed_voiced: bool,
    pub rms: Binary32,
    pub zcr: Binary32,
}

/// What the decision rests on besides the frame and its score.
pub struct GateState {
    pub history: Seq<bool>,
    pub noise_floor: Float,
    pub noise_floor_initialized: bool,
    pub consecutive_voiced: nat,
    pub is_speech: bool,
}

/// Before the first frame.
pub open spec fn gate_at_rest() -> GateState {
    GateState {
        history: Seq::empty(),
        noise_floor: Float::zero(),
        noise_floor_initialized: false,
        consecutive_voiced: 0,
        is_speech: false,
    }
}

/// Loud sound with few sign changes.
pub open spec fn is_wind(frame: Seq<i16>) -> bool {
    crossing_rate(frame).lt(single(WIND_ZCR_THRESHOLD)) && single(WIND_RMS_THRESHOLD).lt(
        loudness(frame),
    )
}

/// Whether a frame looks like speech by itself.
pub open spec fn is_valid(frame: Seq<i16>, score: Float) -> bool {
    scores_voiced(score) && crossing_rate(frame).le(single(SPEECH_ZCR_LIMIT)) && !is_wind(frame)
}

/// The noise floor after a frame.
pub open spec fn floor_after(state: GateState, frame: Seq<i16>, score: Float) -> Float {
    followed(state.noise_floor, state.noise_floor_initialized, loudness(frame), score)
}

/// Whether the noise floor is known after a frame.
pub open spec fn floor_known_after(state: GateState, score: Float) -> bool {
    state.noise_floor_initialized || !scores_voiced(score)
}

/// Whether a frame is clearly louder than the noise floor that holds after it. Anything is while
/// the noise floor is not known.
pub open spec fn stands_out(state: GateState, frame: Seq<i16>, score: Float) -> bool {
    is_above(
        floor_after(state, frame, score),
        floor_known_after(state, score),
        loudness(frame),
        single(NOISE_FLOOR_MARGIN),
    )
}

/// The remembered frames after one more.
pub open spec fn history_after(state: GateState, frame: Seq<i16>, score: Float) -> Seq<bool> {
    remembered(state.history, is_valid(frame, score), HISTORY_FRAMES as nat)
}

/// How many frames in a row were voiced, after one more.
pub open spec fn consecutive_after(state: GateState, frame: Seq<i16>, score: Float) -> nat {
    if is_valid(frame, score) && stands_out(state, frame, score) {
        state.consecutive_voiced + 1
    } else {
        0
    }
}

/// The share of voiced frames that is needed.
pub open spec fn required_share(state: GateState) -> Float {
    if state.is_speech {
        single(SUSTAIN_RATIO)
    } else {
        single(ONSET_RATIO)
    }
}

/// Whether a frame is confirmed to be speech.
pub open spec fn confirms(state: GateState, frame: Seq<i16>, score: Float) -> bool {
    let history = history_after(state, frame, score);
    &&& history.len() == HISTORY_FRAMES
    &&& required_share(state).le(set_share(history))
    &&& consecutive_after(state, frame, score) >= MIN_CONSECUTIVE_FRAMES
    &&& stands_out(state, frame, score)
}

/// The state after a frame and its score.
pub open spec fn gate_after(state: GateState, frame: Seq<i16>, score: Float) -> GateState {
    let history = history_after(state, frame, score);
    GateState {
        history,
        noise_floor: floor_after(state, frame, score),
        noise_floor_initialized: floor_known_after(state, score),
        consecutive_voiced: consecutive_after(state, frame, score),
        is_speech: if confirms(state, frame, score) {
            true
        } else if set_share(history).lt(single(SUSTAIN_RATIO)) {
            false
        } else {
            state.is_speech
        },
    }
}

/// What decides by the scores of the frames.
pub struct VoiceGate {
    history: VecDeque<bool>,
    noise_floor: Binary32,
    noise_floor_initialized: bool,
    consecutive_voiced: usize,
    is_speech_state: bool,
}

impl View for VoiceGate {
    type V = GateState;

    closed spec fn view(&self) -> GateState {
        GateState {
            history: self.history@,
            noise_floor: self.noise_floor@,
            noise_floor_initialized: self.noise_floor_initialized,
            consecutive_voiced: self.consecutive_voiced as nat,
            is_speech: self.is_speech_state,
        }
    }
}

impl VoiceGate {
    /// A gate before the first frame.
    pub fn new() -> (r: VoiceGate)
        ensures
            r@ == gate_at_rest(),
    {
        proof {
            vstd::arithmetic::mul::lemma_mul_basics(Format::Single.one() as int);
        }
        VoiceGate {
            history: VecDeque::with_capacity(HISTORY_FRAMES),
            noise_floor: Binary32::from_u64(0),
            noise_floor_initialized: false,
            consecutive_voiced: 0,
            is_speech_state: false,
        }
    }

    /// Forgets everything but the last noise floor, which no longer counts.
    pub fn reset(&mut self)
        ensures
            final(self)@ == (GateState { noise_floor: old(self)@.noise_floor, ..gate_at_rest() }),
    {
        self.history.clear();
        self.consecutive_voiced = 0;
        self.is_speech_state = false;
        self.noise_floor_initialized = false;
    }

    /// Decides on a frame by its score.
    pub fn decide(&mut self, frame: &[i16], score: Binary32) -> (r: FrameResult)
        requires
            old(self)@.consecutive_voiced < usize::MAX,
        ensures
            final(self)@ == gate_after(old(self)@, frame@, score@),
            r.score == score,
            r.confirmed_voiced == confirms(old(self)@, frame@, score@),
            r.rms@ == loudness(frame@),
            r.zcr@ == crossing_rate(frame@),
    {
        let raw_voiced: bool = is_voiced(score);
        let zcr_val: Binary32 = zcr(frame);
        let level: Binary32 = rms(frame);
        let is_wind: bool = zcr_val.below(Binary32::from_bits(WIND_ZCR_THRESHOLD))
            && Binary32::from_bits(WIND_RMS_THRESHOLD).below(level);
        let zcr_ok: bool = zcr_val.at_most(Binary32::from_bits(SPEECH_ZCR_LIMIT));
        let valid_signal: bool = raw_voiced && zcr_ok && !is_wind;
        remember(&mut self.history, valid_signal, HISTORY_FRAMES);
        let sustain: Binary32 = Binary32::from_bits(SUSTAIN_RATIO);
        let required_ratio: Binary32 = if self.is_speech_state {
            sustain
        } else {
            Binary32::from_bits(ONSET_RATIO)
        };
        let voiced_ratio: Binary32 = share_set(&self.history);
        self.noise_floor = follow(self.noise_floor, self.noise_floor_initialized, level, score);
        if !raw_voiced {
            self.noise_floor_initialized = true;
        }
        let above_noise_floor: bool = above_floor(
            self.noise_floor,
            self.noise_floor_initialized,
            level,
            Binary32::from_bits(NOISE_FLOOR_MARGIN),
        );
        if valid_signal && above_noise_floor {
            self.consecutive_voiced = self.consecutive_voiced + 1;
        } else {
            self.consecutive_voiced = 0;
        }
        let consecutive_ok: bool = self.consecutive_voiced >= MIN_CONSECUTIVE_FRAMES;
        let confirmed_voiced: bool = self.history.len() == HISTORY_FRAMES
            && required_ratio.at_most(voiced_ratio) && consecutive_ok && above_noise_floor;
        if confirmed_voiced {
            self.is_speech_state = true;
        } else if voiced_ratio.below(sustain) {
            self.is_speech_state = false;
        }
        FrameResult { score, confirmed_voiced, rms: level, zcr: zcr_val }
    }
}

/// A filter, the detector that hears what comes out of it, and what decides by the scores.
pub struct VadEngine {
    detector: earshot::Detector,
    hpf: HighPassFilter,
    gate: VoiceGate,
}

/// Whether a score lies between zero and one.
pub open spec fn is_score(score: Float) -> bool {
    Float::zero().le(score) && score.le(from_int(Format::Single, 1))
}

impl VadEngine {
    /// The frames that the detector was given since the engine was made or last reset.
    pub closed spec fn heard(&self) -> Seq<Seq<i16>> {
        frames_heard(self.detector)
    }

    /// The scores that the detector gave since the engine was made or last reset.
    pub closed spec fn scored(&self) -> Seq<Float> {
        scores_given(self.detector)
    }

    /// The state of the filter.
    pub closed spec fn filter(&self) -> FilterState {
        self.hpf@
    }

    /// The state of what decides by the scores.
    pub closed spec fn state(&self) -> GateState {
        self.gate@
    }

    /// Before the first frame.
    pub open spec fn is_new(&self) -> bool {
        &&& self.heard() == Seq::<Seq<i16>>::empty()
        &&& self.scored() == Seq::<Float>::empty()
        &&& self.filter() == filter_at_rest()
        &&& self.state() == gate_at_rest()
    }

    /// After a new engine was given a recording, frame by frame, and nothing else: the detector
    /// heard what the filter made of each frame, and the state follows from the scores it gave.
    pub open spec fn has_processed(&self, samples: Seq<i16>) -> bool {
        let n = frame_count(samples.len());
        &&& self.heard() == offered(filter_at_rest(), samples)
        &&& self.scored().len() == n
        &&& forall|i: int| 0 <= i < n ==> is_score(#[trigger] self.scored()[i])
        &&& self.filter() == filter_after_frames(filter_at_rest(), samples, n)
        &&& self.state() == state_after(gate_at_rest(), samples, self.scored(), n)
    }

    /// What one frame does: the detector hears what the filter makes of it, the score that it gives
    /// is told, and by that score the frame is decided on.
    pub open spec fn takes_frame(self, frame: Seq<i16>, after: VadEngine, r: FrameResult) -> bool {
        &&& after.heard() == self.heard().push(filtered(self.filter(), frame))
        &&& after.scored() == self.scored().push(r.score@)
        &&& is_score(r.score@)
        &&& after.filter() == filter_after(self.filter(), frame)
        &&& after.state() == gate_after(self.state(), frame, r.score@)
        &&& r.confirmed_voiced == confirms(self.state(), frame, r.score@)
        &&& r.rms@ == loudness(frame)
        &&& r.zcr@ == crossing_rate(frame)
    }

    /// An engine before the first frame.
    pub fn new() -> (r: VadEngine)
        ensures
            r.is_new(),
    {
        VadEngine { detector: new_detector(), hpf: HighPassFilter::new(), gate: VoiceGate::new() }
    }

    /// Forgets everything but the last noise floor, which no longer counts.
    pub fn reset(&mut self)
        ensures
            final(self).heard() == Seq::<Seq<i16>>::empty(),
            final(self).scored() == Seq::<Float>::empty(),
            final(self).filter() == filter_at_rest(),
            final(self).state() == (GateState {
                noise_floor: old(self).state().noise_floor,
                ..gate_at_rest()
            }),
    {
        reset_detector(&mut self.detector);
        self.hpf.reset();
        self.gate.reset();
    }

    /// Filters a frame, has the detector score what comes out, and decides by that score.
    pub fn process_frame(&mut self, frame: &[i16]) -> (r: FrameResult)
        requires
            frame@.len() == FRAME_SIZE,
            old(self).state().consecutive_voiced < usize::MAX,
        ensures
            old(self).takes_frame(frame@, *final(self), r),
    {
        let mut hpf_buf: Vec<Binary32> = vec![Binary32::from_bits(0);FRAME_SIZE];
        self.hpf.process(frame, &mut hpf_buf);
        let filtered_i16: Vec<i16> = to_samples(&hpf_buf);
        proof {
            assert(frame@.take(FRAME_SIZE as int) =~= frame@);
            assert(filtered_i16@ =~= filtered(old(self).filter(), frame@));
        }
        let score: Binary32 = score_frame(&mut self.detector, filtered_i16.as_slice());
        self.gate.decide(frame, score)
    }
}

impl Default for VadEngine {
    fn default() -> (r: VadEngine)
        ensures
            r.is_new(),
    {
        VadEngine::new()
    }
}

/// How many frames samples fill; the last one may be short.
pub open spec fn frame_count(samples: nat) -> nat {
    (samples + FRAME_SIZE - 1) as nat / FRAME_SIZE as nat
}

/// A frame of a recording; what the recording lacks of the last one is silence.
pub open spec fn frame_at(samples: Seq<i16>, frame: int) -> Seq<i16> {
    Seq::new(
        FRAME_SIZE as nat,
        |j: int|
            if frame * FRAME_SIZE + j < samples.len() {
                samples[frame * FRAME_SIZE + j]
            } else {
                0
            },
    )
}

/// The state after the first `n` frames of a recording, which were scored so.
pub open spec fn state_after(
    state: GateState,
    samples: Seq<i16>,
    scores: Seq<Float>,
    n: nat,
) -> GateState
    decreases n,
{
    if n == 0 {
        state
    } else {
        gate_after(
            state_after(state, samples, scores, (n - 1) as nat),
            frame_at(samples, n - 1),
            scores[n - 1],
        )
    }
}

/// What is decided on each frame of a recording, whose frames were scored so.
pub open spec fn decisions(state: GateState, samples: Seq<i16>, scores: Seq<Float>) -> Seq<bool> {
    Seq::new(
        frame_count(samples.len()),
        |i: int|
            confirms(
                state_after(state, samples, scores, i as nat),
                frame_at(samples, i),
                scores[i],
            ),
    )
}

/// The filter after the first `n` frames of a recording.
pub open spec fn filter_after_frames(
    state: FilterState,
    samples: Seq<i16>,
    n: nat,
) -> FilterState
    decreases n,
{
    if n == 0 {
        state
    } else {
        filter_after(
            filter_after_frames(state, samples, (n - 1) as nat),
            frame_at(samples, n - 1),
        )
    }
}

/// What the detector gets to hear of each frame of a recording.
pub open spec fn offered(state: FilterState, samples: Seq<i16>) -> Seq<Seq<i16>> {
    Seq::new(
        frame_count(samples.len()),
        |i: int| filtered(filter_after_frames(state, samples, i as nat), frame_at(samples, i)),
    )
}

/// A frame of a recording.
fn frame_of(samples: &[i16], frame: usize) -> (r: Vec<i16>)
    requires
        frame < frame_count(samples@.len()),
    ensures
        r@ == frame_at(samples@, frame as int),
{
    assert(samples@.len() == samples.len());
    let start: usize = frame * FRAME_SIZE;
    let mut r: Vec<i16> = Vec::new();
    while r.len() < FRAME_SIZE
        invariant
            r@.len() <= FRAME_SIZE,
            start == frame * FRAME_SIZE,
            start < samples@.len(),
            forall|j: int| 0 <= j < r@.len() ==> #[trigger] r@[j] == frame_at(samples@, frame as int)[j],
        decreases FRAME_SIZE - r@.len(),
    {
        let j: usize = r.len();
        if j < samples.len() - start {
            r.push(samples[start + j]);
        } else {
            r.push(0);
        }
    }
    assert(r@ =~= frame_at(samples@, frame as int));
    r
}

/// How many frames samples fill.
fn count_frames(samples: usize) -> (r: usize)
    ensures
        r == frame_count(samples as nat),
        r <= samples,
{
    if samples % FRAME_SIZE == 0 {
        samples / FRAME_SIZE
    } else {
        samples / FRAME_SIZE + 1
    }
}

impl VadEngine {
    /// Processes a recording frame by frame; tells for each frame whether it is speech.
    pub fn process_samples(&mut self, samples: &[i16]) -> (r: Vec<bool>)
        requires
            old(self).state().consecutive_voiced + frame_count(samples@.len()) <= usize::MAX,
        ensures
            final(self).heard() == old(self).heard() + offered(old(self).filter(), samples@),
            final(self).filter() == filter_after_frames(
                old(self).filter(),
                samples@,
                frame_count(samples@.len()),
            ),
            ({
                let before = old(self).scored();
                let scores = final(self).scored().skip(before.len() as int);
                &&& final(self).scored() == before + scores
                &&& scores.len() == frame_count(samples@.len())
                &&& forall|i: int| 0 <= i < scores.len() ==> is_score(#[trigger] scores[i])
                &&& r@ == decisions(old(self).state(), samples@, scores)
                &&& final(self).state() == state_after(
                    old(self).state(),
                    samples@,
                    scores,
                    scores.len(),
                )
            }),
    {
        let count: usize = count_frames(samples.len());
        let mut r: Vec<bool> = Vec::new();
        let mut i: usize = 0;
        let ghost mut scores: Seq<Float> = Seq::empty();
        let ghost start = self.state();
        let ghost filter = self.filter();
        let ghost heard = self.heard();
        let ghost told = self.scored();
        proof {
            assert(told + scores =~= told);
            assert(heard + offered(filter, samples@).take(0) =~= heard);
        }
        while i < count
            invariant
                i <= count,
                count == frame_count(samples@.len()),
                r@.len() == i,
                scores.len() == i,
                start.consecutive_voiced + count <= usize::MAX,
                self.state().consecutive_voiced <= start.consecutive_voiced + i,
                forall|j: int| 0 <= j < i ==> is_score(#[trigger] scores[j]),
                self.state() == state_after(start, samples@, scores, i as nat),
                self.filter() == filter_after_frames(filter, samples@, i as nat),
                self.heard() == heard + offered(filter, samples@).take(i as int),
                self.scored() == told + scores,
                forall|j: int|
                    0 <= j < i ==> #[trigger] r@[j] == confirms(
                        state_after(start, samples@, scores, j as nat),
                        frame_at(samples@, j),
                        scores[j],
                    ),
            decreases count - i,
        {
            let frame: Vec<i16> = frame_of(samples, i);
            let ghost before = scores;
            let result: FrameResult = self.process_frame(frame.as_slice());
            r.push(result.confirmed_voiced);
            proof {
                scores = before.push(result.score@);
                assert((told + before).push(result.score@) =~= told + scores);
                assert forall|j: nat| j <= i implies state_after(start, samples@, scores, j)
                    == #[trigger] state_after(start, samples@, before, j) by {
                    lemma_earlier_scores(start, samples@, before, scores, j);
                }
                let all = offered(filter, samples@);
                assert(heard + all.take(i + 1) =~= (heard + all.take(i as int)).push(all[i as int]));
            }
            i = i + 1;
        }
        proof {
            let all = offered(filter, samples@);
            assert(all.take(i as int) =~= all);
            assert(self.scored().skip(told.len() as int) =~= scores);
            assert(r@ =~= decisions(start, samples@, scores));
        }
        r
    }
}

/// The state after some frames does not depend on later scores.
pub proof fn lemma_earlier_scores(
    state: GateState,
    samples: Seq<i16>,
    a: Seq<Float>,
    b: Seq<Float>,
    n: nat,
)
    requires
        n <= a.len(),
        n <= b.len(),
        forall|i: int| 0 <= i < n ==> a[i] == b[i],
    ensures
        state_after(state, samples, a, n) == state_after(state, samples, b, n),
    decreases n,
{
    if n > 0 {
        lemma_earlier_scores(state, samples, a, b, (n - 1) as nat);
    }
}

/// Processes a whole recording with a new engine. Tells for each frame whether it is speech; the
/// last frame is filled up with silence. The decisions are those that follow from the scores that
/// the detector of that engine gave.
pub fn process_offline(samples: &[i16]) -> (r: Vec<bool>)
    ensures
        r@.len() == frame_count(samples@.len()),
        exists|engine: VadEngine|
            {
                &&& #[trigger] engine.has_processed(samples@)
                &&& r@ == decisions(gate_at_rest(), samples@, engine.scored())
            },
{
    assert(samples@.len() == samples.len());
    let mut engine: VadEngine = VadEngine::new();
    let r: Vec<bool> = engine.process_samples(samples);
    proof {
        let all = offered(filter_at_rest(), samples@);
        assert(Seq::<Seq<i16>>::empty() + all =~= all);
        assert(engine.scored().skip(0) =~= engine.scored());
        assert(engine.has_processed(samples@));
    }
    r
}

/// Decides on every frame of a recording by scores that are given.
pub fn process_scored(samples: &[i16], scores: &[Binary32]) -> (r: Vec<bool>)
    requires
        scores@.len() == frame_count(samples@.len()),
    ensures
        r@ == decisions(gate_at_rest(), samples@, scores@.map_values(|s: Binary32| s@)),
{
    let mut gate: VoiceGate = VoiceGate::new();
    let mut r: Vec<bool> = Vec::new();
    let mut i: usize = 0;
    let ghost told = scores@.map_values(|s: Binary32| s@);
    while i < scores.len()
        invariant
            i <= scores@.len(),
            scores@.len() == frame_count(samples@.len()),
            told == scores@.map_values(|s: Binary32| s@),
            r@.len() == i,
            gate@.consecutive_voiced <= i,
            gate@ == state_after(gate_at_rest(), samples@, told, i as nat),
            forall|j: int|
                0 <= j < i ==> #[trigger] r@[j] == confirms(
                    state_after(gate_at_rest(), samples@, told, j as nat),
                    frame_at(samples@, j),
                    told[j],
                ),
        decreases scores@.len() - i,
    {
        let frame: Vec<i16> = frame_of(samples, i);
        let result: FrameResult = gate.decide(frame.as_slice(), scores[i]);
        r.push(result.confirmed_voiced);
        i = i + 1;
    }
    assert(r@ =~= decisions(gate_at_rest(), samples@, told));
    r
}

} // verus!
