//! How well the detected speech agrees with an annotation.

use crate::float::binary32::Binary32;
use crate::float::binary64::Binary64;
use crate::float::laws::{
    law_conversion_keeps_order, law_difference_sign, law_product_keeps_order, lemma_u64_is_finite,
};
use crate::float::model::{
    difference, from_int, greater, lesser, mean, product, quotient, rounded_away, sum, total, Float,
    Format,
};
use crate::sorting::{all_ranked, in_order, lemma_same_things, sorted, Ranked};
use vstd::prelude::*;

verus! {

/// One half, in double precision.
pub const HALF_BITS: u64 = 0x3fe0_0000_0000_0000;

/// A stretch of speech that an annotation names.
#[derive(Clone, Copy, Debug)]
pub struct SpeechInterval {
    pub start_ms: u64,
    pub end_ms: u64,
}

/// Where there is speech in a recording.
#[derive(Clone, Debug)]
pub struct Annotation {
    pub speech: Vec<SpeechInterval>,
}

/// An annotated stretch of speech, in milliseconds.
#[derive(Clone, Copy)]
struct Span {
    start: Binary64,
    end: Binary64,
}

impl Ranked for Span {
    closed spec fn has_rank(self) -> bool {
        !self.start@.is_nan()
    }

    closed spec fn ranked(self, other: Span) -> bool {
        self.start@.le(other.start@)
    }

    proof fn lemma_total(a: Span, b: Span) {
    }

    proof fn lemma_transitive(a: Span, b: Span, c: Span) {
    }

    fn may_precede(&self, other: &Span) -> (r: bool) {
        self.start.at_most(other.start)
    }
}

/// A number of milliseconds as a double-precision number.
pub open spec fn milliseconds(n: nat) -> Float {
    from_int(Format::Double, n as int)
}

/// When a frame starts.
pub open spec fn frame_start(frame_ms: Float, frame: nat) -> Float {
    product(Format::Double, from_int(Format::Double, frame as int), frame_ms)
}

/// When a frame ends.
pub open spec fn frame_end(frame_ms: Float, frame: nat) -> Float {
    sum(Format::Double, frame_start(frame_ms, frame), frame_ms)
}

/// For how long a frame and the time from `start` to `end` overlap; not positive where they do
/// not.
pub open spec fn overlap(frame_ms: Float, frame: nat, start: Float, end: Float) -> Float {
    difference(
        Format::Double,
        lesser(frame_end(frame_ms, frame), end),
        greater(frame_start(frame_ms, frame), start),
    )
}

/// Whether the time from `start` to `end` covers at least half of a frame.
pub open spec fn covers(frame_ms: Float, frame: nat, start: Float, end: Float) -> bool {
    &&& Float::zero().lt(overlap(frame_ms, frame, start, end))
    &&& product(Format::Double, frame_ms, Binary64 { bits: HALF_BITS }@).le(
        overlap(frame_ms, frame, start, end),
    )
}

/// Whether an annotated interval covers at least half of a frame.
pub open spec fn interval_covers(
    frame_ms: Float,
    frame: nat,
    interval: SpeechInterval,
) -> bool {
    covers(
        frame_ms,
        frame,
        milliseconds(interval.start_ms as nat),
        milliseconds(interval.end_ms as nat),
    )
}

/// Whether a frame counts as speech.
pub open spec fn is_speech_frame(
    frame_ms: Float,
    frame: nat,
    speech: Seq<SpeechInterval>,
) -> bool {
    exists|i: int| 0 <= i < speech.len() && interval_covers(frame_ms, frame, #[trigger] speech[i])
}

/// What starts when a frame has ended does not overlap it.
proof fn lemma_not_reached(frame_ms: Float, frame: nat, start: Float, end: Float)
    requires
        frame_end(frame_ms, frame).le(start),
        start is Finite,
        end is Finite,
    ensures
        !covers(frame_ms, frame, start, end),
{
    law_difference_sign(
        Format::Double,
        lesser(frame_end(frame_ms, frame), end),
        greater(frame_start(frame_ms, frame), start),
    );
}

/// What has ended when a frame starts overlaps neither it nor a later frame.
proof fn lemma_passed(frame_ms: Float, earlier: nat, frame: nat, start: Float, end: Float)
    requires
        earlier <= frame <= u64::MAX,
        end.le(frame_start(frame_ms, earlier)),
        start is Finite && !start.neg(),
        end is Finite && !end.neg(),
    ensures
        !covers(frame_ms, frame, start, end),
{
    let d = Format::Double;
    lemma_u64_is_finite(d, earlier);
    lemma_u64_is_finite(d, frame);
    law_conversion_keeps_order(d, earlier, frame);
    let a = from_int(d, earlier as int);
    let b = from_int(d, frame as int);
    let fs = frame_start(frame_ms, frame);
    let fe = frame_end(frame_ms, frame);
    match frame_ms {
        Float::Nan => {},
        Float::Infinite { neg } => {},
        Float::Finite { neg, mag } => {
            if !neg {
                law_product_keeps_order(d, a, b, frame_ms);
                assert(end.le(fs));
            } else {
                assert(end.mag() == 0);
            }
        },
    }
    law_difference_sign(d, lesser(fe, end), greater(fs, start));
}

impl Span {
    /// The span stands for an annotated interval.
    closed spec fn stands_for(self, interval: SpeechInterval) -> bool {
        &&& self.start@ == milliseconds(interval.start_ms as nat)
        &&& self.end@ == milliseconds(interval.end_ms as nat)
    }

    /// The bounds are finite and not negative.
    closed spec fn is_plain(self) -> bool {
        &&& self.start@ is Finite && !self.start@.neg()
        &&& self.end@ is Finite && !self.end@.neg()
    }

    closed spec fn covers(self, frame_ms: Float, frame: nat) -> bool {
        covers(frame_ms, frame, self.start@, self.end@)
    }
}

/// The annotated intervals, by when they start.
fn spans_in_order(speech: &Vec<SpeechInterval>) -> (spans: Vec<Span>)
    ensures
        in_order(spans@),
        forall|i: int| 0 <= i < spans@.len() ==> (#[trigger] spans@[i]).is_plain(),
        forall|frame_ms: Float, frame: nat|
            is_speech_frame(frame_ms, frame, speech@) <==> exists|j: int|
                0 <= j < spans@.len() && #[trigger] spans@[j].covers(frame_ms, frame),
{
    let mut spans: Vec<Span> = Vec::new();
    let mut i: usize = 0;
    while i < speech.len()
        invariant
            i <= speech@.len(),
            spans@.len() == i,
            forall|j: int|
                0 <= j < i ==> #[trigger] spans@[j].is_plain() && spans@[j].stands_for(speech@[j]),
        decreases speech@.len() - i,
    {
        proof {
            lemma_u64_is_finite(Format::Double, speech@[i as int].start_ms as nat);
            lemma_u64_is_finite(Format::Double, speech@[i as int].end_ms as nat);
        }
        spans.push(
            Span {
                start: Binary64::from_u64(speech[i].start_ms),
                end: Binary64::from_u64(speech[i].end_ms),
            },
        );
        i = i + 1;
    }
    assert(all_ranked(spans@)) by {
        assert forall|j: int| 0 <= j < spans@.len() implies (#[trigger] spans@[j]).has_rank() by {
            assert(spans@[j].is_plain());
        }
    }
    let ordered: Vec<Span> = sorted(&spans);
    proof {
        lemma_same_things(ordered@, spans@);
        assert forall|k: int| 0 <= k < ordered@.len() implies (
        #[trigger] ordered@[k]).is_plain() by {
            let j = choose|j: int| 0 <= j < spans@.len() && spans@[j] == ordered@[k];
            assert(spans@[j].is_plain());
        }
        assert forall|frame_ms: Float, frame: nat|
            is_speech_frame(frame_ms, frame, speech@) <==> exists|j: int|
                0 <= j < ordered@.len() && #[trigger] ordered@[j].covers(frame_ms, frame) by {
            if is_speech_frame(frame_ms, frame, speech@) {
                let j = choose|j: int|
                    0 <= j < speech@.len() && interval_covers(
                        frame_ms,
                        frame,
                        #[trigger] speech@[j],
                    );
                assert(spans@[j].is_plain());
                assert(ordered@.contains(spans@[j]));
                let k = choose|k: int| 0 <= k < ordered@.len() && ordered@[k] == spans@[j];
                assert(ordered@[k].covers(frame_ms, frame));
            }
            if exists|j: int|
                0 <= j < ordered@.len() && #[trigger] ordered@[j].covers(frame_ms, frame) {
                let k = choose|j: int|
                    0 <= j < ordered@.len() && #[trigger] ordered@[j].covers(frame_ms, frame);
                let j = choose|j: int| 0 <= j < spans@.len() && spans@[j] == ordered@[k];
                assert(spans@[j].is_plain());
                assert(interval_covers(frame_ms, frame, speech@[j]));
            }
        }
    }
    ordered
}

/// Marks frames as speech or not. A frame is speech where an annotated interval overlaps at least
/// half of it.
pub fn frame_labels(num_frames: usize, frame_ms: Binary64, annotation: &Annotation) -> (labels: Vec<
    bool,
>)
    ensures
        labels@.len() == num_frames,
        forall|frame: int|
            0 <= frame < num_frames ==> #[trigger] labels@[frame] == is_speech_frame(
                frame_ms@,
                frame as nat,
                annotation.speech@,
            ),
{
    let spans: Vec<Span> = spans_in_order(&annotation.speech);
    let half: Binary64 = frame_ms.times(Binary64::from_bits(HALF_BITS));
    let zero: Binary64 = Binary64::from_u64(0);
    proof {
        vstd::arithmetic::mul::lemma_mul_basics(Format::Double.one() as int);
    }
    assert(zero@ == Float::zero());
    let mut labels: Vec<bool> = Vec::new();
    let mut active: usize = 0;
    let mut frame: usize = 0;
    while frame < num_frames
        invariant
            frame <= num_frames,
            labels@.len() == frame,
            zero@ == Float::zero(),
            half@ == product(Format::Double, frame_ms@, Binary64 { bits: HALF_BITS }@),
            in_order(spans@),
            forall|i: int| 0 <= i < spans@.len() ==> (#[trigger] spans@[i]).is_plain(),
            forall|f: Float, g: nat|
                is_speech_frame(f, g, annotation.speech@) <==> exists|j: int|
                    0 <= j < spans@.len() && #[trigger] spans@[j].covers(f, g),
            active <= spans@.len(),
            // What has been passed over covers no frame any more.
            forall|j: int, g: nat|
                0 <= j < active && frame <= g <= u64::MAX ==> !#[trigger] spans@[j].covers(
                    frame_ms@,
                    g,
                ),
            forall|g: int|
                0 <= g < frame ==> #[trigger] labels@[g] == is_speech_frame(
                    frame_ms@,
                    g as nat,
                    annotation.speech@,
                ),
        decreases num_frames - frame,
    {
        let start: Binary64 = Binary64::from_u64(frame as u64).times(frame_ms);
        let end: Binary64 = start.plus(frame_ms);
        while active < spans.len() && spans[active].end.at_most(start)
            invariant
                active <= spans@.len(),
                frame < num_frames,
                start@ == frame_start(frame_ms@, frame as nat),
                forall|i: int| 0 <= i < spans@.len() ==> (#[trigger] spans@[i]).is_plain(),
                forall|j: int, g: nat|
                    0 <= j < active && frame <= g <= u64::MAX ==> !#[trigger] spans@[j].covers(
                        frame_ms@,
                        g,
                    ),
            decreases spans@.len() - active,
        {
            proof {
                let span = spans@[active as int];
                assert(span.is_plain());
                assert forall|g: nat| frame <= g <= u64::MAX implies !#[trigger] span.covers(
                    frame_ms@,
                    g,
                ) by {
                    lemma_passed(frame_ms@, frame as nat, g, span.start@, span.end@);
                }
            }
            active = active + 1;
        }
        let mut label: bool = false;
        let mut i: usize = active;
        let mut reached: bool = true;
        while i < spans.len() && reached && !label
            invariant
                active <= i <= spans@.len(),
                frame < num_frames,
                zero@ == Float::zero(),
                half@ == product(Format::Double, frame_ms@, Binary64 { bits: HALF_BITS }@),
                start@ == frame_start(frame_ms@, frame as nat),
                end@ == frame_end(frame_ms@, frame as nat),
                in_order(spans@),
                forall|j: int| 0 <= j < spans@.len() ==> (#[trigger] spans@[j]).is_plain(),
                forall|j: int|
                    0 <= j < i ==> !#[trigger] spans@[j].covers(frame_ms@, frame as nat),
                !reached ==> forall|j: int|
                    i <= j < spans@.len() ==> !#[trigger] spans@[j].covers(
                        frame_ms@,
                        frame as nat,
                    ),
                label ==> exists|j: int|
                    0 <= j < spans@.len() && #[trigger] spans@[j].covers(frame_ms@, frame as nat),
            decreases
                    spans@.len() - i,
                    if reached && !label {
                        1int
                    } else {
                        0
                    },
        {
            let span: Span = spans[i];
            assert(spans@[i as int].is_plain());
            if end.at_most(span.start) {
                proof {
                    assert forall|j: int| i <= j < spans@.len() implies !#[trigger] spans@[j].covers(
                        frame_ms@,
                        frame as nat,
                    ) by {
                        let later = spans@[j];
                        assert(later.is_plain());
                        if j > i {
                            assert(span.ranked(later));
                        }
                        lemma_not_reached(frame_ms@, frame as nat, later.start@, later.end@);
                    }
                }
                reached = false;
            } else {
                let shared: Binary64 = end.min(span.end).minus(start.max(span.start));
                if zero.below(shared) && half.at_most(shared) {
                    assert(spans@[i as int].covers(frame_ms@, frame as nat));
                    label = true;
                } else {
                    assert(!spans@[i as int].covers(frame_ms@, frame as nat));
                    i = i + 1;
                }
            }
        }
        assert(label == is_speech_frame(frame_ms@, frame as nat, annotation.speech@));
        labels.push(label);
        frame = frame + 1;
    }
    labels
}

/// How the predicted frames compare with the labels.
#[derive(Clone, Copy, Debug)]
pub struct ClassificationMetrics {
    pub tp: u64,
    pub fp: u64,
    pub fn_count: u64,
    pub tn: u64,
    pub precision: Binary32,
    pub recall: Binary32,
    pub f1_score: Binary32,
    pub accuracy: Binary32,
}

/// How many of the first `n` frames have the given label and the given prediction.
pub open spec fn tally(
    labels: Seq<bool>,
    predictions: Seq<bool>,
    label: bool,
    prediction: bool,
    n: nat,
) -> nat
    decreases n,
{
    if n == 0 {
        0
    } else {
        tally(labels, predictions, label, prediction, (n - 1) as nat) + if labels[n - 1] == label
            && predictions[n - 1] == prediction {
            1nat
        } else {
            0
        }
    }
}

/// How many frames have both a label and a prediction.
pub open spec fn common(labels: Seq<bool>, predictions: Seq<bool>) -> nat {
    if labels.len() <= predictions.len() {
        labels.len()
    } else {
        predictions.len()
    }
}

/// Speech that was predicted.
pub open spec fn true_positives(labels: Seq<bool>, predictions: Seq<bool>) -> nat {
    tally(labels, predictions, true, true, common(labels, predictions))
}

/// Predicted speech that is none, and every prediction without a label.
pub open spec fn false_positives(labels: Seq<bool>, predictions: Seq<bool>) -> nat {
    let n = common(labels, predictions);
    tally(labels, predictions, false, true, n) + (predictions.len() - n) as nat
}

/// Speech that was not predicted, and every label without a prediction.
pub open spec fn false_negatives(labels: Seq<bool>, predictions: Seq<bool>) -> nat {
    let n = common(labels, predictions);
    tally(labels, predictions, true, false, n) + (labels.len() - n) as nat
}

/// What neither is speech nor was predicted.
pub open spec fn true_negatives(labels: Seq<bool>, predictions: Seq<bool>) -> nat {
    tally(labels, predictions, false, false, common(labels, predictions))
}

/// The share of `part` in `whole`, in single precision; zero of nothing.
pub open spec fn share(part: nat, whole: nat) -> Float {
    if whole == 0 {
        Float::zero()
    } else {
        quotient(
            Format::Single,
            from_int(Format::Single, part as int),
            from_int(Format::Single, whole as int),
        )
    }
}

/// The harmonic mean of precision and recall, as it comes out of single-precision operations.
pub open spec fn harmonic(precision: Float, recall: Float) -> Float {
    let s = Format::Single;
    let both = sum(s, precision, recall);
    if both.same(Float::zero()) {
        Float::zero()
    } else {
        quotient(s, product(s, product(s, from_int(s, 2), precision), recall), both)
    }
}

/// The share of `part` in `whole`; zero of nothing.
fn share_of(part: u64, whole: u64) -> (r: Binary32)
    ensures
        r@ == share(part as nat, whole as nat),
{
    if whole == 0 {
        let zero: Binary32 = Binary32::from_u64(0);
        proof {
            vstd::arithmetic::mul::lemma_mul_basics(Format::Single.one() as int);
        }
        zero
    } else {
        Binary32::from_u64(part).over(Binary32::from_u64(whole))
    }
}

/// Compares predicted frames with labels. Every prediction without a label counts as a false
/// positive, and every label without a prediction as a false negative, whatever it says.
pub fn compute_classification(labels: &[bool], predictions: &[bool]) -> (m: ClassificationMetrics)
    ensures
        m.tp == true_positives(labels@, predictions@),
        m.fp == false_positives(labels@, predictions@),
        m.fn_count == false_negatives(labels@, predictions@),
        m.tn == true_negatives(labels@, predictions@),
        m.precision@ == share(m.tp as nat, (m.tp + m.fp) as nat),
        m.recall@ == share(m.tp as nat, (m.tp + m.fn_count) as nat),
        m.f1_score@ == harmonic(m.precision@, m.recall@),
        m.accuracy@ == share((m.tp + m.tn) as nat, (m.tp + m.fp + m.fn_count + m.tn) as nat),
{
    let n: usize = if labels.len() <= predictions.len() {
        labels.len()
    } else {
        predictions.len()
    };
    let mut tp: u64 = 0;
    let mut fp: u64 = 0;
    let mut fn_count: u64 = 0;
    let mut tn: u64 = 0;
    let mut i: usize = 0;
    while i < n
        invariant
            i <= n,
            n == common(labels@, predictions@),
            tp == tally(labels@, predictions@, true, true, i as nat),
            fp == tally(labels@, predictions@, false, true, i as nat),
            fn_count == tally(labels@, predictions@, true, false, i as nat),
            tn == tally(labels@, predictions@, false, false, i as nat),
            tp + fp + fn_count + tn == i,
        decreases n - i,
    {
        match (labels[i], predictions[i]) {
            (true, true) => {
                tp = tp + 1;
            },
            (false, true) => {
                fp = fp + 1;
            },
            (true, false) => {
                fn_count = fn_count + 1;
            },
            (false, false) => {
                tn = tn + 1;
            },
        }
        i = i + 1;
    }
    if predictions.len() > n {
        fp = fp + (predictions.len() - n) as u64;
    }
    if labels.len() > n {
        fn_count = fn_count + (labels.len() - n) as u64;
    }
    let precision: Binary32 = share_of(tp, tp + fp);
    let recall: Binary32 = share_of(tp, tp + fn_count);
    let zero: Binary32 = Binary32::from_u64(0);
    proof {
        vstd::arithmetic::mul::lemma_mul_basics(Format::Single.one() as int);
    }
    let both: Binary32 = precision.plus(recall);
    let f1_score: Binary32 = if both.equals(zero) {
        zero
    } else {
        Binary32::from_u64(2).times(precision).times(recall).over(both)
    };
    let accuracy: Binary32 = share_of(tp + tn, tp + fp + fn_count + tn);
    ClassificationMetrics { tp, fp, fn_count, tn, precision, recall, f1_score, accuracy }
}

/// A detected stretch of speech.
#[derive(Clone, Copy, Debug)]
pub struct Segment {
    pub start_ms: u64,
    pub end_ms: u64,
}

/// When a frame starts, in whole milliseconds.
pub open spec fn boundary_ms(frame_ms: Float, frame: nat) -> u64 {
    rounded_away(Format::Double, frame_start(frame_ms, frame), 0, u64::MAX as int) as u64
}

/// Where the run of speech that ends before frame `end` starts.
pub open spec fn run_start(predictions: Seq<bool>, end: nat) -> nat
    decreases end,
{
    if end == 0 || !predictions[end - 1] {
        end
    } else {
        run_start(predictions, (end - 1) as nat)
    }
}

/// Whether a run of speech ends right before frame `end`.
pub open spec fn run_ends(predictions: Seq<bool>, end: nat) -> bool {
    &&& 0 < end <= predictions.len()
    &&& predictions[end - 1]
    &&& end == predictions.len() || !predictions[end as int]
}

/// The stretch from one frame to another.
pub open spec fn stretch(frame_ms: Float, start: nat, end: nat) -> Segment {
    Segment { start_ms: boundary_ms(frame_ms, start), end_ms: boundary_ms(frame_ms, end) }
}

/// Whether a segment lasts at least so long. One that ends before it starts has no length.
pub open spec fn long_enough(segment: Segment, min_ms: u64) -> bool {
    (if segment.end_ms >= segment.start_ms {
        segment.end_ms - segment.start_ms
    } else {
        0
    }) >= min_ms
}

/// The runs of speech that end at or before frame `n` and are long enough, in order.
pub open spec fn segments_until(
    predictions: Seq<bool>,
    frame_ms: Float,
    min_ms: u64,
    n: nat,
) -> Seq<Segment>
    decreases n,
{
    if n == 0 {
        Seq::empty()
    } else {
        let earlier = segments_until(predictions, frame_ms, min_ms, (n - 1) as nat);
        let last = stretch(frame_ms, run_start(predictions, n), n);
        if run_ends(predictions, n) && long_enough(last, min_ms) {
            earlier.push(last)
        } else {
            earlier
        }
    }
}

/// When a frame starts, in whole milliseconds.
fn boundary(frame: usize, frame_ms: Binary64) -> (r: u64)
    ensures
        r == boundary_ms(frame_ms@, frame as nat),
{
    Binary64::from_u64(frame as u64).times(frame_ms).round_to_u64()
}

/// Adds a run of speech to the segments if it is long enough.
fn close_run(
    segments: &mut Vec<Segment>,
    start: usize,
    end: usize,
    frame_ms: Binary64,
    min_segment_ms: u64,
)
    ensures
        final(segments)@ == (if long_enough(
            stretch(frame_ms@, start as nat, end as nat),
            min_segment_ms,
        ) {
            old(segments)@.push(stretch(frame_ms@, start as nat, end as nat))
        } else {
            old(segments)@
        }),
{
    let start_ms: u64 = boundary(start, frame_ms);
    let end_ms: u64 = boundary(end, frame_ms);
    if end_ms.saturating_sub(start_ms) >= min_segment_ms {
        segments.push(Segment { start_ms, end_ms });
    }
}

/// Joins neighbouring speech frames to segments, and drops those that are too short.
pub fn bool_frames_to_segments(
    predictions: &[bool],
    frame_ms: Binary64,
    min_segment_ms: u64,
) -> (segments: Vec<Segment>)
    ensures
        segments@ == segments_until(
            predictions@,
            frame_ms@,
            min_segment_ms,
            predictions@.len(),
        ),
{
    let mut segments: Vec<Segment> = Vec::new();
    let mut start: Option<usize> = None;
    let mut i: usize = 0;
    let ghost mut done: nat = 0;
    while i < predictions.len()
        invariant
            i <= predictions@.len(),
            done == if i == 0 {
                0
            } else {
                i - 1
            },
            segments@ == segments_until(predictions@, frame_ms@, min_segment_ms, done),
            start is Some <==> i > 0 && predictions@[i - 1],
            start matches Some(s) ==> s == run_start(predictions@, i as nat) && s < i,
        decreases predictions@.len() - i,
    {
        let is_speech: bool = predictions[i];
        if is_speech && start.is_none() {
            start = Some(i);
            assert(run_start(predictions@, i as nat) == i);
        }
        if !is_speech {
            if let Some(start_frame) = start {
                close_run(&mut segments, start_frame, i, frame_ms, min_segment_ms);
                start = None;
            }
        }
        proof {
            done = i as nat;
        }
        i = i + 1;
    }
    if let Some(start_frame) = start {
        close_run(&mut segments, start_frame, predictions.len(), frame_ms, min_segment_ms);
    }
    segments
}

/// How late speech is detected.
#[derive(Clone, Copy, Debug)]
pub struct LatencyStats {
    pub avg_ms: Binary64,
    pub avg_abs_ms: Binary64,
    pub count: usize,
}

/// Whether a detected segment and an annotated interval touch.
pub open spec fn touches(segment: Segment, interval: SpeechInterval) -> bool {
    &&& milliseconds(segment.start_ms as nat).le(milliseconds(interval.end_ms as nat))
    &&& milliseconds(interval.start_ms as nat).le(milliseconds(segment.end_ms as nat))
}

/// The first detected segment that touches an annotated interval, if any does.
pub open spec fn is_first_touching(
    detected: Seq<Segment>,
    interval: SpeechInterval,
    hit: Option<int>,
) -> bool {
    match hit {
        Some(k) => {
            &&& 0 <= k < detected.len()
            &&& touches(detected[k], interval)
            &&& forall|j: int| 0 <= j < k ==> !touches(#[trigger] detected[j], interval)
        },
        None => forall|j: int|
            0 <= j < detected.len() ==> !touches(#[trigger] detected[j], interval),
    }
}

/// Which detected segment is the first that touches an annotated interval.
pub open spec fn first_touched(detected: Seq<Segment>, interval: SpeechInterval) -> Option<int> {
    choose|hit: Option<int>| is_first_touching(detected, interval, hit)
}

/// How long after the start of an annotated interval a segment starts.
pub open spec fn delay(segment: Segment, interval: SpeechInterval) -> Float {
    difference(
        Format::Double,
        milliseconds(segment.start_ms as nat),
        milliseconds(interval.start_ms as nat),
    )
}

/// The delays of the first `n` annotated intervals that were detected at all, in order.
pub open spec fn delays(
    speech: Seq<SpeechInterval>,
    detected: Seq<Segment>,
    n: nat,
) -> Seq<Float>
    decreases n,
{
    if n == 0 {
        Seq::empty()
    } else {
        let earlier = delays(speech, detected, (n - 1) as nat);
        match first_touched(detected, speech[n - 1]) {
            Some(k) => earlier.push(delay(detected[k], speech[n - 1])),
            None => earlier,
        }
    }
}

/// At most one detected segment is the first that touches an interval.
proof fn lemma_first_touching_unique(
    detected: Seq<Segment>,
    interval: SpeechInterval,
    a: Option<int>,
    b: Option<int>,
)
    requires
        is_first_touching(detected, interval, a),
        is_first_touching(detected, interval, b),
    ensures
        a == b,
{
    if let Some(i) = a {
        if let Some(j) = b {
            if i < j {
                assert(!touches(detected[i], interval));
            }
            if j < i {
                assert(!touches(detected[j], interval));
            }
        } else {
            assert(!touches(detected[i], interval));
        }
    } else if let Some(j) = b {
        assert(!touches(detected[j], interval));
    }
}

/// The first detected segment that touches an annotated interval.
fn first_touching(detected: &[Segment], interval: SpeechInterval) -> (r: Option<usize>)
    ensures
        is_first_touching(
            detected@,
            interval,
            match r {
                Some(k) => Some(k as int),
                None => None,
            },
        ),
        r matches Some(k) ==> k < detected@.len(),
{
    let start: Binary64 = Binary64::from_u64(interval.start_ms);
    let end: Binary64 = Binary64::from_u64(interval.end_ms);
    let mut i: usize = 0;
    while i < detected.len()
        invariant
            i <= detected@.len(),
            start@ == milliseconds(interval.start_ms as nat),
            end@ == milliseconds(interval.end_ms as nat),
            forall|j: int| 0 <= j < i ==> !touches(#[trigger] detected@[j], interval),
        decreases detected@.len() - i,
    {
        let segment: Segment = detected[i];
        if Binary64::from_u64(segment.start_ms).at_most(end) && start.at_most(
            Binary64::from_u64(segment.end_ms),
        ) {
            return Some(i);
        }
        i = i + 1;
    }
    None
}

/// How late the detection starts, compared with an annotation: for each annotated interval the
/// first detected segment that touches it counts. `None` where none is touched.
pub fn onset_latency(annotation: &Annotation, detected: &[Segment]) -> (stats: Option<LatencyStats>)
    ensures
        ({
            let ds = delays(annotation.speech@, detected@, annotation.speech@.len());
            &&& stats is None <==> ds.len() == 0
            &&& stats matches Some(s) ==> {
                &&& s.count == ds.len()
                &&& s.avg_ms@ == mean(Format::Double, ds)
                &&& s.avg_abs_ms@ == mean(Format::Double, ds.map_values(|d: Float| d.absolute()))
            }
        }),
{
    let mut plain: Binary64 = Binary64::from_u64(0);
    let mut absolute: Binary64 = Binary64::from_u64(0);
    let mut count: usize = 0;
    let mut i: usize = 0;
    let ghost mut ds: Seq<Float> = Seq::empty();
    let ghost abs = |d: Float| d.absolute();
    proof {
        vstd::arithmetic::mul::lemma_mul_basics(Format::Double.one() as int);
        assert(ds.map_values(abs) =~= Seq::<Float>::empty());
    }
    while i < annotation.speech.len()
        invariant
            i <= annotation.speech@.len(),
            ds == delays(annotation.speech@, detected@, i as nat),
            count == ds.len(),
            count <= i,
            plain@ == total(Format::Double, ds),
            absolute@ == total(Format::Double, ds.map_values(abs)),
            abs == (|d: Float| d.absolute()),
        decreases annotation.speech@.len() - i,
    {
        let interval: SpeechInterval = annotation.speech[i];
        let hit: Option<usize> = first_touching(detected, interval);
        let ghost told: Option<int> = match hit {
            Some(k) => Some(k as int),
            None => None,
        };
        proof {
            assert(is_first_touching(detected@, interval, told));
            lemma_first_touching_unique(
                detected@,
                interval,
                told,
                first_touched(detected@, interval),
            );
        }
        if let Some(k) = hit {
            let late: Binary64 = Binary64::from_u64(detected[k].start_ms).minus(
                Binary64::from_u64(interval.start_ms),
            );
            let ghost more = ds.push(late@);
            proof {
                assert(more.drop_last() =~= ds);
                assert(more.map_values(abs) =~= ds.map_values(abs).push(late@.absolute()));
                assert(more.map_values(abs).drop_last() =~= ds.map_values(abs));
                ds = more;
            }
            plain = plain.plus(late);
            absolute = absolute.plus(late.abs());
            count = count + 1;
        }
        i = i + 1;
    }
    if count == 0 {
        return None;
    }
    let n: Binary64 = Binary64::from_u64(count as u64);
    Some(LatencyStats { avg_ms: plain.over(n), avg_abs_ms: absolute.over(n), count })
}

} // verus!
