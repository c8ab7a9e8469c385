//! Laws of the joining of frames to segments.

use crate::engine::frame_length;
use crate::float::laws::{
    law_conversion_keeps_order, law_product_keeps_order, law_small_whole_is_exact,
    law_small_wholes_multiply, lemma_u64_is_finite,
};
use crate::float::model::{from_int, product, rounded_away, Float, Format};
use crate::float::ops::lemma_rounded_zero;
use crate::laws::labels::{exact_limit, law_frame_is_sixteen_ms};
use crate::metrics::{
    boundary_ms, long_enough, run_ends, run_start, segments_until, stretch, Segment,
};
use vstd::arithmetic::div_mod::{lemma_div_is_ordered, lemma_fundamental_div_mod_converse};
use vstd::arithmetic::mul::lemma_mul_basics;
use vstd::arithmetic::power2::{lemma2_to64, lemma2_to64_rest, lemma_pow2_pos};
use vstd::prelude::*;

verus! {

/// What `run_start` finds: from there on everything is speech, and right before it nothing is.
pub proof fn law_run(predictions: Seq<bool>, end: nat)
    requires
        end <= predictions.len(),
    ensures
        ({
            let start = run_start(predictions, end);
            &&& start <= end
            &&& end > 0 && predictions[end - 1] ==> start < end
            &&& forall|i: int| start <= i < end ==> #[trigger] predictions[i]
            &&& start > 0 ==> !predictions[start - 1]
        }),
    decreases end,
{
    if end > 0 && predictions[end - 1] {
        law_run(predictions, (end - 1) as nat);
    }
}

/// Every segment is a whole run of speech that is long enough.
pub proof fn law_segments_are_runs(
    predictions: Seq<bool>,
    frame_ms: Float,
    min_ms: u64,
    n: nat,
    k: int,
)
    requires
        n <= predictions.len(),
        0 <= k < segments_until(predictions, frame_ms, min_ms, n).len(),
    ensures
        ({
            let segment = segments_until(predictions, frame_ms, min_ms, n)[k];
            &&& long_enough(segment, min_ms)
            &&& exists|end: nat|
                {
                    &&& end <= n
                    &&& #[trigger] run_ends(predictions, end)
                    &&& segment == stretch(frame_ms, run_start(predictions, end), end)
                }
        }),
    decreases n,
{
    let earlier = segments_until(predictions, frame_ms, min_ms, (n - 1) as nat);
    if k < earlier.len() {
        law_segments_are_runs(predictions, frame_ms, min_ms, (n - 1) as nat, k);
    } else {
        assert(run_ends(predictions, n));
    }
}

/// Every run of speech that is long enough is a segment.
pub proof fn law_long_runs_are_segments(
    predictions: Seq<bool>,
    frame_ms: Float,
    min_ms: u64,
    n: nat,
    end: nat,
)
    requires
        end <= n <= predictions.len(),
        run_ends(predictions, end),
        long_enough(stretch(frame_ms, run_start(predictions, end), end), min_ms),
    ensures
        segments_until(predictions, frame_ms, min_ms, n).contains(
            stretch(frame_ms, run_start(predictions, end), end),
        ),
    decreases n,
{
    let here = stretch(frame_ms, run_start(predictions, end), end);
    let all = segments_until(predictions, frame_ms, min_ms, n);
    let earlier = segments_until(predictions, frame_ms, min_ms, (n - 1) as nat);
    if end == n {
        assert(all[all.len() - 1] == here);
    } else {
        law_long_runs_are_segments(predictions, frame_ms, min_ms, (n - 1) as nat, end);
        let i = choose|i: int| 0 <= i < earlier.len() && earlier[i] == here;
        assert(all[i] == here);
    }
}

/// Rounding to whole milliseconds keeps order.
proof fn lemma_rounding_keeps_order(a: Float, b: Float)
    requires
        a.le(b),
    ensures
        rounded_away(Format::Double, a, 0, u64::MAX as int) <= rounded_away(
            Format::Double,
            b,
            0,
            u64::MAX as int,
        ),
{
    let one = Format::Double.one();
    lemma_pow2_pos(Format::Double.scale());
    if a is Finite && b is Finite && !a.neg() && !b.neg() {
        lemma_div_is_ordered(
            (2 * a.mag() + one) as int,
            (2 * b.mag() + one) as int,
            (2 * one) as int,
        );
    }
    if a is Finite && a.mag() == 0 {
        lemma_fundamental_div_mod_converse(one as int, (2 * one) as int, 0, one as int);
    }
}

/// Later frames start later, or not earlier at least, as long as frames do not have a negative
/// length.
pub proof fn law_boundaries_in_order(frame_ms: Float, a: nat, b: nat)
    requires
        a <= b <= u64::MAX,
        !frame_ms.lt(Float::zero()),
    ensures
        boundary_ms(frame_ms, a) <= boundary_ms(frame_ms, b),
{
    let d = Format::Double;
    lemma_u64_is_finite(d, a);
    lemma_u64_is_finite(d, b);
    law_conversion_keeps_order(d, a, b);
    lemma_pow2_pos(d.scale());
    let x = from_int(d, a as int);
    let y = from_int(d, b as int);
    match frame_ms {
        Float::Nan => {},
        Float::Infinite { neg } => {},
        Float::Finite { neg, mag } => {
            if neg {
                // A zero.
                lemma_mul_basics(x.mag() as int);
                lemma_mul_basics(y.mag() as int);
                lemma_rounded_zero(d, true, d.one());
            } else {
                law_product_keeps_order(d, x, y, frame_ms);
            }
            lemma_rounding_keeps_order(product(d, x, frame_ms), product(d, y, frame_ms));
        },
    }
}

/// Within a run of speech no segment ends.
proof fn lemma_nothing_ends_within(
    predictions: Seq<bool>,
    frame_ms: Float,
    min_ms: u64,
    start: nat,
    n: nat,
)
    requires
        start <= n < predictions.len(),
        forall|i: int| start < i <= n ==> #[trigger] predictions[i],
    ensures
        segments_until(predictions, frame_ms, min_ms, n) == segments_until(
            predictions,
            frame_ms,
            min_ms,
            start,
        ),
    decreases n,
{
    if n > start {
        lemma_nothing_ends_within(predictions, frame_ms, min_ms, start, (n - 1) as nat);
        assert(predictions[n as int]);
    }
}

/// No segment ends later than the frames that were looked at.
proof fn lemma_ends_bounded(
    predictions: Seq<bool>,
    frame_ms: Float,
    min_ms: u64,
    n: nat,
    k: int,
)
    requires
        n <= predictions.len() <= u64::MAX,
        !frame_ms.lt(Float::zero()),
        0 <= k < segments_until(predictions, frame_ms, min_ms, n).len(),
    ensures
        segments_until(predictions, frame_ms, min_ms, n)[k].end_ms <= boundary_ms(frame_ms, n),
{
    law_segments_are_runs(predictions, frame_ms, min_ms, n, k);
    let segment = segments_until(predictions, frame_ms, min_ms, n)[k];
    let end = choose|end: nat|
        {
            &&& end <= n
            &&& #[trigger] run_ends(predictions, end)
            &&& segment == stretch(frame_ms, run_start(predictions, end), end)
        };
    law_boundaries_in_order(frame_ms, end, n);
}

/// Segments come in order and do not overlap, and none ends before it starts.
pub proof fn law_segments_in_order(
    predictions: Seq<bool>,
    frame_ms: Float,
    min_ms: u64,
    n: nat,
    j: int,
    k: int,
)
    requires
        n <= predictions.len() <= u64::MAX,
        !frame_ms.lt(Float::zero()),
        0 <= j <= k < segments_until(predictions, frame_ms, min_ms, n).len(),
    ensures
        ({
            let segments = segments_until(predictions, frame_ms, min_ms, n);
            &&& segments[k].start_ms <= segments[k].end_ms
            &&& j < k ==> segments[j].end_ms <= segments[k].start_ms
        }),
    decreases n,
{
    let earlier = segments_until(predictions, frame_ms, min_ms, (n - 1) as nat);
    if k < earlier.len() {
        law_segments_in_order(predictions, frame_ms, min_ms, (n - 1) as nat, j, k);
    } else {
        law_run(predictions, n);
        let start = run_start(predictions, n);
        law_boundaries_in_order(frame_ms, start, n);
        if j < k {
            lemma_nothing_ends_within(predictions, frame_ms, min_ms, start, (n - 1) as nat);
            lemma_ends_bounded(predictions, frame_ms, min_ms, start, j);
        }
    }
}

/// Where frames take whole milliseconds, frames start at exact milliseconds.
pub proof fn law_boundaries_are_exact(length: nat, frame: nat)
    requires
        frame * length <= exact_limit(),
        frame <= exact_limit(),
        length <= exact_limit(),
    ensures
        boundary_ms(from_int(Format::Double, length as int), frame) == frame * length,
{
    let d = Format::Double;
    lemma2_to64();
    lemma2_to64_rest();
    law_small_wholes_multiply(d, frame as int, length as int);
    let n = frame * length;
    law_small_whole_is_exact(d, n as int);
    let one = d.one();
    lemma_pow2_pos(d.scale());
    assert(2 * (n * one) + one == n * (2 * one) + one) by (nonlinear_arith);
    lemma_fundamental_div_mod_converse(
        2 * (n * one) + one as int,
        (2 * one) as int,
        n as int,
        one as int,
    );
}

/// A run of speech that a speech frame is part of.
proof fn lemma_run_around(predictions: Seq<bool>, i: nat, upto: nat) -> (end: nat)
    requires
        i < upto <= predictions.len(),
        forall|j: int| i <= j < upto ==> #[trigger] predictions[j],
    ensures
        run_ends(predictions, end),
        run_start(predictions, end) <= i < end,
    decreases predictions.len() - upto,
{
    if upto < predictions.len() && predictions[upto as int] {
        lemma_run_around(predictions, i, (upto + 1) as nat)
    } else {
        assert(predictions[upto - 1]);
        law_run(predictions, upto);
        let start = run_start(predictions, upto);
        if start > i {
            assert(predictions[start - 1]);
        }
        upto
    }
}

/// With frames of 16 milliseconds no segment is empty, and between two segments there is at least
/// one frame that is not speech.
pub proof fn law_segments_are_apart(
    predictions: Seq<bool>,
    min_ms: u64,
    n: nat,
    j: int,
    k: int,
)
    requires
        n <= predictions.len(),
        predictions.len() * 16 <= exact_limit(),
        0 <= j <= k < segments_until(predictions, frame_length(), min_ms, n).len(),
    ensures
        ({
            let segments = segments_until(predictions, frame_length(), min_ms, n);
            &&& segments[k].start_ms + 16 <= segments[k].end_ms
            &&& j < k ==> segments[j].end_ms + 16 <= segments[k].start_ms
        }),
    decreases n,
{
    let m = frame_length();
    law_frame_is_sixteen_ms();
    let earlier = segments_until(predictions, m, min_ms, (n - 1) as nat);
    if k < earlier.len() {
        law_segments_are_apart(predictions, min_ms, (n - 1) as nat, j, k);
    } else {
        law_run(predictions, n);
        let start = run_start(predictions, n);
        law_boundaries_are_exact(16, start);
        law_boundaries_are_exact(16, n);
        if j < k {
            lemma_nothing_ends_within(predictions, m, min_ms, start, (n - 1) as nat);
            law_segments_are_runs(predictions, m, min_ms, start, j);
            let segment = segments_until(predictions, m, min_ms, start)[j];
            let end = choose|end: nat|
                {
                    &&& end <= start
                    &&& #[trigger] run_ends(predictions, end)
                    &&& segment == stretch(m, run_start(predictions, end), end)
                };
            assert(predictions[end - 1]);
            assert(end != start);
            law_boundaries_are_exact(16, end);
        }
    }
}

/// Asking for a larger least length leaves out the segments that are too short then, and changes
/// nothing else.
pub proof fn law_larger_least_length_filters(
    predictions: Seq<bool>,
    frame_ms: Float,
    min_ms: u64,
    larger_ms: u64,
    n: nat,
)
    requires
        min_ms <= larger_ms,
    ensures
        segments_until(predictions, frame_ms, larger_ms, n) == segments_until(
            predictions,
            frame_ms,
            min_ms,
            n,
        ).filter(|s: Segment| long_enough(s, larger_ms)),
    decreases n,
{
    reveal(Seq::filter);
    if n > 0 {
        law_larger_least_length_filters(
            predictions,
            frame_ms,
            min_ms,
            larger_ms,
            (n - 1) as nat,
        );
        let earlier = segments_until(predictions, frame_ms, min_ms, (n - 1) as nat);
        let last = stretch(frame_ms, run_start(predictions, n), n);
        assert(earlier.push(last).drop_last() =~= earlier);
    }
}

/// Whether a frame of 16 milliseconds lies within one of the segments.
pub open spec fn is_covered(segments: Seq<Segment>, frame: nat) -> bool {
    exists|k: int|
        0 <= k < segments.len() && (#[trigger] segments[k]).start_ms <= 16 * frame && 16 * (frame
            + 1) <= segments[k].end_ms
}

/// Where nothing is too short, the segments cover the speech frames and no others.
pub proof fn law_segments_cover_speech(predictions: Seq<bool>, i: nat)
    requires
        i < predictions.len(),
        predictions.len() * 16 <= exact_limit(),
    ensures
        predictions[i as int] <==> is_covered(
            segments_until(predictions, frame_length(), 0, predictions.len()),
            i,
        ),
{
    let n = predictions.len();
    let m = frame_length();
    law_frame_is_sixteen_ms();
    let segments = segments_until(predictions, m, 0, n);
    if predictions[i as int] {
        let end = lemma_run_around(predictions, i, (i + 1) as nat);
        let start = run_start(predictions, end);
        law_boundaries_are_exact(16, start);
        law_boundaries_are_exact(16, end);
        law_long_runs_are_segments(predictions, m, 0, n, end);
        let k = choose|k: int| 0 <= k < segments.len() && segments[k] == stretch(m, start, end);
        assert(segments[k].start_ms <= 16 * i);
    }
    if is_covered(segments, i) {
        let k = choose|k: int|
            0 <= k < segments.len() && (#[trigger] segments[k]).start_ms <= 16 * i && 16 * (i + 1)
                <= segments[k].end_ms;
        law_segments_are_runs(predictions, m, 0, n, k);
        let end = choose|end: nat|
            {
                &&& end <= n
                &&& #[trigger] run_ends(predictions, end)
                &&& segments[k] == stretch(m, run_start(predictions, end), end)
            };
        law_run(predictions, end);
        law_boundaries_are_exact(16, run_start(predictions, end));
        law_boundaries_are_exact(16, end);
        assert(predictions[i as int]);
    }
}

/// Whether the frames from `a` on and before `b` are speech, and neither the one before nor the one
/// after is.
pub open spec fn is_speech_run(predictions: Seq<bool>, a: nat, b: nat) -> bool {
    &&& a < b <= predictions.len()
    &&& forall|i: int| a <= i < b ==> #[trigger] predictions[i]
    &&& a > 0 ==> !predictions[a - 1]
    &&& b < predictions.len() ==> !predictions[b as int]
}

/// Where a run that ends at `b` starts.
proof fn lemma_start_of_run(predictions: Seq<bool>, a: nat, b: nat)
    requires
        is_speech_run(predictions, a, b),
    ensures
        run_ends(predictions, b),
        run_start(predictions, b) == a,
{
    assert(predictions[b - 1]);
    law_run(predictions, b);
    let start = run_start(predictions, b);
    if start < a {
        assert(predictions[a - 1]);
    }
    if start > a {
        assert(predictions[start - 1]);
    }
}

/// Where frames take whole milliseconds, every run of speech that lasts at least `min_ms` is a
/// segment, from the start of its first frame to the end of its last, and none other is.
#[verifier::rlimit(40)]
pub proof fn law_segments_in_whole_milliseconds(
    predictions: Seq<bool>,
    length: nat,
    min_ms: u64,
    segment: Segment,
)
    requires
        length > 0,
        predictions.len() * length <= exact_limit(),
    ensures
        segments_until(
            predictions,
            from_int(Format::Double, length as int),
            min_ms,
            predictions.len(),
        ).contains(segment) <==> exists|a: nat, b: nat|
            {
                &&& #[trigger] is_speech_run(predictions, a, b)
                &&& segment.start_ms == a * length
                &&& segment.end_ms == b * length
                &&& (b - a) * length >= min_ms
            },
{
    let n = predictions.len();
    let m = from_int(Format::Double, length as int);
    let segments = segments_until(predictions, m, min_ms, n);
    assert forall|f: nat| f <= n implies #[trigger] boundary_ms(m, f) == f * length by {
        assert(f * length <= n * length && f <= n * length) by (nonlinear_arith)
            requires
                f <= n,
                length > 0,
        ;
        assert(f > 0 ==> length <= f * length) by (nonlinear_arith)
            requires
                f >= 0,
                length > 0,
        ;
        if f > 0 {
            law_boundaries_are_exact(length, f);
        } else {
            lemma_first_boundary(length);
        }
    }
    if segments.contains(segment) {
        let k = choose|k: int| 0 <= k < segments.len() && segments[k] == segment;
        law_segments_are_runs(predictions, m, min_ms, n, k);
        let b = choose|end: nat|
            {
                &&& end <= n
                &&& #[trigger] run_ends(predictions, end)
                &&& segment == stretch(m, run_start(predictions, end), end)
            };
        law_run(predictions, b);
        let a = run_start(predictions, b);
        assert(is_speech_run(predictions, a, b));
        assert(b * length - a * length == (b - a) * length && b * length >= a * length)
            by (nonlinear_arith)
            requires
                a < b,
                length > 0,
        ;
        assert(boundary_ms(m, a) == a * length && boundary_ms(m, b) == b * length);
    }
    if exists|a: nat, b: nat|
        {
            &&& #[trigger] is_speech_run(predictions, a, b)
            &&& segment.start_ms == a * length
            &&& segment.end_ms == b * length
            &&& (b - a) * length >= min_ms
        } {
        let (a, b) = choose|a: nat, b: nat|
            {
                &&& #[trigger] is_speech_run(predictions, a, b)
                &&& segment.start_ms == a * length
                &&& segment.end_ms == b * length
                &&& (b - a) * length >= min_ms
            };
        lemma_start_of_run(predictions, a, b);
        assert(b * length - a * length == (b - a) * length && b * length >= a * length)
            by (nonlinear_arith)
            requires
                a < b,
                length > 0,
        ;
        assert(boundary_ms(m, a) == a * length && boundary_ms(m, b) == b * length);
        assert(segment == stretch(m, a, b));
        law_long_runs_are_segments(predictions, m, min_ms, n, b);
    }
}

/// The first frame starts at once.
proof fn lemma_first_boundary(length: nat)
    ensures
        boundary_ms(from_int(Format::Double, length as int), 0) == 0,
{
    let d = Format::Double;
    let one = d.one();
    lemma_pow2_pos(d.scale());
    lemma_mul_basics(one as int);
    let m = from_int(d, length as int);
    lemma_mul_basics(m.mag() as int);
    lemma_rounded_zero(d, false, one);
    lemma_fundamental_div_mod_converse(one as int, (2 * one) as int, 0, one as int);
    if length > 0 {
        crate::float::laws::lemma_whole_is_positive(d, length);
    }
}

/// With frames of 16 milliseconds: a run of speech from frame `a` to frame `b` is a segment exactly
/// when it lasts long enough, and then from `16 a` to `16 b`.
pub proof fn law_long_speech_is_a_segment(predictions: Seq<bool>, min_ms: u64, a: nat, b: nat)
    requires
        is_speech_run(predictions, a, b),
        predictions.len() * 16 <= exact_limit(),
    ensures
        16 * (b - a) >= min_ms <==> segments_until(
            predictions,
            frame_length(),
            min_ms,
            predictions.len(),
        ).contains(Segment { start_ms: (16 * a) as u64, end_ms: (16 * b) as u64 }),
{
    law_frame_is_sixteen_ms();
    let segment = Segment { start_ms: (16 * a) as u64, end_ms: (16 * b) as u64 };
    law_segments_in_whole_milliseconds(predictions, 16, min_ms, segment);
    if 16 * (b - a) >= min_ms {
        assert(is_speech_run(predictions, a, b));
    }
}

/// With frames of 16 milliseconds: every segment lasts at least as long as is asked for.
pub proof fn law_segments_last(predictions: Seq<bool>, min_ms: u64, k: int)
    requires
        predictions.len() * 16 <= exact_limit(),
        0 <= k < segments_until(predictions, frame_length(), min_ms, predictions.len()).len(),
    ensures
        ({
            let segment = segments_until(
                predictions,
                frame_length(),
                min_ms,
                predictions.len(),
            )[k];
            &&& segment.end_ms - segment.start_ms >= min_ms
            &&& segment.end_ms > segment.start_ms
            &&& segment.end_ms <= 16 * predictions.len()
        }),
{
    law_frame_is_sixteen_ms();
    let segments = segments_until(predictions, frame_length(), min_ms, predictions.len());
    law_segments_in_whole_milliseconds(predictions, 16, min_ms, segments[k]);
    assert(segments.contains(segments[k]));
}

} // verus!
