//! What a benchmark tells and asks for, in whole numbers and field by field.

use crate::audio::{is_refused, tells_fault, WavError, WavFormat};
use crate::float::arith::lemma_format;
use crate::float::binary32::Binary32;
use crate::float::binary64::Binary64;
use crate::float::laws::{
    law_rounding_error, law_small_whole_is_exact, law_small_wholes_divide, lemma_exact_product,
    lemma_rounded_order, lemma_rounded_scale,
};
use crate::float::model::{from_int, magnitude, mean, nearest, rounded, Float, Format};
use crate::float::ops::lemma_rounded_zero;
use crate::laws::averages::{
    are_amounts, are_wholes, exact_sum, law_mean_is_accurate, law_mean_of_wholes, size_of_all,
    sum_of,
};
use crate::laws::frames::{law_count_is_of_set_flags, speech_among};
use crate::laws::labels::{exact_limit, law_frame_is_speech_by_half, shared_ms};
use crate::laws::segments::{is_speech_run, law_long_speech_is_a_segment, law_segments_last};
use crate::metrics::{Segment, SpeechInterval};
use crate::monitor::{cpu_shares, megabytes, ram_sizes, ResourceSample, ResourceSummary};
use crate::report::{
    avg_ram_column, cpu_column, expected_labels, expected_segments, f1_column, first_failure,
    max_ram_column, percentage, precision_column, recall_column, BenchRow, BenchSummary,
    GateFailure, QualityGates,
};
use vstd::arithmetic::mul::lemma_mul_basics;
use vstd::arithmetic::power2::{lemma2_to64, lemma2_to64_rest, lemma_pow2_pos};
use vstd::prelude::*;

verus! {

/// The share of speech in percent: times the number of frames, it is a hundred times the number of
/// frames that are speech, up to one part in a million.
pub proof fn law_percentage_is_accurate(predictions: Seq<bool>)
    requires
        0 < predictions.len() <= 0x100_0000,
    ensures
        ({
            let p = percentage(predictions);
            let exact = 100 * (speech_among(predictions) * Format::Single.one());
            &&& p is Finite && !p.neg()
            &&& 1_000_000 * magnitude(p.mag() * predictions.len() - exact) <= exact
        }),
{
    let s = Format::Single;
    let one = s.one();
    let n = predictions.len();
    let c = speech_among(predictions);
    lemma_format(s);
    lemma2_to64();
    lemma2_to64_rest();
    lemma_pow2_pos(s.scale());
    law_count_is_of_set_flags(predictions);
    law_small_wholes_divide(s, c, n);
    law_small_whole_is_exact(s, 100);
    let q = rounded(c * one, n, 24);
    assert((c * one) * 1 <= one * n) by (nonlinear_arith)
        requires
            c <= n,
    ;
    lemma_rounded_order(c * one, n, one, 1, 24);
    crate::float::laws::lemma_one_is_exact(s);
    assert(q * (100 * one) == (100 * q) * one) by (nonlinear_arith);
    lemma_rounded_scale(100 * q, 1, one, 24);
    lemma_exact_product(s, 100, s.scale());
    lemma_rounded_order(100 * q, 1, 100 * one, 1, 24);
    let p = rounded(100 * q, 1, 24);
    assert(percentage(predictions) == (Float::Finite { neg: false, mag: p }));
    law_rounding_error(c * one, n, 24);
    law_rounding_error(100 * q, 1, 24);
    lemma_mul_basics(p as int);
    if c == 0 {
        lemma_mul_basics(one as int);
        lemma_rounded_zero(s, false, n);
        lemma_rounded_zero(s, false, 1);
        lemma_mul_basics(n as int);
    } else {
        crate::float::rounding::lemma_pow2_le(48, 149);
        let x = c * one;
        assert(x >= one) by (nonlinear_arith)
            requires
                x == c * one,
                c >= 1,
                one >= 0,
        ;
        let e = magnitude(q * n - x);
        assert(0x100_0000 * e <= x);
        let d = magnitude(p - 100 * q);
        assert(0x100_0000 * d <= 100 * q);
        assert(1_000_000 * (p * n - 100 * x) <= 100 * x && 1_000_000 * (100 * x - p * n) <= 100 * x)
            by (nonlinear_arith)
            requires
                0x100_0000 * (q * n - x) <= x,
                0x100_0000 * (x - q * n) <= x,
                0x100_0000 * (p - 100 * q) <= 100 * q,
                0x100_0000 * (100 * q - p) <= 100 * q,
                n > 0,
                x >= 0,
        ;
    }
}

/// The labels of a recording: a frame is speech exactly when an annotated interval shares at least
/// eight of its 16 milliseconds.
pub proof fn law_labels_of_recording(frames: nat, speech: Seq<SpeechInterval>, i: int)
    requires
        0 <= i < frames,
        frames * 16 <= exact_limit(),
        forall|k: int|
            0 <= k < speech.len() ==> (#[trigger] speech[k]).start_ms <= exact_limit()
                && speech[k].end_ms <= exact_limit(),
    ensures
        expected_labels(frames, speech).len() == frames,
        expected_labels(frames, speech)[i] <==> exists|k: int|
            0 <= k < speech.len() && shared_ms(16, i as nat, #[trigger] speech[k]) >= 8,
{
    law_frame_is_speech_by_half(i as nat, speech);
}

/// The segments of a recording: a run of speech from frame `a` to frame `b` is one, from `16 a` to
/// `16 b`, exactly when it lasts at least 200 milliseconds, and every segment lasts so long.
pub proof fn law_segments_of_recording(predictions: Seq<bool>, a: nat, b: nat, k: int)
    requires
        predictions.len() * 16 <= exact_limit(),
    ensures
        is_speech_run(predictions, a, b) ==> (16 * (b - a) >= 200 <==> expected_segments(
            predictions,
        ).contains(Segment { start_ms: (16 * a) as u64, end_ms: (16 * b) as u64 })),
        0 <= k < expected_segments(predictions).len() ==> expected_segments(predictions)[k].end_ms
            - expected_segments(predictions)[k].start_ms >= 200,
{
    if is_speech_run(predictions, a, b) {
        law_long_speech_is_a_segment(predictions, 200, a, b);
    }
    if 0 <= k < expected_segments(predictions).len() {
        law_segments_last(predictions, 200, k);
    }
}

/// What is averaged over all recordings: each column holds, row by row, what the row tells.
pub proof fn law_columns_hold_the_rows(rows: Seq<BenchRow>, i: int)
    requires
        0 <= i < rows.len(),
    ensures
        f1_column(rows).len() == rows.len() && f1_column(rows)[i] == rows[i].f1_score@,
        recall_column(rows).len() == rows.len() && recall_column(rows)[i] == rows[i].recall@,
        precision_column(rows).len() == rows.len() && precision_column(rows)[i]
            == rows[i].precision@,
        cpu_column(rows).len() == rows.len() && cpu_column(rows)[i] == rows[i].avg_cpu_percent@,
        avg_ram_column(rows).len() == rows.len() && avg_ram_column(rows)[i] == rows[i].avg_ram_mb@,
        max_ram_column(rows).len() == rows.len() && max_ram_column(rows)[i] == rows[i].max_ram_mb@,
{
}

/// An average over all recordings is the sum of what the rows tell, divided by how many they are,
/// up to rounding: every row counts.
pub proof fn law_average_f1_counts_every_row(rows: Seq<BenchRow>)
    requires
        0 < rows.len() <= 0x40_0000,
        are_amounts(Seq::new(rows.len(), |i: int| rows[i].f1_score@)),
        4 * exact_sum(Seq::new(rows.len(), |i: int| rows[i].f1_score@)) < Format::Single.limit(),
    ensures
        ({
            let avg = mean(Format::Single, f1_column(rows));
            let all = exact_sum(Seq::new(rows.len(), |i: int| rows[i].f1_score@));
            &&& avg is Finite && !avg.neg()
            &&& 0x100_0000 * magnitude(avg.mag() * rows.len() - all) <= (2 * rows.len() + 2) * all
                + 0x100_0000 * rows.len()
        }),
{
    lemma2_to64();
    assert(f1_column(rows) =~= Seq::new(rows.len(), |i: int| rows[i].f1_score@));
    law_mean_is_accurate(Format::Single, f1_column(rows));
}

/// Whether a value is less than what is asked for, if anything is.
pub open spec fn is_less(value: Binary32, min: Option<Binary32>) -> bool {
    min is Some && value@.lt(min.unwrap()@)
}

/// Whether a value is more than what is allowed, if there is a limit.
pub open spec fn is_more(value: Binary32, max: Option<Binary32>) -> bool {
    max is Some && max.unwrap()@.lt(value@)
}

/// Whether a value is more than what is allowed, if there is a limit.
pub open spec fn is_more_memory(value: Binary64, max: Option<Binary64>) -> bool {
    max is Some && max.unwrap()@.lt(value@)
}

/// What fails is told in the order F1, recall, precision, processor, memory: each exactly when it
/// fails and nothing before it does.
pub proof fn law_first_failure_is_told(summary: BenchSummary, gates: QualityGates)
    ensures
        ({
            let f1 = is_less(summary.avg_f1, gates.min_f1);
            let recall = is_less(summary.avg_recall, gates.min_recall);
            let precision = is_less(summary.avg_precision, gates.min_precision);
            let cpu = is_more(summary.avg_cpu, gates.max_avg_cpu_percent);
            let ram = is_more_memory(summary.max_ram_mb, gates.max_max_ram_mb);
            let told = first_failure(summary, gates);
            &&& told == Some(GateFailure::F1) <==> f1
            &&& told == Some(GateFailure::Recall) <==> !f1 && recall
            &&& told == Some(GateFailure::Precision) <==> !f1 && !recall && precision
            &&& told == Some(GateFailure::Cpu) <==> !f1 && !recall && !precision && cpu
            &&& told == Some(GateFailure::Ram) <==> !f1 && !recall && !precision && !cpu && ram
            &&& told is None <==> !f1 && !recall && !precision && !cpu && !ram
        }),
{
}

/// Megabytes are bytes divided by 2^20, up to rounding.
pub proof fn law_megabytes_are_accurate(bytes: Float)
    requires
        bytes is Finite && !bytes.neg(),
        4 * bytes.mag() < Format::Double.limit(),
    ensures
        megabytes(bytes) is Finite && !megabytes(bytes).neg(),
        0x4_0000_0000_0000 * magnitude(0x10_0000 * megabytes(bytes).mag() - bytes.mag())
            <= bytes.mag() + 0x4_0000_0000_0000 * 0x10_0000,
{
    let d = Format::Double;
    let one = d.one();
    let x = bytes.mag();
    lemma_format(d);
    lemma2_to64();
    lemma2_to64_rest();
    lemma_pow2_pos(d.scale());
    law_small_whole_is_exact(d, 1024);
    lemma_rounded_scale(x, 1024, one, 53);
    let y = rounded(x, 1024, 53);
    law_rounding_error(x, 1024, 53);
    lemma_rounded_scale(y, 1024, one, 53);
    let z = rounded(y, 1024, 53);
    law_rounding_error(y, 1024, 53);
    crate::float::rounding::lemma_pow2_le(12, 53 + 2045);
    assert(y < d.limit() && z < d.limit());
    assert(megabytes(bytes) == (Float::Finite { neg: false, mag: z }));
}

/// The average memory of measurements, in bytes: the sum of all, divided by how many they are,
/// rounded once.
pub proof fn law_average_memory(samples: Seq<ResourceSample>)
    requires
        0 < samples.len() <= exact_limit(),
        sum_of(Seq::new(samples.len(), |i: int| samples[i].ram_bytes as int)) <= exact_limit(),
    ensures
        ({
            let all = sum_of(Seq::new(samples.len(), |i: int| samples[i].ram_bytes as int));
            &&& all >= 0
            &&& mean(Format::Double, ram_sizes(samples)) == nearest(
                Format::Double,
                false,
                (all * Format::Double.one()) as nat,
                samples.len(),
            )
        }),
{
    let ws = Seq::new(samples.len(), |i: int| samples[i].ram_bytes as int);
    lemma2_to64();
    lemma2_to64_rest();
    assert(are_wholes(Format::Double, ram_sizes(samples), ws));
    lemma_sizes(ws);
    law_mean_of_wholes(Format::Double, ram_sizes(samples), ws);
}

/// Whole numbers that are not negative are as large as their sum.
proof fn lemma_sizes(ws: Seq<int>)
    requires
        forall|i: int| 0 <= i < ws.len() ==> 0 <= #[trigger] ws[i],
    ensures
        size_of_all(ws) == sum_of(ws),
    decreases ws.len(),
{
    if ws.len() > 0 {
        let rest = ws.drop_last();
        assert forall|i: int| 0 <= i < rest.len() implies 0 <= #[trigger] rest[i] by {
            assert(0 <= ws[i]);
        }
        lemma_sizes(rest);
        assert(0 <= ws[ws.len() - 1]);
    }
}

/// What measurements tell, one by one.
pub proof fn law_measurements_are_all_told(samples: Seq<ResourceSample>, i: int)
    requires
        0 <= i < samples.len(),
    ensures
        cpu_shares(samples).len() == samples.len() && cpu_shares(samples)[i]
            == samples[i].cpu_percent@,
        ram_sizes(samples).len() == samples.len() && ram_sizes(samples)[i] == from_int(
            Format::Double,
            samples[i].ram_bytes as int,
        ),
{
}

/// Where nothing was measured, zero is told of everything.
pub proof fn law_nothing_is_told_as_zero(summary: ResourceSummary)
    ensures
        summary.is_nothing() <==> {
            &&& summary.samples == 0
            &&& summary.avg_cpu_percent@ == from_int(Format::Single, 0)
            &&& summary.max_cpu_percent@ == from_int(Format::Single, 0)
            &&& summary.avg_ram_mb@ == from_int(Format::Double, 0)
            &&& summary.max_ram_mb@ == from_int(Format::Double, 0)
        },
{
    lemma_mul_basics(Format::Single.one() as int);
    lemma_mul_basics(Format::Double.one() as int);
}

/// One format is accepted: one channel, 16 kHz, 16-bit integers. Of any other, the rate is told if
/// it is wrong, else the number of channels if that is, else the encoding.
pub proof fn law_one_format_is_accepted(format: WavFormat, error: WavError)
    ensures
        !is_refused(format) <==> format == (WavFormat {
            channels: 1,
            sample_rate: 16_000,
            bits_per_sample: 16,
            integer: true,
        }),
        tells_fault(error, format) <==> {
            ||| error is SampleRate && error->SampleRate_0 == format.sample_rate
                && format.sample_rate != 16_000
            ||| error is Channels && error->Channels_0 == format.channels && format.channels != 1
                && format.sample_rate == 16_000
            ||| error is Encoding && format.sample_rate == 16_000 && format.channels == 1 && !(
            format.integer && format.bits_per_sample == 16)
        },
{
}

} // verus!
