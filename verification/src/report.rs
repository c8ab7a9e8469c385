//! What a benchmark tells of each recording and of all of them.

use crate::engine::{frame_length, frame_ms, MIN_SEGMENT_MS, SAMPLE_RATE};
use crate::float::binary32::Binary32;
use crate::float::binary64::Binary64;
use crate::float::model::{from_int, largest, mean, product, quotient, total, Float, Format};
use crate::metrics::{
    bool_frames_to_segments, compute_classification, delays, false_negatives, false_positives,
    frame_labels, harmonic, is_speech_frame, onset_latency, segments_until, share, true_negatives,
    true_positives, Annotation, ClassificationMetrics, LatencyStats, Segment, SpeechInterval,
};
use crate::monitor::ResourceSummary;
use crate::signal::{count_flags, count_set};
use vstd::prelude::*;

verus! {

/// What is told of one recording.
#[derive(Clone, Debug)]
pub struct BenchRow {
    pub file: String,
    pub dataset: String,
    pub snr_db: Option<Binary32>,
    pub duration_ms: u64,
    pub frames: usize,
    pub speech_frames: u64,
    pub speech_percentage: Binary32,
    pub precision: Binary32,
    pub recall: Binary32,
    pub f1_score: Binary32,
    pub accuracy: Binary32,
    pub tp: u64,
    pub fp: u64,
    pub fn_count: u64,
    pub tn: u64,
    pub avg_onset_latency_ms: Option<Binary64>,
    pub avg_abs_onset_latency_ms: Option<Binary64>,
    pub resource_samples: usize,
    pub avg_cpu_percent: Binary32,
    pub max_cpu_percent: Binary32,
    pub avg_ram_mb: Binary64,
    pub max_ram_mb: Binary64,
}

/// The share of speech frames in percent.
pub open spec fn percentage(predictions: Seq<bool>) -> Float {
    let s = Format::Single;
    if predictions.len() == 0 {
        Float::zero()
    } else {
        product(
            s,
            quotient(
                s,
                from_int(s, count_set(predictions) as int),
                from_int(s, predictions.len() as int),
            ),
            from_int(s, 100),
        )
    }
}

/// The frames that an annotation marks as speech.
pub open spec fn expected_labels(frames: nat, speech: Seq<SpeechInterval>) -> Seq<bool> {
    Seq::new(frames, |i: int| is_speech_frame(frame_length(), i as nat, speech))
}

/// The segments that predictions come to.
pub open spec fn expected_segments(predictions: Seq<bool>) -> Seq<Segment> {
    segments_until(predictions, frame_length(), MIN_SEGMENT_MS, predictions.len())
}

/// How long a recording lasts, in whole milliseconds.
pub fn duration_ms(samples: usize) -> (r: u64)
    requires
        samples * 1000 <= u64::MAX,
    ensures
        r == samples * 1000 / SAMPLE_RATE as int,
        16 * r <= samples < 16 * (r + 1),
{
    let r: u64 = (samples as u64 * 1000) / SAMPLE_RATE as u64;
    assert(r == (samples * 1000) / 16_000);
    r
}

/// The share of speech frames in percent.
pub fn speech_percentage(predictions: &[bool]) -> (r: Binary32)
    ensures
        r@ == percentage(predictions@),
{
    if predictions.len() == 0 {
        proof {
            vstd::arithmetic::mul::lemma_mul_basics(Format::Single.one() as int);
        }
        return Binary32::from_u64(0);
    }
    let speech: Binary32 = Binary32::from_u64(count_flags(predictions) as u64);
    speech.over(Binary32::from_u64(predictions.len() as u64)).times(Binary32::from_u64(100))
}

/// What is told of one recording: how its predictions compare with its annotation, and what the
/// run cost.
pub fn bench_row(
    file: String,
    dataset: String,
    snr_db: Option<Binary32>,
    samples: usize,
    annotation: &Annotation,
    predictions: &[bool],
    resources: &ResourceSummary,
) -> (row: BenchRow)
    requires
        samples * 1000 <= u64::MAX,
    ensures
        row.file@ == file@,
        row.dataset@ == dataset@,
        row.snr_db == snr_db,
        row.duration_ms == samples * 1000 / SAMPLE_RATE as int,
        16 * row.duration_ms <= samples < 16 * (row.duration_ms + 1),
        row.frames == predictions@.len(),
        row.speech_frames == count_set(predictions@),
        row.speech_percentage@ == percentage(predictions@),
        ({
            let labels = expected_labels(predictions@.len(), annotation.speech@);
            &&& row.tp == true_positives(labels, predictions@)
            &&& row.fp == false_positives(labels, predictions@)
            &&& row.fn_count == false_negatives(labels, predictions@)
            &&& row.tn == true_negatives(labels, predictions@)
        }),
        row.precision@ == share(row.tp as nat, (row.tp + row.fp) as nat),
        row.recall@ == share(row.tp as nat, (row.tp + row.fn_count) as nat),
        row.f1_score@ == harmonic(row.precision@, row.recall@),
        row.accuracy@ == share(
            (row.tp + row.tn) as nat,
            (row.tp + row.fp + row.fn_count + row.tn) as nat,
        ),
        ({
            let ds = delays(
                annotation.speech@,
                expected_segments(predictions@),
                annotation.speech@.len(),
            );
            &&& row.avg_onset_latency_ms is Some <==> ds.len() > 0
            &&& row.avg_abs_onset_latency_ms is Some <==> ds.len() > 0
            &&& row.avg_onset_latency_ms matches Some(x) ==> x@ == mean(Format::Double, ds)
            &&& row.avg_abs_onset_latency_ms matches Some(x) ==> x@ == mean(
                Format::Double,
                ds.map_values(|d: Float| d.absolute()),
            )
        }),
        row.resource_samples == resources.samples,
        row.avg_cpu_percent == resources.avg_cpu_percent,
        row.max_cpu_percent == resources.max_cpu_percent,
        row.avg_ram_mb == resources.avg_ram_mb,
        row.max_ram_mb == resources.max_ram_mb,
{
    let labels: Vec<bool> = frame_labels(predictions.len(), frame_ms(), annotation);
    assert(labels@ =~= expected_labels(predictions@.len(), annotation.speech@));
    let metrics: ClassificationMetrics = compute_classification(labels.as_slice(), predictions);
    let segments: Vec<Segment> = bool_frames_to_segments(predictions, frame_ms(), MIN_SEGMENT_MS);
    let latency: Option<LatencyStats> = onset_latency(annotation, segments.as_slice());
    let (avg_onset, avg_abs_onset): (Option<Binary64>, Option<Binary64>) = match latency {
        Some(stats) => (Some(stats.avg_ms), Some(stats.avg_abs_ms)),
        None => (None, None),
    };
    BenchRow {
        file,
        dataset,
        snr_db,
        duration_ms: duration_ms(samples),
        frames: predictions.len(),
        speech_frames: count_flags(predictions) as u64,
        speech_percentage: speech_percentage(predictions),
        precision: metrics.precision,
        recall: metrics.recall,
        f1_score: metrics.f1_score,
        accuracy: metrics.accuracy,
        tp: metrics.tp,
        fp: metrics.fp,
        fn_count: metrics.fn_count,
        tn: metrics.tn,
        avg_onset_latency_ms: avg_onset,
        avg_abs_onset_latency_ms: avg_abs_onset,
        resource_samples: resources.samples,
        avg_cpu_percent: resources.avg_cpu_percent,
        max_cpu_percent: resources.max_cpu_percent,
        avg_ram_mb: resources.avg_ram_mb,
        max_ram_mb: resources.max_ram_mb,
    }
}

/// What all recordings come to.
#[derive(Clone, Copy, Debug)]
pub struct BenchSummary {
    pub avg_f1: Binary32,
    pub avg_recall: Binary32,
    pub avg_precision: Binary32,
    pub avg_cpu: Binary32,
    pub avg_ram_mb: Binary64,
    pub max_ram_mb: Binary64,
}

/// The columns of rows.
pub open spec fn f1_column(rows: Seq<BenchRow>) -> Seq<Float> {
    rows.map_values(|r: BenchRow| r.f1_score@)
}

pub open spec fn recall_column(rows: Seq<BenchRow>) -> Seq<Float> {
    rows.map_values(|r: BenchRow| r.recall@)
}

pub open spec fn precision_column(rows: Seq<BenchRow>) -> Seq<Float> {
    rows.map_values(|r: BenchRow| r.precision@)
}

pub open spec fn cpu_column(rows: Seq<BenchRow>) -> Seq<Float> {
    rows.map_values(|r: BenchRow| r.avg_cpu_percent@)
}

pub open spec fn avg_ram_column(rows: Seq<BenchRow>) -> Seq<Float> {
    rows.map_values(|r: BenchRow| r.avg_ram_mb@)
}

pub open spec fn max_ram_column(rows: Seq<BenchRow>) -> Seq<Float> {
    rows.map_values(|r: BenchRow| r.max_ram_mb@)
}

/// Averages over all recordings, and the most memory of any. `None` where there are none.
pub fn summarize_rows(rows: &[BenchRow]) -> (r: Option<BenchSummary>)
    ensures
        r is None <==> rows@.len() == 0,
        r matches Some(s) ==> {
            &&& s.avg_f1@ == mean(Format::Single, f1_column(rows@))
            &&& s.avg_recall@ == mean(Format::Single, recall_column(rows@))
            &&& s.avg_precision@ == mean(Format::Single, precision_column(rows@))
            &&& s.avg_cpu@ == mean(Format::Single, cpu_column(rows@))
            &&& s.avg_ram_mb@ == mean(Format::Double, avg_ram_column(rows@))
            &&& s.max_ram_mb@ == largest(max_ram_column(rows@))
        },
{
    if rows.len() == 0 {
        return None;
    }
    let mut f1: Binary32 = Binary32::from_u64(0);
    let mut recall: Binary32 = Binary32::from_u64(0);
    let mut precision: Binary32 = Binary32::from_u64(0);
    let mut cpu: Binary32 = Binary32::from_u64(0);
    let mut ram: Binary64 = Binary64::from_u64(0);
    let mut max_ram: Binary64 = Binary64::from_u64(0);
    let mut i: usize = 0;
    proof {
        vstd::arithmetic::mul::lemma_mul_basics(Format::Single.one() as int);
        vstd::arithmetic::mul::lemma_mul_basics(Format::Double.one() as int);
        assert(rows@.take(0) =~= Seq::<BenchRow>::empty());
    }
    while i < rows.len()
        invariant
            i <= rows@.len(),
            f1@ == total(Format::Single, f1_column(rows@.take(i as int))),
            recall@ == total(Format::Single, recall_column(rows@.take(i as int))),
            precision@ == total(Format::Single, precision_column(rows@.take(i as int))),
            cpu@ == total(Format::Single, cpu_column(rows@.take(i as int))),
            ram@ == total(Format::Double, avg_ram_column(rows@.take(i as int))),
            max_ram@ == largest(max_ram_column(rows@.take(i as int))),
        decreases rows@.len() - i,
    {
        proof {
            let before = rows@.take(i as int);
            let after = rows@.take(i + 1);
            assert(f1_column(after).drop_last() =~= f1_column(before));
            assert(recall_column(after).drop_last() =~= recall_column(before));
            assert(precision_column(after).drop_last() =~= precision_column(before));
            assert(cpu_column(after).drop_last() =~= cpu_column(before));
            assert(avg_ram_column(after).drop_last() =~= avg_ram_column(before));
            assert(max_ram_column(after).drop_last() =~= max_ram_column(before));
        }
        f1 = f1.plus(rows[i].f1_score);
        recall = recall.plus(rows[i].recall);
        precision = precision.plus(rows[i].precision);
        cpu = cpu.plus(rows[i].avg_cpu_percent);
        ram = ram.plus(rows[i].avg_ram_mb);
        max_ram = max_ram.max(rows[i].max_ram_mb);
        i = i + 1;
    }
    assert(rows@.take(i as int) =~= rows@);
    let n: Binary32 = Binary32::from_u64(rows.len() as u64);
    Some(
        BenchSummary {
            avg_f1: f1.over(n),
            avg_recall: recall.over(n),
            avg_precision: precision.over(n),
            avg_cpu: cpu.over(n),
            avg_ram_mb: ram.over(Binary64::from_u64(rows.len() as u64)),
            max_ram_mb: max_ram,
        },
    )
}

/// What a benchmark must reach. What is not given is not asked for.
#[derive(Clone, Copy, Debug)]
pub struct QualityGates {
    pub min_f1: Option<Binary32>,
    pub min_recall: Option<Binary32>,
    pub min_precision: Option<Binary32>,
    pub max_avg_cpu_percent: Option<Binary32>,
    pub max_max_ram_mb: Option<Binary64>,
}

/// What a benchmark failed to reach.
#[derive(Clone, Copy, PartialEq, Eq, Structural, Debug)]
pub enum GateFailure {
    F1,
    Recall,
    Precision,
    Cpu,
    Ram,
}

/// Whether a value is below what is asked for.
pub open spec fn falls_short(value: Float, min: Option<Float>) -> bool {
    min matches Some(m) && value.lt(m)
}

/// Whether a value is above what is allowed.
pub open spec fn exceeds(value: Float, max: Option<Float>) -> bool {
    max matches Some(m) && m.lt(value)
}

pub open spec fn bound32(bound: Option<Binary32>) -> Option<Float> {
    match bound {
        Some(b) => Some(b@),
        None => None,
    }
}

pub open spec fn bound64(bound: Option<Binary64>) -> Option<Float> {
    match bound {
        Some(b) => Some(b@),
        None => None,
    }
}

/// Which gate fails first, if any does.
pub open spec fn first_failure(summary: BenchSummary, gates: QualityGates) -> Option<GateFailure> {
    if falls_short(summary.avg_f1@, bound32(gates.min_f1)) {
        Some(GateFailure::F1)
    } else if falls_short(summary.avg_recall@, bound32(gates.min_recall)) {
        Some(GateFailure::Recall)
    } else if falls_short(summary.avg_precision@, bound32(gates.min_precision)) {
        Some(GateFailure::Precision)
    } else if exceeds(summary.avg_cpu@, bound32(gates.max_avg_cpu_percent)) {
        Some(GateFailure::Cpu)
    } else if exceeds(summary.max_ram_mb@, bound64(gates.max_max_ram_mb)) {
        Some(GateFailure::Ram)
    } else {
        None
    }
}

fn short_of(value: Binary32, min: Option<Binary32>) -> (r: bool)
    ensures
        r == falls_short(value@, bound32(min)),
{
    match min {
        Some(m) => value.below(m),
        None => false,
    }
}

/// Checks the gates one after another, and tells the first that fails.
pub fn check_gates(summary: &BenchSummary, gates: &QualityGates) -> (r: Result<(), GateFailure>)
    ensures
        match first_failure(*summary, *gates) {
            None => r is Ok,
            Some(failure) => r == Err::<(), GateFailure>(failure),
        },
{
    if short_of(summary.avg_f1, gates.min_f1) {
        return Err(GateFailure::F1);
    }
    if short_of(summary.avg_recall, gates.min_recall) {
        return Err(GateFailure::Recall);
    }
    if short_of(summary.avg_precision, gates.min_precision) {
        return Err(GateFailure::Precision);
    }
    if let Some(max) = gates.max_avg_cpu_percent {
        if max.below(summary.avg_cpu) {
            return Err(GateFailure::Cpu);
        }
    }
    if let Some(max) = gates.max_max_ram_mb {
        if max.below(summary.max_ram_mb) {
            return Err(GateFailure::Ram);
        }
    }
    Ok(())
}

} // verus!
