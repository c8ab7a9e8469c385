//! Rows, summaries, measurements and gates.

use vad_core::float::binary32::Binary32;
use vad_core::float::binary64::Binary64;
use vad_core::metrics::{Annotation, SpeechInterval};
use vad_core::monitor::{polling_interval, summarize, ResourceSample, ResourceSummary};
use vad_core::report::{
    bench_row, check_gates, duration_ms, speech_percentage, summarize_rows, BenchRow,
    BenchSummary, GateFailure, QualityGates,
};

fn single(x: f32) -> Binary32 {
    Binary32::from_bits(x.to_bits())
}

fn double(x: f64) -> Binary64 {
    Binary64::from_bits(x.to_bits())
}

fn to_f32(x: Binary32) -> f32 {
    f32::from_bits(x.to_bits())
}

fn to_f64(x: Binary64) -> f64 {
    f64::from_bits(x.to_bits())
}

fn sample(cpu: f32, ram_bytes: u64) -> ResourceSample {
    ResourceSample { cpu_percent: single(cpu), ram_bytes }
}

#[test]
fn measurements_are_summed_up() {
    let r = summarize(&[sample(10.0, 3 << 20), sample(35.5, 1 << 20), sample(20.0, 5 << 20)]);
    assert_eq!(r.samples, 3);
    assert_eq!(to_f32(r.avg_cpu_percent), 65.5f32 / 3.0);
    assert_eq!(to_f32(r.max_cpu_percent), 35.5);
    assert_eq!(to_f64(r.avg_ram_mb), 3.0);
    assert_eq!(to_f64(r.max_ram_mb), 5.0);
    let odd = summarize(&[sample(f32::NAN, 1_234_567), sample(2.0, 7)]);
    assert!(to_f32(odd.avg_cpu_percent).is_nan());
    assert_eq!(to_f32(odd.max_cpu_percent), 2.0);
    assert_eq!(to_f64(odd.max_ram_mb), 1_234_567.0 / 1024.0 / 1024.0);
    assert_eq!(to_f64(odd.avg_ram_mb), 1_234_574.0 / 2.0 / 1024.0 / 1024.0);
}

#[test]
fn no_measurements_are_nothing() {
    for r in [summarize(&[]), ResourceSummary::default()] {
        assert_eq!(r.samples, 0);
        assert_eq!(to_f32(r.avg_cpu_percent), 0.0);
        assert_eq!(to_f32(r.max_cpu_percent), 0.0);
        assert_eq!(to_f64(r.avg_ram_mb), 0.0);
        assert_eq!(to_f64(r.max_ram_mb), 0.0);
    }
}

#[test]
fn polling_has_a_shortest_interval() {
    assert_eq!(polling_interval(0), 50_000_000);
    assert_eq!(polling_interval(49_999_999), 50_000_000);
    assert_eq!(polling_interval(50_000_001), 50_000_001);
    assert_eq!(polling_interval(200_000_000), 200_000_000);
}

#[test]
fn durations_are_cut_to_milliseconds() {
    assert_eq!(duration_ms(0), 0);
    assert_eq!(duration_ms(15), 0);
    assert_eq!(duration_ms(16), 1);
    assert_eq!(duration_ms(16_000), 1000);
    assert_eq!(duration_ms(16_015), 1000);
}

#[test]
fn percentages() {
    assert_eq!(to_f32(speech_percentage(&[])), 0.0);
    assert_eq!(to_f32(speech_percentage(&[true; 7])), 100.0);
    assert_eq!(to_f32(speech_percentage(&[true, false, false])), 1.0f32 / 3.0 * 100.0);
}

fn resources() -> ResourceSummary {
    ResourceSummary {
        samples: 4,
        avg_cpu_percent: single(12.5),
        max_cpu_percent: single(50.0),
        avg_ram_mb: double(30.0),
        max_ram_mb: double(31.5),
    }
}

fn row(predictions: &[bool], speech: &[(u64, u64)]) -> BenchRow {
    let annotation = Annotation {
        speech: speech
            .iter()
            .map(|&(start_ms, end_ms)| SpeechInterval { start_ms, end_ms })
            .collect(),
    };
    bench_row(
        "a.wav".to_string(),
        "set".to_string(),
        Some(single(5.0)),
        predictions.len() * 256,
        &annotation,
        predictions,
        &resources(),
    )
}

#[test]
fn rows_tell_everything() {
    let mut predictions = vec![false; 30];
    for flag in predictions.iter_mut().skip(5).take(15) {
        *flag = true;
    }
    let r = row(&predictions, &[(64, 304)]);
    assert_eq!((r.file.as_str(), r.dataset.as_str()), ("a.wav", "set"));
    assert_eq!(r.snr_db.map(to_f32), Some(5.0));
    assert_eq!((r.duration_ms, r.frames, r.speech_frames), (480, 30, 15));
    assert_eq!(to_f32(r.speech_percentage), 50.0);
    // Frames 4 to 18 are speech; 5 to 19 were predicted.
    assert_eq!((r.tp, r.fp, r.fn_count, r.tn), (14, 1, 1, 14));
    assert_eq!(r.tp + r.fp, r.speech_frames);
    let p = 14.0f32 / 15.0;
    assert_eq!(to_f32(r.precision), p);
    assert_eq!(to_f32(r.recall), p);
    assert_eq!(to_f32(r.f1_score), 2.0 * p * p / (p + p));
    assert_eq!(to_f32(r.accuracy), 28.0f32 / 30.0);
    assert_eq!(r.avg_onset_latency_ms.map(to_f64), Some(16.0));
    assert_eq!(r.avg_abs_onset_latency_ms.map(to_f64), Some(16.0));
    assert_eq!(r.resource_samples, 4);
    assert_eq!(to_f32(r.avg_cpu_percent), 12.5);
    assert_eq!(to_f32(r.max_cpu_percent), 50.0);
    assert_eq!(to_f64(r.avg_ram_mb), 30.0);
    assert_eq!(to_f64(r.max_ram_mb), 31.5);
}

#[test]
fn short_segments_have_no_latency() {
    let mut predictions = vec![false; 30];
    for flag in predictions.iter_mut().take(12) {
        *flag = true;
    }
    // Twelve frames last 192 ms, which is too short.
    let r = row(&predictions, &[(0, 480)]);
    assert!(r.avg_onset_latency_ms.is_none());
    assert!(r.avg_abs_onset_latency_ms.is_none());
}

#[test]
fn rows_are_averaged() {
    assert!(summarize_rows(&[]).is_none());
    let a = row(&[true, true, false, false], &[(0, 32)]);
    let b = row(&[true, true, true, true], &[(0, 32)]);
    let s = summarize_rows(&[a, b]).unwrap();
    let f = 2.0f32 * 0.5 * 1.0 / 1.5;
    assert_eq!(to_f32(s.avg_f1), (1.0 + f) / 2.0);
    assert_eq!(to_f32(s.avg_recall), 1.0);
    assert_eq!(to_f32(s.avg_precision), 0.75);
    assert_eq!(to_f32(s.avg_cpu), 12.5);
    assert_eq!(to_f64(s.avg_ram_mb), 30.0);
    assert_eq!(to_f64(s.max_ram_mb), 31.5);
}

fn summary() -> BenchSummary {
    BenchSummary {
        avg_f1: single(0.8),
        avg_recall: single(0.7),
        avg_precision: single(0.6),
        avg_cpu: single(20.0),
        avg_ram_mb: double(40.0),
        max_ram_mb: double(50.0),
    }
}

fn gates() -> QualityGates {
    QualityGates {
        min_f1: None,
        min_recall: None,
        min_precision: None,
        max_avg_cpu_percent: None,
        max_max_ram_mb: None,
    }
}

#[test]
fn gates_that_are_met_let_pass() {
    assert_eq!(check_gates(&summary(), &gates()), Ok(()));
    let exact = QualityGates {
        min_f1: Some(single(0.8)),
        min_recall: Some(single(0.7)),
        min_precision: Some(single(0.6)),
        max_avg_cpu_percent: Some(single(20.0)),
        max_max_ram_mb: Some(double(50.0)),
    };
    assert_eq!(check_gates(&summary(), &exact), Ok(()));
}

#[test]
fn each_gate_can_fail() {
    let fails = |gates: QualityGates| check_gates(&summary(), &gates);
    assert_eq!(
        fails(QualityGates { min_f1: Some(single(0.81)), ..gates() }),
        Err(GateFailure::F1)
    );
    assert_eq!(
        fails(QualityGates { min_recall: Some(single(0.71)), ..gates() }),
        Err(GateFailure::Recall)
    );
    assert_eq!(
        fails(QualityGates { min_precision: Some(single(0.61)), ..gates() }),
        Err(GateFailure::Precision)
    );
    assert_eq!(
        fails(QualityGates { max_avg_cpu_percent: Some(single(19.9)), ..gates() }),
        Err(GateFailure::Cpu)
    );
    assert_eq!(
        fails(QualityGates { max_max_ram_mb: Some(double(49.9)), ..gates() }),
        Err(GateFailure::Ram)
    );
}

#[test]
fn the_first_failing_gate_is_told() {
    let all = QualityGates {
        min_f1: None,
        min_recall: Some(single(0.9)),
        min_precision: Some(single(0.9)),
        max_avg_cpu_percent: Some(single(1.0)),
        max_max_ram_mb: Some(double(1.0)),
    };
    assert_eq!(check_gates(&summary(), &all), Err(GateFailure::Recall));
}

#[test]
fn comparisons_with_nan_do_not_fail() {
    let odd = BenchSummary { avg_cpu: single(f32::NAN), ..summary() };
    let limits = QualityGates { max_avg_cpu_percent: Some(single(1.0)), ..gates() };
    assert_eq!(check_gates(&odd, &limits), Ok(()));
}
