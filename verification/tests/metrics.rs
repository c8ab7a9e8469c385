//! Labels, classification, segments and latency.

use vad_core::engine::frame_ms;
use vad_core::float::binary32::Binary32;
use vad_core::float::binary64::Binary64;
use vad_core::metrics::{
    bool_frames_to_segments, compute_classification, frame_labels, onset_latency, Annotation,
    LatencyStats, Segment, SpeechInterval,
};

fn double(x: f64) -> Binary64 {
    Binary64::from_bits(x.to_bits())
}

fn to_f64(x: Binary64) -> f64 {
    f64::from_bits(x.to_bits())
}

fn to_f32(x: Binary32) -> f32 {
    f32::from_bits(x.to_bits())
}

fn annotation(intervals: &[(u64, u64)]) -> Annotation {
    Annotation {
        speech: intervals
            .iter()
            .map(|&(start_ms, end_ms)| SpeechInterval { start_ms, end_ms })
            .collect(),
    }
}

fn segments(bounds: &[(u64, u64)]) -> Vec<Segment> {
    bounds.iter().map(|&(start_ms, end_ms)| Segment { start_ms, end_ms }).collect()
}

fn bounds(segments: &[Segment]) -> Vec<(u64, u64)> {
    segments.iter().map(|s| (s.start_ms, s.end_ms)).collect()
}

/// A reproducible stream of numbers.
struct Stream {
    state: u64,
}

impl Stream {
    fn next(&mut self, below: u64) -> u64 {
        self.state ^= self.state << 13;
        self.state ^= self.state >> 7;
        self.state ^= self.state << 17;
        (self.state >> 11) % below
    }

    fn flags(&mut self, n: usize, odds: u64) -> Vec<bool> {
        (0..n).map(|_| self.next(10) < odds).collect()
    }
}

#[test]
fn classification_perfect() {
    let labels = vec![false, true, true, false];
    let preds = vec![false, true, true, false];

    let metrics = compute_classification(&labels, &preds);

    assert_eq!(metrics.tp, 2);
    assert_eq!(metrics.fp, 0);
    assert_eq!(metrics.fn_count, 0);
    assert_eq!(metrics.tn, 2);
    assert!(to_f32(metrics.f1_score) > 0.99);
    assert_eq!(to_f32(metrics.precision), 1.0);
    assert_eq!(to_f32(metrics.recall), 1.0);
    assert_eq!(to_f32(metrics.f1_score), 1.0);
    assert_eq!(to_f32(metrics.accuracy), 1.0);
}

#[test]
fn segments_min_duration() {
    let preds = vec![true, true, true, false, true];
    let segments = bool_frames_to_segments(&preds, double(16.0), 32);

    assert_eq!(segments.len(), 1);
    assert_eq!(segments[0].start_ms, 0);
    assert_eq!(segments[0].end_ms, 48);
}

#[test]
fn classification_counts_each_kind() {
    let labels = [true, true, true, false, false, false, false, true];
    let preds = [true, true, false, true, false, false, false, false];
    let m = compute_classification(&labels, &preds);
    assert_eq!((m.tp, m.fp, m.fn_count, m.tn), (2, 1, 2, 3));
    assert_eq!(to_f32(m.precision), 2.0f32 / 3.0);
    assert_eq!(to_f32(m.recall), 0.5);
    let p = 2.0f32 / 3.0;
    assert_eq!(to_f32(m.f1_score), 2.0 * p * 0.5 / (p + 0.5));
    assert_eq!(to_f32(m.accuracy), 0.625);
}

#[test]
fn classification_of_unequal_lengths() {
    let m = compute_classification(&[true, false], &[true, true, false, true]);
    assert_eq!((m.tp, m.fp, m.fn_count, m.tn), (1, 3, 0, 0));
    assert_eq!(to_f32(m.precision), 0.25);
    assert_eq!(to_f32(m.recall), 1.0);
    assert_eq!(to_f32(m.accuracy), 0.25);
    let m = compute_classification(&[true, false, false], &[true]);
    assert_eq!((m.tp, m.fp, m.fn_count, m.tn), (1, 0, 2, 0));
    assert_eq!(to_f32(m.recall), 1.0f32 / 3.0);
}

#[test]
fn classification_of_nothing() {
    let m = compute_classification(&[], &[]);
    assert_eq!((m.tp, m.fp, m.fn_count, m.tn), (0, 0, 0, 0));
    assert_eq!(to_f32(m.precision), 0.0);
    assert_eq!(to_f32(m.recall), 0.0);
    assert_eq!(to_f32(m.f1_score), 0.0);
    assert_eq!(to_f32(m.accuracy), 0.0);
    let m = compute_classification(&[false, false], &[false, false]);
    assert_eq!(to_f32(m.f1_score), 0.0);
    assert_eq!(to_f32(m.accuracy), 1.0);
}

#[test]
fn classification_stays_within_bounds() {
    let mut stream = Stream { state: 0x1234_5678_9abc_def1 };
    for round in 0..400 {
        let n = stream.next(60) as usize;
        let m = stream.next(60) as usize;
        let labels = stream.flags(n, round % 11);
        let preds = stream.flags(m, (round * 7) % 11);
        let a = compute_classification(&labels, &preds);
        let b = compute_classification(&preds, &labels);
        assert_eq!(a.tp + a.fp + a.fn_count + a.tn, n.max(m) as u64);
        assert_eq!((a.tp, a.fp, a.fn_count, a.tn), (b.tp, b.fn_count, b.fp, b.tn));
        assert_eq!((a.precision, a.recall), (b.recall, b.precision));
        assert_eq!((a.f1_score, a.accuracy), (b.f1_score, b.accuracy));
        for rate in [a.precision, a.recall, a.f1_score, a.accuracy] {
            assert!((0.0..=1.0).contains(&to_f32(rate)));
        }
        let tp = a.tp as f32;
        let precision = if a.tp + a.fp == 0 { 0.0 } else { tp / (a.tp + a.fp) as f32 };
        let recall = if a.tp + a.fn_count == 0 { 0.0 } else { tp / (a.tp + a.fn_count) as f32 };
        let f1 = if precision + recall == 0.0 {
            0.0
        } else {
            2.0 * precision * recall / (precision + recall)
        };
        assert_eq!(to_f32(a.precision), precision);
        assert_eq!(to_f32(a.recall), recall);
        assert_eq!(to_f32(a.f1_score), f1);
    }
}

#[test]
fn counts_of_joined_recordings_add_up() {
    let mut stream = Stream { state: 0x3141_5926_5358_9793 };
    for _ in 0..100 {
        let n = stream.next(30) as usize;
        let (l1, p1) = (stream.flags(n, 5), stream.flags(n, 5));
        let (l2, p2) = (stream.flags(n / 2, 4), stream.flags(n, 6));
        let a = compute_classification(&l1, &p1);
        let b = compute_classification(&l2, &p2);
        let c = compute_classification(&[l1, l2].concat(), &[p1, p2].concat());
        assert_eq!(
            (c.tp, c.fp, c.fn_count, c.tn),
            (a.tp + b.tp, a.fp + b.fp, a.fn_count + b.fn_count, a.tn + b.tn)
        );
    }
}

#[test]
fn frame_is_speech_from_half_on() {
    // The third frame lasts from 32 to 48.
    let label = |start: u64, end: u64| frame_labels(4, frame_ms(), &annotation(&[(start, end)]));
    assert_eq!(label(32, 40), vec![false, false, true, false]);
    assert_eq!(label(32, 39), vec![false; 4]);
    assert_eq!(label(40, 48), vec![false, false, true, false]);
    assert_eq!(label(41, 48), vec![false; 4]);
    assert_eq!(label(36, 44), vec![false, false, true, false]);
    assert_eq!(label(24, 56), vec![false, true, true, true]);
    assert_eq!(label(0, 1000), vec![true; 4]);
    assert_eq!(label(48, 32), vec![false; 4]);
}

#[test]
fn frame_needs_one_interval_that_covers_half() {
    // Two intervals of four milliseconds each do not add up.
    let labels = frame_labels(1, frame_ms(), &annotation(&[(0, 4), (8, 12)]));
    assert_eq!(labels, vec![false]);
    // A long interval counts although a short one starts before it and a later one ends first.
    let labels = frame_labels(4, frame_ms(), &annotation(&[(50, 60), (0, 3), (1, 64), (2, 5)]));
    assert_eq!(labels, vec![true; 4]);
}

#[test]
fn order_of_intervals_does_not_matter() {
    let mut intervals = vec![(300, 340), (0, 20), (90, 130), (100, 250), (7, 7)];
    let expected = frame_labels(25, frame_ms(), &annotation(&intervals));
    for _ in 0..intervals.len() {
        intervals.rotate_left(1);
        assert_eq!(frame_labels(25, frame_ms(), &annotation(&intervals)), expected);
        intervals.swap(1, 3);
        assert_eq!(frame_labels(25, frame_ms(), &annotation(&intervals)), expected);
    }
    intervals.push((128, 160));
    let more = frame_labels(25, frame_ms(), &annotation(&intervals));
    assert!(expected.iter().zip(&more).all(|(&old, &new)| !old || new));
    intervals.push((350, 400));
    assert_ne!(frame_labels(25, frame_ms(), &annotation(&intervals)), expected);
}

#[test]
fn no_annotation_no_labels() {
    assert_eq!(frame_labels(3, frame_ms(), &annotation(&[])), vec![false; 3]);
    assert_eq!(frame_labels(0, frame_ms(), &annotation(&[(0, 100)])), Vec::<bool>::new());
}

#[test]
fn labels_follow_whole_milliseconds() {
    let mut stream = Stream { state: 0x0dd_ba11_cafe_f00d };
    for _ in 0..60 {
        let count = stream.next(6) as usize;
        let intervals: Vec<(u64, u64)> = (0..count)
            .map(|_| (stream.next(700), stream.next(700)))
            .collect();
        let length = 1 + stream.next(40);
        let labels = frame_labels(20, double(length as f64), &annotation(&intervals));
        for (frame, &label) in labels.iter().enumerate() {
            let start = frame as i64 * length as i64;
            let end = start + length as i64;
            let expected = intervals.iter().any(|&(s, e)| {
                2 * (end.min(e as i64) - start.max(s as i64)) >= length as i64
            });
            assert_eq!(label, expected);
        }
    }
}

#[test]
fn labels_with_odd_frame_lengths() {
    let all = annotation(&[(0, 100), (200, 300)]);
    for length in [f64::NAN, 0.0, -16.0, f64::INFINITY] {
        assert_eq!(frame_labels(3, double(length), &all), vec![false; 3]);
    }
    // The first frame has no bounds, so the whole interval counts, and half a frame is less.
    assert_eq!(frame_labels(2, double(f64::NEG_INFINITY), &all), vec![true, false]);
    assert_eq!(frame_labels(4, double(7.5), &annotation(&[(0, 11)])), vec![true, false, false, false]);
    assert_eq!(frame_labels(4, double(7.5), &annotation(&[(0, 12)])), vec![true, true, false, false]);
}

#[test]
fn segments_join_neighbours() {
    let preds = [false, true, true, false, true, false, true, true, true];
    assert_eq!(
        bounds(&bool_frames_to_segments(&preds, frame_ms(), 0)),
        vec![(16, 48), (64, 80), (96, 144)]
    );
    assert_eq!(bounds(&bool_frames_to_segments(&preds, frame_ms(), 17)), vec![(16, 48), (96, 144)]);
    assert_eq!(bounds(&bool_frames_to_segments(&preds, frame_ms(), 48)), vec![(96, 144)]);
    assert!(bool_frames_to_segments(&preds, frame_ms(), 49).is_empty());
    assert!(bool_frames_to_segments(&[], frame_ms(), 0).is_empty());
    assert!(bool_frames_to_segments(&[false; 5], frame_ms(), 0).is_empty());
}

#[test]
fn segments_round_half_away() {
    let preds = [false, true, false];
    assert_eq!(bounds(&bool_frames_to_segments(&preds, double(2.5), 0)), vec![(3, 5)]);
    assert_eq!(bounds(&bool_frames_to_segments(&preds, double(2.4), 0)), vec![(2, 5)]);
    assert_eq!(bounds(&bool_frames_to_segments(&preds, double(-3.0), 0)), vec![(0, 0)]);
    assert_eq!(bounds(&bool_frames_to_segments(&preds, double(1e300), 1)), vec![]);
    assert_eq!(
        bounds(&bool_frames_to_segments(&[true], double(1e300), 1)),
        vec![(0, u64::MAX)]
    );
}

#[test]
fn segments_are_ordered_runs() {
    let mut stream = Stream { state: 0xfeed_5eed_0123_4567 };
    for round in 0..200 {
        let n = stream.next(80) as usize;
        let preds = stream.flags(n, 3 + round % 5);
        let all = bool_frames_to_segments(&preds, frame_ms(), 0);
        for (i, &flag) in preds.iter().enumerate() {
            let start = 16 * i as u64;
            let covered = all.iter().any(|s| s.start_ms <= start && start + 16 <= s.end_ms);
            assert_eq!(flag, covered);
        }
        let long = bool_frames_to_segments(&preds, frame_ms(), 40);
        for pair in long.windows(2) {
            assert!(pair[0].end_ms + 16 <= pair[1].start_ms);
        }
        let expected: Vec<(u64, u64)> =
            bounds(&all).into_iter().filter(|(s, e)| e - s >= 40).collect();
        assert_eq!(bounds(&long), expected);
    }
}

fn latency(gt: &[(u64, u64)], found: &[(u64, u64)]) -> Option<LatencyStats> {
    onset_latency(&annotation(gt), &segments(found))
}

#[test]
fn latency_takes_the_first_that_touches() {
    let stats = latency(&[(100, 200), (500, 600)], &[(130, 180), (150, 220), (480, 620)]).unwrap();
    assert_eq!(stats.count, 2);
    assert_eq!(to_f64(stats.avg_ms), 5.0);
    assert_eq!(to_f64(stats.avg_abs_ms), 25.0);
}

#[test]
fn latency_leaves_out_what_is_missed() {
    let stats = latency(&[(100, 200), (500, 600)], &[(110, 130)]).unwrap();
    assert_eq!(stats.count, 1);
    assert_eq!(to_f64(stats.avg_ms), 10.0);
    assert!(latency(&[(100, 200)], &[(201, 300)]).is_none());
    assert!(latency(&[(100, 200)], &[(0, 99)]).is_none());
    assert!(latency(&[(100, 200)], &[]).is_none());
    assert!(latency(&[], &[(0, 99)]).is_none());
}

#[test]
fn latency_counts_touching_ends() {
    assert_eq!(to_f64(latency(&[(100, 200)], &[(200, 300)]).unwrap().avg_ms), 100.0);
    assert_eq!(to_f64(latency(&[(100, 200)], &[(0, 100)]).unwrap().avg_ms), -100.0);
    assert_eq!(to_f64(latency(&[(100, 200)], &[(0, 100)]).unwrap().avg_abs_ms), 100.0);
}

#[test]
fn latency_average_is_bounded() {
    let mut stream = Stream { state: 0xabcd_ef01_2345_6789 };
    for _ in 0..200 {
        let make = |stream: &mut Stream| -> Vec<(u64, u64)> {
            let n = stream.next(6);
            (0..n)
                .map(|_| {
                    let start = stream.next(2000);
                    (start, start + stream.next(300))
                })
                .collect()
        };
        let gt = make(&mut stream);
        let found = make(&mut stream);
        let touched: Vec<i64> = gt
            .iter()
            .filter_map(|&(s, e)| {
                found
                    .iter()
                    .find(|&&(fs, fe)| fs <= e && fe >= s)
                    .map(|&(fs, _)| fs as i64 - s as i64)
            })
            .collect();
        match latency(&gt, &found) {
            None => assert!(touched.is_empty()),
            Some(stats) => {
                assert_eq!(stats.count, touched.len());
                let n = touched.len() as f64;
                let plain: i64 = touched.iter().sum();
                let absolute: i64 = touched.iter().map(|d| d.abs()).sum();
                assert_eq!(to_f64(stats.avg_ms), plain as f64 / n);
                assert_eq!(to_f64(stats.avg_abs_ms), absolute as f64 / n);
                assert!(to_f64(stats.avg_ms).abs() <= to_f64(stats.avg_abs_ms));
            }
        }
    }
}
