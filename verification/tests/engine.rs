//! The decision on each frame.

use vad_core::engine::{
    frame_ms, process_offline, process_scored, VadEngine, VoiceGate, FRAME_MS, FRAME_SIZE,
    HANGOVER_MS, HISTORY_FRAMES, MIN_SEGMENT_MS, NOISE_FLOOR_MARGIN, ONSET_RATIO, SAMPLE_RATE,
    SPEECH_ZCR_LIMIT, SUSTAIN_RATIO, VAD_THRESHOLD, WIND_RMS_THRESHOLD, WIND_ZCR_THRESHOLD,
};
use vad_core::float::binary32::Binary32;
use vad_core::signal::{
    rms, to_samples, zcr, HighPassFilter, FULL_SCALE, GREATEST_SAMPLE, HPF_ALPHA, LEAST_SAMPLE,
    NOISE_FLOOR_ALPHA,
};

fn single(x: f32) -> Binary32 {
    Binary32::from_bits(x.to_bits())
}

fn to_f32(x: Binary32) -> f32 {
    f32::from_bits(x.to_bits())
}

/// A reproducible stream of numbers.
struct Stream {
    state: u64,
}

impl Stream {
    fn next(&mut self, below: u64) -> u64 {
        self.state ^= self.state << 13;
        self.state ^= self.state >> 7;
        self.state ^= self.state << 17;
        (self.state >> 11) % below
    }
}

/// A tone of 200 Hz with the given amplitude: it crosses zero about six times in a frame.
fn tone(amplitude: f64, samples: usize) -> Vec<i16> {
    (0..samples)
        .map(|i| (amplitude * (i as f64 * 200.0 * std::f64::consts::TAU / 16_000.0).sin()) as i16)
        .collect()
}

/// Fast alternation: every sample crosses zero.
fn hiss(amplitude: i16, samples: usize) -> Vec<i16> {
    (0..samples).map(|i| if i % 2 == 0 { amplitude } else { -amplitude }).collect()
}

fn level(samples: &[i16]) -> f32 {
    let sum: f64 = samples.iter().map(|&s| s as f64 * s as f64).sum();
    (sum / samples.len() as f64).sqrt() as f32
}

fn crossings(samples: &[i16]) -> f32 {
    if samples.len() < 2 {
        return 0.0;
    }
    let n = samples.windows(2).filter(|w| (w[0] >= 0) != (w[1] >= 0)).count();
    n as f32 / samples.len() as f32
}

/// What is expected of a voice gate, in the numbers of the machine.
struct Expected {
    history: Vec<bool>,
    floor: Option<f32>,
    run: usize,
    speech: bool,
}

impl Expected {
    fn new() -> Expected {
        Expected { history: Vec::new(), floor: None, run: 0, speech: false }
    }

    fn decide(&mut self, frame: &[i16], score: f32) -> bool {
        let voiced = score >= 0.5;
        let (rate, loud) = (crossings(frame), level(frame));
        let valid = voiced && rate <= 0.25 && !(rate < 0.10 && loud > 800.0);
        self.history.push(valid);
        if self.history.len() > 10 {
            self.history.remove(0);
        }
        let count = self.history.iter().filter(|&&v| v).count();
        if !voiced {
            self.floor = Some(match self.floor {
                None => loud,
                Some(f) => f * (1.0 - 0.05) + loud * 0.05,
            });
        }
        let above = match self.floor {
            None => true,
            Some(f) => loud > f * 3.0,
        };
        self.run = if valid && above { self.run + 1 } else { 0 };
        let share = count as f32 / self.history.len() as f32;
        let needed = if self.speech { 0.4 } else { 0.6 };
        let confirmed = self.history.len() == 10 && share >= needed && self.run >= 3 && above;
        if confirmed {
            self.speech = true;
        } else if share < 0.4 {
            self.speech = false;
        }
        confirmed
    }
}

#[test]
fn constants_are_what_they_say() {
    assert_eq!(f64::from_bits(FRAME_MS), 16.0);
    assert_eq!(FRAME_MS, frame_ms().to_bits());
    assert_eq!(f64::from_bits(FRAME_MS), FRAME_SIZE as f64 * 1000.0 / SAMPLE_RATE as f64);
    assert_eq!(f32::from_bits(VAD_THRESHOLD), 0.5);
    assert_eq!(f32::from_bits(ONSET_RATIO), 0.6);
    assert_eq!(f32::from_bits(SUSTAIN_RATIO), 0.4);
    assert_eq!(f32::from_bits(NOISE_FLOOR_MARGIN), 3.0);
    assert_eq!(f32::from_bits(NOISE_FLOOR_ALPHA), 0.05);
    assert_eq!(f32::from_bits(HPF_ALPHA), 0.92);
    assert_eq!(f32::from_bits(WIND_ZCR_THRESHOLD), 0.10);
    assert_eq!(f32::from_bits(WIND_RMS_THRESHOLD), 800.0);
    assert_eq!(f32::from_bits(SPEECH_ZCR_LIMIT), 0.25);
    assert_eq!(f32::from_bits(FULL_SCALE), 32768.0);
    assert_eq!(f32::from_bits(LEAST_SAMPLE), -32768.0);
    assert_eq!(f32::from_bits(GREATEST_SAMPLE), 32767.0);
    assert_eq!((HISTORY_FRAMES, HANGOVER_MS, MIN_SEGMENT_MS), (10, 300, 200));
}

#[test]
fn loudness_of_known_frames() {
    assert_eq!(to_f32(rms(&[3, 4, 0, 0, 0])), 5.0f32.sqrt());
    assert_eq!(to_f32(rms(&[-7; 256])), 7.0);
    assert_eq!(to_f32(rms(&[i16::MIN; 256])), 32768.0);
    assert_eq!(to_f32(rms(&[0; 256])), 0.0);
    assert!(to_f32(rms(&[])).is_nan());
    let frame = tone(9000.0, 256);
    assert_eq!(to_f32(rms(&frame)), level(&frame));
}

#[test]
fn crossing_rate_of_known_frames() {
    assert_eq!(to_f32(zcr(&[])), 0.0);
    assert_eq!(to_f32(zcr(&[-5])), 0.0);
    assert_eq!(to_f32(zcr(&[1, -1])), 0.5);
    assert_eq!(to_f32(zcr(&[0, 1, 0, 2])), 0.0);
    assert_eq!(to_f32(zcr(&[-1, 0, -1, 0])), 0.75);
    assert_eq!(to_f32(zcr(&hiss(10, 256))), 255.0 / 256.0);
}

#[test]
fn filter_matches_the_formula() {
    let mut stream = Stream { state: 0x7777_1234_abcd_4321 };
    let samples: Vec<i16> = (0..600).map(|_| stream.next(65_536) as u16 as i16).collect();
    let mut filter = HighPassFilter::new();
    let (mut x_prev, mut y_prev) = (0.0f32, 0.0f32);
    for piece in samples.chunks(200) {
        let mut out = vec![single(1.0); 200];
        filter.process(piece, &mut out);
        let ints = to_samples(&out);
        for (i, &s) in piece.iter().enumerate() {
            let x = s as f32 / 32768.0;
            let y = 0.92 * (y_prev + x - x_prev);
            x_prev = x;
            y_prev = y;
            assert_eq!(to_f32(out[i]), y);
            assert_eq!(ints[i], (y * 32768.0).clamp(-32768.0, 32767.0) as i16);
        }
    }
}

#[test]
fn filter_fills_up_with_zeros() {
    let mut filter = HighPassFilter::new();
    let mut out = vec![single(9.0); 5];
    filter.process(&[16_384, 0], &mut out);
    assert_eq!(to_f32(out[0]), 0.92 * 0.5);
    assert!(out[2..].iter().all(|&y| to_f32(y) == 0.0));
    let mut short = vec![single(9.0); 1];
    filter.reset();
    filter.process(&[16_384, -3, 7], &mut short);
    assert_eq!(to_f32(short[0]), 0.92 * 0.5);
}

#[test]
fn filter_keeps_silence() {
    let mut filter = HighPassFilter::new();
    let mut out = vec![single(9.0); 64];
    filter.process(&[0; 64], &mut out);
    assert_eq!(to_samples(&out), vec![0i16; 64]);
}

#[test]
fn loud_values_are_clipped() {
    let values = vec![single(2.0), single(-2.0), single(0.5), single(f32::NAN), single(-0.00001)];
    assert_eq!(to_samples(&values), vec![32_767, -32_768, 16_384, 0, 0]);
}

#[test]
fn nothing_is_confirmed_before_ten_frames() {
    let samples = tone(600.0, FRAME_SIZE * 14);
    let decisions = process_scored(&samples, &[single(0.9); 14]);
    let mut expected = vec![false; 9];
    expected.extend(vec![true; 5]);
    assert_eq!(decisions, expected);
}

#[test]
fn low_scores_are_never_confirmed() {
    let samples = tone(600.0, FRAME_SIZE * 20);
    assert_eq!(process_scored(&samples, &[single(0.49999); 20]), vec![false; 20]);
    assert_eq!(process_scored(&samples, &[single(f32::NAN); 20]), vec![false; 20]);
}

#[test]
fn wind_and_hiss_are_never_confirmed() {
    // Loud and slow: wind.
    let wind = tone(9_000.0, FRAME_SIZE * 20);
    assert_eq!(process_scored(&wind, &[single(1.0); 20]), vec![false; 20]);
    let noise = hiss(300, FRAME_SIZE * 20);
    assert_eq!(process_scored(&noise, &[single(1.0); 20]), vec![false; 20]);
}

#[test]
fn silence_is_not_confirmed_once_the_floor_is_known() {
    let silence = vec![0i16; FRAME_SIZE * 20];
    let mut scores = vec![single(1.0); 20];
    scores[0] = single(0.0);
    assert_eq!(process_scored(&silence, &scores), vec![false; 20]);
}

#[test]
fn six_of_ten_begin_and_four_sustain() {
    let samples = tone(600.0, FRAME_SIZE * 20);
    // Quiet frames would raise the floor, so the unvoiced frames are the invalid ones: hiss.
    let mixed = |voiced: &[bool]| -> Vec<bool> {
        let mut all: Vec<i16> = Vec::new();
        for (i, &v) in voiced.iter().enumerate() {
            if v {
                all.extend_from_slice(&samples[i * FRAME_SIZE..(i + 1) * FRAME_SIZE]);
            } else {
                all.extend(hiss(300, FRAME_SIZE));
            }
        }
        process_scored(&all, &vec![single(0.9); voiced.len()])
    };
    let five = [false, false, true, true, false, false, false, true, true, true];
    assert!(!mixed(&five)[9]);
    let six = [false, true, true, true, false, false, false, true, true, true];
    assert!(mixed(&six)[9]);
    // After that, four are enough, if three of them come in a row.
    let mut on = six.to_vec();
    on.extend([false, false, false, false, true, true, true]);
    let decided = mixed(&on);
    assert_eq!(decided[16], on[7..17].iter().filter(|&&v| v).count() >= 4);
    assert!(decided[16]);
    assert!(!decided[15]);
}

#[test]
fn decisions_match_the_rules() {
    let mut stream = Stream { state: 0x5151_a2a2_b3b3_c4c4 };
    for _ in 0..12 {
        let mut gate = VoiceGate::new();
        let mut expected = Expected::new();
        for _ in 0..60 {
            let frame: Vec<i16> = match stream.next(6) {
                0 => vec![0; FRAME_SIZE],
                1 => hiss(stream.next(900) as i16, FRAME_SIZE),
                2 => tone(stream.next(20_000) as f64, FRAME_SIZE),
                _ => tone(stream.next(900) as f64, FRAME_SIZE),
            };
            let score = match stream.next(5) {
                0 => 0.1,
                1 => 0.5,
                _ => stream.next(1000) as f32 / 999.0,
            };
            let result = gate.decide(&frame, single(score));
            assert_eq!(result.confirmed_voiced, expected.decide(&frame, score));
            assert_eq!(to_f32(result.rms), level(&frame));
            assert_eq!(to_f32(result.zcr), crossings(&frame));
            assert_eq!(to_f32(result.score), score);
        }
    }
}

#[test]
fn the_detector_hears_the_filtered_frames() {
    let mut stream = Stream { state: 0x9e37_79b9_7f4a_7c15 };
    let mut engine = VadEngine::new();
    let mut detector = earshot::Detector::default();
    let mut expected = Expected::new();
    let (mut x_prev, mut y_prev) = (0.0f32, 0.0f32);
    for i in 0..24 {
        let frame: Vec<i16> = if i % 3 == 0 {
            (0..FRAME_SIZE).map(|_| stream.next(8_000) as i16 - 4_000).collect()
        } else {
            tone(500.0 * (1 + i % 7) as f64, FRAME_SIZE)
        };
        let heard: Vec<i16> = frame
            .iter()
            .map(|&s| {
                let x = s as f32 / 32768.0;
                let y = 0.92 * (y_prev + x - x_prev);
                x_prev = x;
                y_prev = y;
                (y * 32768.0).clamp(-32768.0, 32767.0) as i16
            })
            .collect();
        let score = detector.predict_i16(&heard);
        let result = engine.process_frame(&frame);
        assert_eq!(to_f32(result.score), score);
        assert!((0.0..=1.0).contains(&score));
        assert_eq!(result.confirmed_voiced, expected.decide(&frame, score));
    }
}

#[test]
fn a_reset_engine_decides_like_a_new_one() {
    let first = tone(700.0, FRAME_SIZE * 15);
    let second = tone(900.0, FRAME_SIZE * 15);
    let mut used = VadEngine::new();
    for frame in first.chunks(FRAME_SIZE) {
        used.process_frame(frame);
    }
    used.reset();
    let mut fresh = VadEngine::default();
    for frame in second.chunks(FRAME_SIZE) {
        let a = used.process_frame(frame);
        let b = fresh.process_frame(frame);
        assert_eq!(a.score, b.score);
        assert_eq!(a.confirmed_voiced, b.confirmed_voiced);
    }
    assert_eq!(used.process_samples(&second[..300]), fresh.process_samples(&second[..300]));
}

#[test]
fn a_reset_gate_decides_like_a_new_one() {
    let frames = tone(700.0, FRAME_SIZE * 12);
    let mut gate = VoiceGate::new();
    gate.decide(&tone(30_000.0, FRAME_SIZE), single(0.0));
    gate.reset();
    let mut fresh = VoiceGate::new();
    for frame in frames.chunks(FRAME_SIZE) {
        let a = gate.decide(frame, single(0.8));
        let b = fresh.decide(frame, single(0.8));
        assert_eq!(a.confirmed_voiced, b.confirmed_voiced);
    }
}

#[test]
fn later_samples_do_not_change_decisions() {
    let mut a = tone(600.0, FRAME_SIZE * 16);
    let mut b = a.clone();
    b.truncate(FRAME_SIZE * 12);
    b.extend(hiss(20_000, FRAME_SIZE * 4));
    let mut scores = vec![single(0.9); 16];
    let left = process_scored(&a, &scores);
    for score in scores.iter_mut().skip(12) {
        *score = single(0.0);
    }
    let right = process_scored(&b, &scores);
    assert_eq!(left[..12], right[..12]);
    assert_ne!(left, right);
    a.truncate(FRAME_SIZE * 12);
    assert_eq!(process_scored(&a, &scores[..12]), left[..12].to_vec());
}

#[test]
fn a_short_last_frame_is_filled_up() {
    let samples = tone(600.0, FRAME_SIZE * 12 + 1);
    let mut padded = samples.clone();
    padded.resize(FRAME_SIZE * 13, 0);
    let scores = vec![single(0.9); 13];
    assert_eq!(process_scored(&samples, &scores), process_scored(&padded, &scores));
    assert_eq!(process_offline(&samples), process_offline(&padded));
    assert_eq!(process_offline(&samples).len(), 13);
    assert_eq!(process_offline(&samples[..FRAME_SIZE]).len(), 1);
    assert_eq!(process_offline(&samples[..1]).len(), 1);
    assert!(process_offline(&[]).is_empty());
}

#[test]
fn pieces_are_processed_like_the_whole() {
    let samples = tone(700.0, FRAME_SIZE * 14 + 100);
    let whole = process_offline(&samples);
    for cut in [1, 5, 10] {
        let mut engine = VadEngine::new();
        let mut pieces = engine.process_samples(&samples[..cut * FRAME_SIZE]);
        pieces.extend(engine.process_samples(&samples[cut * FRAME_SIZE..]));
        assert_eq!(pieces, whole);
    }
}

#[test]
fn samples_of_one_magnitude_are_as_loud() {
    for c in [0, 1, -1, 300, -300, i16::MAX, i16::MIN] {
        assert_eq!(to_f32(rms(&[c; 77])), (c as f32).abs());
        let mixed: Vec<i16> =
            (0..77).map(|i| if i % 3 == 0 && c != i16::MIN { -c } else { c }).collect();
        assert_eq!(to_f32(rms(&mixed)), (c as f32).abs());
    }
}

#[test]
fn a_recording_is_processed_frame_by_frame() {
    let mut samples = tone(700.0, FRAME_SIZE * 14 + 77);
    for (i, s) in samples.iter_mut().enumerate() {
        *s = s.wrapping_add((i * i % 97) as i16);
    }
    let whole = process_offline(&samples);
    assert_eq!(process_offline(&samples), whole);
    let mut engine = VadEngine::new();
    let mut scores: Vec<Binary32> = Vec::new();
    for (i, chunk) in samples.chunks(FRAME_SIZE).enumerate() {
        let mut frame = chunk.to_vec();
        frame.resize(FRAME_SIZE, 0);
        let result = engine.process_frame(&frame);
        assert_eq!(result.confirmed_voiced, whole[i]);
        scores.push(result.score);
    }
    assert_eq!(process_scored(&samples, &scores), whole);
    for k in [0, 1, 9, 12, 14] {
        assert_eq!(process_offline(&samples[..k * FRAME_SIZE]), whole[..k].to_vec());
    }
}
