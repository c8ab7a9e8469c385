//! Listening: frames, pitch, calibration, utterances and verdicts.

use vad_core::engine::{FRAME_SIZE, SAMPLE_RATE};
use vad_core::float::binary32::Binary32;
use vad_core::live::{
    accepts_input, average, meter_is_due, meter_marks, report_segment, take_frame, voice_profile,
    Calibration, LiveEngine, LiveFrame, LiveGate, Segmenter, Utterance, Verdict, VoiceProfile,
    CALIBRATION_MS, LEVEL_SHARE, METER_MARKS, NANOS_PER_MS, NOISE_FLOOR_MARGIN, ONSET_RATIO,
    PITCH_SLACK_ABOVE, PITCH_SLACK_BELOW, PITCH_WINDOW_LEN,
};
use vad_core::pitch::{estimate_pitch, median, MAX_FREQ, MIN_FREQ};
use vad_core::sorting::sorted;

fn single(x: f32) -> Binary32 {
    Binary32::from_bits(x.to_bits())
}

fn to_f32(x: Binary32) -> f32 {
    f32::from_bits(x.to_bits())
}

fn singles(xs: &[f32]) -> Vec<Binary32> {
    xs.iter().map(|&x| single(x)).collect()
}

fn tone(frequency: f64, amplitude: f64, samples: usize) -> Vec<i16> {
    (0..samples)
        .map(|i| {
            (amplitude * (i as f64 * frequency * std::f64::consts::TAU / 16_000.0).sin()) as i16
        })
        .collect()
}

fn level(samples: &[i16]) -> f32 {
    let sum: f64 = samples.iter().map(|&s| s as f64 * s as f64).sum();
    (sum / samples.len() as f64).sqrt() as f32
}

/// The estimate in the numbers of the machine.
fn expected_pitch(window: &[i16], rate: u32) -> Option<f32> {
    let shortest = (rate as f32 / 400.0) as usize;
    let longest = (rate as f32 / 70.0) as usize;
    if window.len() <= longest {
        return None;
    }
    let mut total = 0.0f32;
    for &s in window {
        total += s as f32;
    }
    let middle = total / window.len() as f32;
    let xs: Vec<f32> = window.iter().map(|&s| s as f32 - middle).collect();
    let (mut best, mut best_corr) = (0usize, 0.0f32);
    for lag in shortest..=longest {
        let mut corr = 0.0f32;
        for i in 0..xs.len() - lag {
            corr += xs[i] * xs[i + lag];
        }
        if corr > best_corr {
            best_corr = corr;
            best = lag;
        }
    }
    if best == 0 { None } else { Some(rate as f32 / best as f32) }
}

fn heard(voiced: bool, score: f32, pitch: Option<f32>, rms: f32) -> LiveFrame {
    LiveFrame {
        score: single(score),
        confirmed_voiced: voiced,
        pitch: pitch.map(single),
        rms: single(rms),
    }
}

#[test]
fn live_constants_are_what_they_say() {
    assert_eq!(f32::from_bits(ONSET_RATIO), 0.65);
    assert_eq!(f32::from_bits(NOISE_FLOOR_MARGIN), 1.3);
    assert_eq!(f32::from_bits(PITCH_SLACK_BELOW), 0.85);
    assert_eq!(f32::from_bits(PITCH_SLACK_ABOVE), 1.15);
    assert_eq!(f32::from_bits(LEVEL_SHARE), 0.2);
    assert_eq!(f32::from_bits(MIN_FREQ), 70.0);
    assert_eq!(f32::from_bits(MAX_FREQ), 400.0);
    assert_eq!((CALIBRATION_MS, METER_MARKS, PITCH_WINDOW_LEN), (3000, 20, 1024));
}

#[test]
fn only_fitting_inputs_are_accepted() {
    assert!(accepts_input(1, true, 8_000, 48_000));
    assert!(accepts_input(1, true, 16_000, 16_000));
    assert!(!accepts_input(2, true, 8_000, 48_000));
    assert!(!accepts_input(1, false, 8_000, 48_000));
    assert!(!accepts_input(1, true, 16_001, 48_000));
    assert!(!accepts_input(1, true, 8_000, 15_999));
}

#[test]
fn frames_are_taken_off_the_front() {
    let mut buffer: Vec<i16> = (0..600).collect();
    assert_eq!(take_frame(&mut buffer), Some((0..256).collect::<Vec<i16>>()));
    assert_eq!(take_frame(&mut buffer), Some((256..512).collect::<Vec<i16>>()));
    assert_eq!(take_frame(&mut buffer), None);
    assert_eq!(buffer, (512..600).collect::<Vec<i16>>());
}

#[test]
fn sorting_puts_in_order() {
    let ordered = sorted(&singles(&[3.5, -1.0, 0.0, 9.0, -1.0, f32::INFINITY, 2.0]));
    let got: Vec<f32> = ordered.into_iter().map(to_f32).collect();
    assert_eq!(got, vec![-1.0, -1.0, 0.0, 2.0, 3.5, 9.0, f32::INFINITY]);
}

#[test]
fn sorting_keeps_equal_numbers_as_they_stand() {
    let numbers = [1.0f32, 0.0, -0.0, -2.0, -0.0, 0.0, -0.0, 1.0];
    let mut expected = numbers.to_vec();
    expected.sort_by(|a, b| a.partial_cmp(b).unwrap());
    let want: Vec<u32> = expected.iter().map(|x| x.to_bits()).collect();
    let got: Vec<u32> = sorted(&singles(&numbers)).iter().map(|x| x.to_bits()).collect();
    assert_eq!(got, want);
    let bits = |xs: &[f32]| median(&singles(xs)).map(|m| m.to_bits());
    assert_eq!(bits(&[0.0, -0.0]), Some((-0.0f32).to_bits()));
    assert_eq!(bits(&[-0.0, 0.0]), Some(0.0f32.to_bits()));
}

#[test]
fn median_is_the_upper_middle() {
    assert_eq!(median(&Vec::new()), None);
    assert_eq!(median(&singles(&[5.0])).map(to_f32), Some(5.0));
    assert!(median(&singles(&[f32::NAN])).map(to_f32).unwrap().is_nan());
    assert_eq!(median(&singles(&[9.0, 1.0])).map(to_f32), Some(9.0));
    assert_eq!(median(&singles(&[9.0, 1.0, 4.0])).map(to_f32), Some(4.0));
    assert_eq!(median(&singles(&[4.0, 3.0, 2.0, 1.0])).map(to_f32), Some(3.0));
}

#[test]
fn pitch_of_tones() {
    for frequency in [100.0, 160.0, 200.0, 320.0] {
        let window = tone(frequency, 8_000.0, 1024);
        let pitch = estimate_pitch(&window, SAMPLE_RATE).map(to_f32);
        assert_eq!(pitch, expected_pitch(&window, SAMPLE_RATE));
        assert!((70.0..=400.0).contains(&pitch.unwrap()));
    }
    assert_eq!(estimate_pitch(&tone(200.0, 8_000.0, 1024), SAMPLE_RATE).map(to_f32), Some(200.0));
}

#[test]
fn pitch_needs_a_long_window() {
    let window = tone(200.0, 8_000.0, 229);
    assert!(estimate_pitch(&window[..228], SAMPLE_RATE).is_none());
    assert_eq!(
        estimate_pitch(&window, SAMPLE_RATE).map(to_f32),
        expected_pitch(&window, SAMPLE_RATE)
    );
    // At a very low rate the shortest lag is nothing.
    assert_eq!(
        estimate_pitch(&window, 300).map(to_f32),
        expected_pitch(&window, 300)
    );
    assert!(estimate_pitch(&window, 0).is_none());
}

#[test]
fn silence_has_no_pitch() {
    assert!(estimate_pitch(&[0; 1024], SAMPLE_RATE).is_none());
    assert!(estimate_pitch(&[1000; 1024], SAMPLE_RATE).is_none());
}

#[test]
fn live_decisions_match_the_rules() {
    let mut gate = LiveGate::new();
    let mut history: Vec<bool> = Vec::new();
    let mut window: Vec<i16> = Vec::new();
    let mut floor: Option<f32> = None;
    let scores = [0.1, 0.9, 0.2, 0.8, 0.7, 0.95, 0.6, 0.5, 0.49, 0.9, 0.9, 0.9];
    for (i, &score) in scores.iter().enumerate() {
        let frame = tone(150.0, 100.0 * (1 + i * i % 7) as f64, FRAME_SIZE);
        history.push(score >= 0.5);
        if history.len() > 6 {
            history.remove(0);
        }
        window.extend_from_slice(&frame);
        let excess = window.len().saturating_sub(1024);
        window.drain(..excess);
        let loud = level(&frame);
        if score < 0.5 {
            floor = Some(match floor {
                None => loud,
                Some(f) => f * (1.0 - 0.05) + loud * 0.05,
            });
        }
        let share = history.iter().filter(|&&v| v).count() as f32 / history.len() as f32;
        let above = floor.map_or(true, |f| loud > f * 1.3);
        let result = gate.decide(&frame, single(score));
        assert_eq!(result.confirmed_voiced, history.len() == 6 && share >= 0.65 && above);
        assert_eq!(to_f32(result.rms), loud);
        assert_eq!(to_f32(result.score), score);
        let pitch = if window.len() >= 1024 { expected_pitch(&window, SAMPLE_RATE) } else { None };
        assert_eq!(result.pitch.map(to_f32), pitch);
    }
}

#[test]
fn four_of_six_confirm() {
    let frame = tone(200.0, 1_000.0, FRAME_SIZE);
    let quiet = vec![0i16; FRAME_SIZE];
    for voiced in 3..=5usize {
        let mut gate = LiveGate::new();
        for _ in 0..6 - voiced {
            gate.decide(&quiet, single(0.0));
        }
        let mut last = false;
        for _ in 0..voiced {
            last = gate.decide(&frame, single(0.9)).confirmed_voiced;
        }
        assert_eq!(last, voiced >= 4);
    }
}

#[test]
fn a_reset_forgets_the_history_only() {
    let frame = tone(200.0, 1_000.0, FRAME_SIZE);
    let mut gate = LiveGate::new();
    gate.decide(&tone(200.0, 900.0, FRAME_SIZE), single(0.0));
    for _ in 0..6 {
        gate.decide(&frame, single(0.9));
    }
    gate.reset();
    for i in 0..7 {
        let result = gate.decide(&frame, single(0.9));
        // The noise floor still counts: the frames are not loud enough.
        assert!(!result.confirmed_voiced);
        // The samples are still there.
        assert!(result.pitch.is_some(), "frame {}", i);
    }
}

#[test]
fn the_live_detector_hears_the_frames_as_they_are() {
    let mut engine = LiveEngine::new();
    let mut detector = earshot::Detector::default();
    for i in 0..6 {
        let frame = tone(100.0 + 40.0 * i as f64, 4_000.0, FRAME_SIZE);
        assert_eq!(to_f32(engine.process_frame(&frame).score), detector.predict_i16(&frame));
    }
    engine.reset();
    detector.reset();
    let frame = tone(130.0, 3_000.0, FRAME_SIZE);
    assert_eq!(to_f32(engine.process_frame(&frame).score), detector.predict_i16(&frame));
}

#[test]
fn average_of_levels() {
    assert_eq!(to_f32(average(&Vec::new())), 0.0);
    assert_eq!(to_f32(average(&singles(&[1.0, 2.0, 4.0]))), 7.0f32 / 3.0);
}

#[test]
fn profile_leaves_out_the_extremes() {
    let mut pitches: Vec<f32> = (0..20).map(|i| 100.0 + i as f32).collect();
    pitches.swap(0, 13);
    pitches[4] = 400.0;
    let profile = voice_profile(&singles(&pitches), &singles(&[10.0, 20.0])).unwrap();
    let mut ordered = pitches.clone();
    ordered.sort_by(|a, b| a.partial_cmp(b).unwrap());
    assert_eq!(to_f32(profile.pitch_min), ordered[2] * 0.85);
    assert_eq!(to_f32(profile.pitch_max), ordered[17] * 1.15);
    assert_eq!(to_f32(profile.rms_avg), 15.0);
    assert!(voice_profile(&singles(&[100.0, 110.0]), &Vec::new()).is_none());
    let small = voice_profile(&singles(&[120.0, 100.0, 110.0]), &Vec::new()).unwrap();
    assert_eq!(to_f32(small.pitch_min), 100.0 * 0.85);
    assert_eq!(to_f32(small.pitch_max), 120.0 * 1.15);
    assert_eq!(to_f32(small.rms_avg), 0.0);
}

#[test]
fn calibration_keeps_confirmed_frames() {
    let mut calibration = Calibration::new();
    calibration.observe(&heard(false, 0.9, Some(90.0), 1.0));
    calibration.observe(&heard(true, 0.9, None, 2.0));
    calibration.observe(&heard(true, 0.9, Some(100.0), 4.0));
    calibration.observe(&heard(true, 0.9, Some(120.0), 6.0));
    assert!(calibration.profile().is_none());
    calibration.observe(&heard(true, 0.9, Some(110.0), 8.0));
    let profile = calibration.profile().unwrap();
    assert_eq!(to_f32(profile.pitch_min), 100.0 * 0.85);
    assert_eq!(to_f32(profile.pitch_max), 120.0 * 1.15);
    assert_eq!(to_f32(profile.rms_avg), 5.0);
}

const MS: u64 = NANOS_PER_MS;

fn texts(u: &Utterance) -> (u64, u64, f32, Vec<f32>, Vec<f32>) {
    (
        u.start / MS,
        u.last_voiced / MS,
        to_f32(u.peak_score),
        u.pitches.iter().map(|&p| to_f32(p)).collect(),
        u.levels.iter().map(|&p| to_f32(p)).collect(),
    )
}

#[test]
fn an_utterance_ends_after_the_hangover() {
    let mut segmenter = Segmenter::new();
    assert!(segmenter.observe(0, &heard(false, 0.1, None, 1.0)).is_none());
    assert!(!segmenter.is_speaking());
    assert!(segmenter.observe(100 * MS, &heard(true, 0.7, Some(120.0), 5.0)).is_none());
    assert!(segmenter.is_speaking());
    assert!(segmenter.observe(116 * MS, &heard(true, 0.9, None, 6.0)).is_none());
    assert!(segmenter.observe(332 * MS, &heard(true, 0.8, Some(130.0), 7.0)).is_none());
    // A pause of exactly the hangover does not end it.
    assert!(segmenter.observe(732 * MS, &heard(false, 1.0, Some(99.0), 8.0)).is_none());
    assert!(segmenter.is_speaking());
    let over = segmenter.observe(732 * MS + 1, &heard(false, 0.2, None, 9.0)).unwrap();
    assert!(!segmenter.is_speaking());
    assert_eq!(texts(&over), (100, 332, 0.9, vec![120.0, 130.0], vec![5.0, 6.0, 7.0]));
}

#[test]
fn a_pause_within_an_utterance_does_not_split_it() {
    let mut segmenter = Segmenter::new();
    segmenter.observe(0, &heard(true, 0.7, None, 1.0));
    segmenter.observe(399 * MS, &heard(false, 0.7, None, 1.0));
    // The pause is longer than the hangover, but a voice is heard again before it is noticed.
    assert!(segmenter.observe(420 * MS, &heard(true, 0.6, None, 2.0)).is_none());
    assert!(segmenter.is_speaking());
    let over = segmenter.observe(900 * MS, &heard(false, 0.6, None, 2.0)).unwrap();
    assert_eq!(texts(&over), (0, 420, 0.7, vec![], vec![1.0, 2.0]));
}

#[test]
fn clicks_are_dropped() {
    // A single frame.
    let mut segmenter = Segmenter::new();
    segmenter.observe(10 * MS, &heard(true, 0.7, None, 1.0));
    assert!(segmenter.observe(411 * MS, &heard(false, 0.0, None, 1.0)).is_none());
    assert!(!segmenter.is_speaking());
    // From 200 milliseconds on it is no click.
    for (last, told) in [(210 * MS - 1, false), (210 * MS, true)] {
        let mut segmenter = Segmenter::new();
        segmenter.observe(10 * MS, &heard(true, 0.7, None, 1.0));
        segmenter.observe(last, &heard(true, 0.7, None, 1.0));
        assert_eq!(segmenter.observe(700 * MS, &heard(false, 0.0, None, 1.0)).is_some(), told);
        assert!(!segmenter.is_speaking());
    }
    // Times before the start count as no time at all.
    let mut segmenter = Segmenter::new();
    segmenter.observe(1_000 * MS, &heard(true, 0.7, None, 1.0));
    segmenter.observe(0, &heard(true, 0.7, None, 1.0));
    assert!(segmenter.observe(900 * MS, &heard(false, 0.0, None, 1.0)).is_none());
    assert!(!segmenter.is_speaking());
}

fn profile() -> VoiceProfile {
    VoiceProfile { pitch_min: single(85.0), pitch_max: single(138.0), rms_avg: single(100.0) }
}

fn verdict(pitches: &[f32], levels: &[f32], profile: Option<VoiceProfile>) -> Verdict {
    report_segment(single(0.9), &singles(pitches), &singles(levels), &profile).verdict
}

#[test]
fn verdicts() {
    assert_eq!(verdict(&[120.0], &[50.0], None), Verdict::NoProfile);
    assert_eq!(verdict(&[], &[50.0], None), Verdict::NoProfile);
    assert_eq!(verdict(&[], &[50.0], Some(profile())), Verdict::PitchUnknown);
    assert_eq!(verdict(&[120.0, 300.0, 110.0], &[50.0], Some(profile())), Verdict::Alike);
    assert_eq!(verdict(&[85.0], &[50.0], Some(profile())), Verdict::Alike);
    assert_eq!(verdict(&[138.0], &[50.0], Some(profile())), Verdict::Alike);
    assert_eq!(verdict(&[84.9], &[50.0], Some(profile())), Verdict::Different);
    assert_eq!(verdict(&[138.1], &[50.0], Some(profile())), Verdict::Different);
    assert_eq!(verdict(&[120.0], &[20.1, 20.1], Some(profile())), Verdict::Alike);
    assert_eq!(verdict(&[120.0], &[19.9, 19.9], Some(profile())), Verdict::Different);
    assert_eq!(verdict(&[120.0], &[], Some(profile())), Verdict::Different);
    let unheard = VoiceProfile { rms_avg: single(0.0), ..profile() };
    assert_eq!(verdict(&[120.0], &[], Some(unheard)), Verdict::Alike);
}

#[test]
fn reports_tell_peak_and_median() {
    let report = report_segment(single(0.75), &singles(&[3.0, 1.0, 2.0]), &Vec::new(), &None);
    assert_eq!(to_f32(report.peak_score), 0.75);
    assert_eq!(report.pitch.map(to_f32), Some(2.0));
}

#[test]
fn own_voice_is_alike() {
    let pitches: Vec<f32> = (0..30).map(|i| 90.0 + (i * 7 % 30) as f32).collect();
    let levels = vec![40.0f32; 30];
    let profile = voice_profile(&singles(&pitches), &singles(&levels));
    assert_eq!(verdict(&pitches, &levels, profile), Verdict::Alike);
    let profile = profile.unwrap();
    assert!(to_f32(profile.pitch_min) <= to_f32(profile.pitch_max));
}

#[test]
fn meter_fills_with_the_score() {
    assert_eq!(meter_marks(single(0.0)), 0);
    assert_eq!(meter_marks(single(0.5)), 10);
    assert_eq!(meter_marks(single(0.999)), 19);
    assert_eq!(meter_marks(single(1.0)), 20);
    assert_eq!(meter_marks(single(7.0)), 20);
    assert_eq!(meter_marks(single(-3.0)), 0);
    assert_eq!(meter_marks(single(-0.0)), 0);
    assert_eq!(meter_marks(single(f32::NAN)), 0);
    assert_eq!(meter_marks(single(f32::INFINITY)), 20);
}

#[test]
fn meter_is_shown_every_eighty_milliseconds() {
    assert!(!meter_is_due(0, 80 * MS - 1));
    assert!(meter_is_due(0, 80 * MS));
    assert!(!meter_is_due(500 * MS, 100 * MS));
}
