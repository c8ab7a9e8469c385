//! Reading recordings, and processing them as a whole.

use vad_core::audio::{check_format, load_wav_mono_i16_16k, WavError, WavFormat};
use vad_core::engine::{process_offline, FRAME_SIZE};

fn wav_bytes(spec: hound::WavSpec, samples: &[i16]) -> Vec<u8> {
    let mut bytes: Vec<u8> = Vec::new();
    {
        let mut writer = hound::WavWriter::new(std::io::Cursor::new(&mut bytes), spec)
            .expect("Failed to write test WAV");
        for sample in samples {
            match spec.sample_format {
                hound::SampleFormat::Int => {
                    writer.write_sample(*sample).expect("Failed to write test WAV")
                }
                hound::SampleFormat::Float => {
                    writer.write_sample(*sample as f32).expect("Failed to write test WAV")
                }
            }
        }
        writer.finalize().expect("Failed to write test WAV");
    }
    bytes
}

fn spec() -> hound::WavSpec {
    hound::WavSpec {
        channels: 1,
        sample_rate: 16_000,
        bits_per_sample: 16,
        sample_format: hound::SampleFormat::Int,
    }
}

#[test]
fn offline_smoke_with_generated_silence() {
    let samples = vec![0i16; 16_000];

    let wav = wav_bytes(spec(), &samples);

    let loaded = load_wav_mono_i16_16k(&wav).expect("Failed to load test WAV");

    let predictions = process_offline(&loaded);

    assert!(!predictions.is_empty());
    assert!(predictions.len() >= loaded.len() / FRAME_SIZE);
    assert_eq!(loaded, samples);
    assert_eq!(predictions, vec![false; 63]);
}

#[test]
fn samples_come_back_as_written() {
    let samples: Vec<i16> = vec![0, 1, -1, 255, -256, i16::MAX, i16::MIN, 12_345];
    let loaded = load_wav_mono_i16_16k(&wav_bytes(spec(), &samples)).unwrap();
    assert_eq!(loaded, samples);
    assert!(load_wav_mono_i16_16k(&wav_bytes(spec(), &[])).unwrap().is_empty());
}

#[test]
fn other_sample_rates_are_refused() {
    let mut other = spec();
    other.sample_rate = 44_100;
    other.channels = 2;
    let r = load_wav_mono_i16_16k(&wav_bytes(other, &[1, 2]));
    assert!(matches!(r, Err(WavError::SampleRate(44_100))));
}

#[test]
fn other_channel_counts_are_refused() {
    let mut other = spec();
    other.channels = 2;
    other.bits_per_sample = 24;
    let r = load_wav_mono_i16_16k(&wav_bytes(other, &[1, 2]));
    assert!(matches!(r, Err(WavError::Channels(2))));
}

#[test]
fn other_encodings_are_refused() {
    let mut wide = spec();
    wide.bits_per_sample = 24;
    assert!(matches!(load_wav_mono_i16_16k(&wav_bytes(wide, &[1])), Err(WavError::Encoding)));
    let mut float = spec();
    float.bits_per_sample = 32;
    float.sample_format = hound::SampleFormat::Float;
    assert!(matches!(load_wav_mono_i16_16k(&wav_bytes(float, &[1])), Err(WavError::Encoding)));
}

#[test]
fn broken_files_are_refused() {
    assert!(matches!(load_wav_mono_i16_16k(&[]), Err(WavError::Header(_))));
    assert!(matches!(load_wav_mono_i16_16k(b"not a recording"), Err(WavError::Header(_))));
    let mut cut = wav_bytes(spec(), &[1, 2, 3, 4]);
    cut.truncate(cut.len() - 3);
    assert!(matches!(load_wav_mono_i16_16k(&cut), Err(WavError::Samples(_))));
}

#[test]
fn format_check_tells_the_first_fault() {
    let good = WavFormat { channels: 1, sample_rate: 16_000, bits_per_sample: 16, integer: true };
    assert!(check_format(good).is_ok());
    let r = check_format(WavFormat { sample_rate: 8_000, channels: 3, ..good });
    assert!(matches!(r, Err(WavError::SampleRate(8_000))));
    assert!(matches!(check_format(WavFormat { channels: 0, ..good }), Err(WavError::Channels(0))));
    let r = check_format(WavFormat { bits_per_sample: 8, ..good });
    assert!(matches!(r, Err(WavError::Encoding)));
    assert!(matches!(check_format(WavFormat { integer: false, ..good }), Err(WavError::Encoding)));
}
