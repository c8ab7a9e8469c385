//! Reading recordings.

use vstd::prelude::*;

verus! {

/// What a recording says about itself.
#[derive(Clone, Copy, PartialEq, Eq, Structural, Debug)]
pub struct WavFormat {
    pub channels: u16,
    pub sample_rate: u32,
    pub bits_per_sample: u16,
    /// Whether the samples are integers.
    pub integer: bool,
}

/// Why a recording cannot be used.
#[derive(Debug)]
pub enum WavError {
    /// The head of the file cannot be read.
    Header(hound::Error),
    /// The sample rate is not 16 kHz.
    SampleRate(u32),
    /// The number of channels is not one.
    Channels(u16),
    /// The samples are not 16-bit integers.
    Encoding,
    /// The samples cannot be read.
    Samples(hound::Error),
}

/// The error of the `hound` crate. Nothing is known of what is inside.
#[verifier::external_type_specification]
#[verifier::external_body]
pub struct ExHoundError(hound::Error);

/// What `hound::WavReader::new` and `spec` make of the head of a file: the number of channels, the
/// sample rate, the bits per sample and whether the samples are integers; `None` where the head
/// cannot be read.
pub uninterp spec fn wav_header(bytes: Seq<u8>) -> Option<(u16, u32, u16, bool)>;

/// The samples that `hound::WavReader::into_samples` reads from a file as 16-bit integers; `None`
/// where the head or a sample cannot be read.
pub uninterp spec fn wav_samples(bytes: Seq<u8>) -> Option<Seq<i16>>;

/// `hound::WavReader::new` and `hound::WavReader::spec`: the result is told by `wav_header`.
#[verifier::external_body]
fn read_header(bytes: &[u8]) -> (r: Result<WavFormat, hound::Error>)
    ensures
        r is Ok <==> wav_header(bytes@) is Some,
        r matches Ok(f) ==> wav_header(bytes@) == Some(
            (f.channels, f.sample_rate, f.bits_per_sample, f.integer),
        ),
{
    let spec = hound::WavReader::new(bytes)?.spec();
    Ok(
        WavFormat {
            channels: spec.channels,
            sample_rate: spec.sample_rate,
            bits_per_sample: spec.bits_per_sample,
            integer: match spec.sample_format {
                hound::SampleFormat::Int => true,
                hound::SampleFormat::Float => false,
            },
        },
    )
}

/// `hound::WavReader::into_samples`, collected: the result is told by `wav_samples`.
#[verifier::external_body]
fn read_samples(bytes: &[u8]) -> (r: Result<Vec<i16>, hound::Error>)
    ensures
        r is Ok <==> wav_samples(bytes@) is Some,
        r matches Ok(v) ==> wav_samples(bytes@) == Some(v@),
{
    hound::WavReader::new(bytes)?.into_samples().collect()
}

/// Whether a recording in this format cannot be used.
pub open spec fn is_refused(format: WavFormat) -> bool {
    format.sample_rate != 16_000 || format.channels != 1 || !format.integer
        || format.bits_per_sample != 16
}

/// Whether an error tells what is wrong with a format.
pub open spec fn tells_fault(error: WavError, format: WavFormat) -> bool {
    if format.sample_rate != 16_000 {
        error == WavError::SampleRate(format.sample_rate)
    } else if format.channels != 1 {
        error == WavError::Channels(format.channels)
    } else {
        error is Encoding && (!format.integer || format.bits_per_sample != 16)
    }
}

/// Accepts 16-bit integer mono at 16 kHz, and nothing else.
pub fn check_format(format: WavFormat) -> (r: Result<(), WavError>)
    ensures
        r is Ok <==> !is_refused(format),
        r matches Err(e) ==> tells_fault(e, format),
{
    if format.sample_rate != 16_000 {
        return Err(WavError::SampleRate(format.sample_rate));
    }
    if format.channels != 1 {
        return Err(WavError::Channels(format.channels));
    }
    if !format.integer || format.bits_per_sample != 16 {
        return Err(WavError::Encoding);
    }
    Ok(())
}

/// The samples of a recording, given as the bytes of its file. Only 16-bit integer mono at 16 kHz
/// is taken.
pub fn load_wav_mono_i16_16k(bytes: &[u8]) -> (r: Result<Vec<i16>, WavError>)
    ensures
        match wav_header(bytes@) {
            None => r matches Err(WavError::Header(_)),
            Some((channels, sample_rate, bits_per_sample, integer)) => {
                let format = WavFormat { channels, sample_rate, bits_per_sample, integer };
                if is_refused(format) {
                    r matches Err(e) && tells_fault(e, format)
                } else {
                    match wav_samples(bytes@) {
                        None => r matches Err(WavError::Samples(_)),
                        Some(samples) => r matches Ok(v) && v@ == samples,
                    }
                }
            },
        },
{
    let format: WavFormat = match read_header(bytes) {
        Ok(format) => format,
        Err(e) => {
            return Err(WavError::Header(e));
        },
    };
    if let Err(e) = check_format(format) {
        return Err(e);
    }
    match read_samples(bytes) {
        Ok(samples) => Ok(samples),
        Err(e) => Err(WavError::Samples(e)),
    }
}

} // verus!
