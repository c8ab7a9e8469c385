//! Voice activity detection: which frames of a recording are speech, how well that agrees with an
//! annotation, and what a microphone hears, utterance by utterance.
//!
//! Everything that is computed from numbers with a fraction goes through [`float`], whose
//! operations are proved to round as binary floating-point arithmetic does. What holds of the
//! library as a whole is stated in [`laws`].

pub mod audio;
pub mod detector;
pub mod engine;
pub mod float;
pub mod laws;
pub mod live;
pub mod metrics;
pub mod monitor;
pub mod pitch;
pub mod report;
pub mod signal;
pub mod sorting;
