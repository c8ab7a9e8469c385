//! What holds of the library as a whole.

pub mod averages;
pub mod benchmark;
pub mod classification;
pub mod correlations;
pub mod edges;
pub mod filter;
pub mod fractions;
pub mod frames;
pub mod gate;
pub mod labels;
pub mod latency;
pub mod listening;
pub mod live;
pub mod loudness;
pub mod medians;
pub mod pitch;
pub mod rates;
pub mod recording;
pub mod report;
pub mod segments;
pub mod signal;
pub mod utterances;
pub mod voices;
