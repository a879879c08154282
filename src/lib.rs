//! Audio analysis engine of an audio-reactive visual show: band levels from a
//! quantized magnitude spectrum, exact sliding-window and lifetime statistics
//! per band, and a two-phase (Break / Drop) classification of the music.
//!
//! All arithmetic is exact integer arithmetic. Spectral magnitudes arrive as
//! fixed-point integers; a mean is a numerator over a known denominator and a
//! variance a numerator over the square of that denominator, so that every
//! statistic equals its brute-force definition with no round-off.

pub mod analyzer;
pub mod bands;
pub mod frame;
pub mod global;
pub mod phase;
pub mod seqmath;
pub mod windowed;

pub use analyzer::{AnalysisError, Analyzer, ConfigError, discriminant};
pub use bands::{band_levels, calculate_channel_index, checked_power};
pub use frame::{FrameAccumulator, first_channel};
pub use global::{GlobalStats, MAX_CYCLES};
pub use phase::{Break, Discriminant, Drop, Gain, Phase, State, next_state, reset_global};
pub use windowed::{MAX_LEVEL, MAX_WINDOW, WindowedStats};
