//! Silence detection, splitting and trimming for mono pulse-code audio.
//!
//! Samples are signed 32-bit amplitudes and thresholds are linear amplitudes on
//! the same scale, so every energy comparison is exact integer arithmetic.

pub mod energy;
pub mod error;
pub mod leading;
pub mod nonsilent;
pub mod preprocess_f5;
pub mod ranges;
pub mod scan;
pub mod silence;
pub mod split;
pub mod trim;
pub mod units;
