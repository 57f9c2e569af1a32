//! Tempo (beats per minute) estimation from a band-limited energy envelope.
//!
//! The pipeline runs in exact integer arithmetic: envelope values are
//! normalised to a fixed-point scale, periodicity scores are fixed-point
//! means, and tempi are compared as rationals of the sample rate, the hop
//! length and the lag.

pub mod config;
pub mod analysis;
pub mod selection;
pub mod envelope;
pub mod detector;
pub mod pulse;

pub use config::{Bpm, BpmConfig, BpmError};
pub use detector::BpmDetector;
pub use envelope::EnvelopeExtractor;
