//! Detection parameters, results and errors.

use vstd::prelude::*;

verus! {

/// Default analysis window length, in samples.
pub const FFT_SIZE: usize = 2048;

/// Default hop length, in samples (half the window).
pub const HOP_SIZE: usize = 1024;

/// Default slowest tempo searched, in beats per minute.
pub const MIN_BPM: u32 = 60;

/// Default fastest tempo searched, in beats per minute.
pub const MAX_BPM: u32 = 180;

/// Default lower edge of the frequency band, in hertz.
pub const MIN_FREQUENCY: u32 = 50;

/// Default upper edge of the frequency band, in hertz.
pub const MAX_FREQUENCY: u32 = 1000;

/// Default acceptance threshold of a periodicity score, in parts per million (0.05).
pub const AUTOCORR_THRESHOLD: u32 = 50_000;

/// The denominator of `BpmConfig::autocorr_threshold`.
pub const PARTS_PER_MILLION: u32 = 1_000_000;

/// Parameters of one detection run.
#[derive(Clone, Copy, Debug, PartialEq, Eq)]
pub struct BpmConfig {
    /// Analysis window length, in samples.
    pub fft_size: usize,
    /// Stride between consecutive windows, in samples.
    pub hop_size: usize,
    /// Lower edge of the frequency band, in hertz.
    pub min_frequency: u32,
    /// Upper edge of the frequency band, in hertz.
    pub max_frequency: u32,
    /// Slowest tempo searched, in beats per minute.
    pub min_bpm: u32,
    /// Fastest tempo searched, in beats per minute.
    pub max_bpm: u32,
    /// A periodicity score must exceed this many millionths to count as a peak.
    pub autocorr_threshold: u32,
}

impl BpmConfig {
    /// The parameters are consistent: the hop fits in the window, both ranges
    /// are proper intervals and the threshold lies in [0, 1).
    pub open spec fn valid(&self) -> bool {
        &&& 0 < self.hop_size <= self.fft_size
        &&& self.min_frequency < self.max_frequency
        &&& 0 < self.min_bpm < self.max_bpm
        &&& self.autocorr_threshold < PARTS_PER_MILLION
    }

    /// Whether the parameters are consistent (see `valid`).
    pub fn is_valid(&self) -> (r: bool)
        ensures
            r == self.valid(),
    {
        0 < self.hop_size && self.hop_size <= self.fft_size && self.min_frequency < self.max_frequency
            && 0 < self.min_bpm && self.min_bpm < self.max_bpm
            && self.autocorr_threshold < PARTS_PER_MILLION
    }
}

impl BpmConfig {
    /// The default parameters: a 2048-sample window, a 1024-sample hop, the
    /// band 50-1000 Hz, tempi 60-180 BPM and a threshold of 0.05.
    pub open spec fn default_config() -> BpmConfig {
        BpmConfig {
            fft_size: FFT_SIZE,
            hop_size: HOP_SIZE,
            min_frequency: MIN_FREQUENCY,
            max_frequency: MAX_FREQUENCY,
            min_bpm: MIN_BPM,
            max_bpm: MAX_BPM,
            autocorr_threshold: AUTOCORR_THRESHOLD,
        }
    }
}

impl Default for BpmConfig {
    fn default() -> (r: Self)
        ensures
            r == BpmConfig::default_config(),
            r.valid(),
    {
        BpmConfig {
            fft_size: FFT_SIZE,
            hop_size: HOP_SIZE,
            min_frequency: MIN_FREQUENCY,
            max_frequency: MAX_FREQUENCY,
            min_bpm: MIN_BPM,
            max_bpm: MAX_BPM,
            autocorr_threshold: AUTOCORR_THRESHOLD,
        }
    }
}

/// A tempo quantised to the nearest half beat per minute.
#[derive(Clone, Copy, Debug, PartialEq, Eq)]
pub struct Bpm {
    /// Twice the tempo in beats per minute.
    pub halves: u64,
}

/// Why a detection failed.
#[derive(Debug, PartialEq, Eq)]
pub enum BpmError {
    /// The input path could not be opened.
    FileNotFound(String),
    /// The input could not be probed or decoded, or gave no sample rate.
    UnsupportedFormat,
    /// Fewer than three envelope values, or an envelope without energy.
    InsufficientData,
    /// No periodicity peak converted to a tempo in the configured range.
    NoValidBpm { min: u32, max: u32 },
}

} // verus!
