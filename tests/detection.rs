use bpm_detector::analysis::{lag_range, max_energy, mean_lag_product, normalize, NORM_ONE, SCORE_ONE};
use bpm_detector::config::{AUTOCORR_THRESHOLD, FFT_SIZE, HOP_SIZE, MAX_BPM, MAX_FREQUENCY, MIN_BPM, MIN_FREQUENCY};
use bpm_detector::selection::{quantize, rank_peaks, scores_close, select_candidates, select_tempo, tempo_in_range};
use bpm_detector::{Bpm, BpmConfig, BpmDetector, BpmError};

fn pulse_train(period: usize, len: usize) -> Vec<u64> {
    (0..len).map(|i| if i % period == 0 { 1 } else { 0 }).collect()
}

fn wide_pulse_train(len: usize) -> Vec<u64> {
    (0..len)
        .map(|i| match i % 20 {
            0 => 3,
            1 | 19 => 1,
            _ => 0,
        })
        .collect()
}

fn octave_envelope(strong: u64, weak: u64) -> Vec<u64> {
    (0..1080)
        .map(|i| match i % 36 {
            0 | 1 | 2 => strong,
            18 | 19 | 20 => weak,
            _ => 0,
        })
        .collect()
}

fn config_with_range(min_bpm: u32, max_bpm: u32) -> BpmConfig {
    BpmConfig { min_bpm, max_bpm, ..BpmConfig::default() }
}

#[test]
fn default_config_values() {
    let c = BpmConfig::default();
    assert_eq!(c.fft_size, FFT_SIZE);
    assert_eq!(c.fft_size, 2048);
    assert_eq!(c.hop_size, HOP_SIZE);
    assert_eq!(c.hop_size, 1024);
    assert_eq!((c.min_frequency, c.max_frequency), (MIN_FREQUENCY, MAX_FREQUENCY));
    assert_eq!((c.min_frequency, c.max_frequency), (50, 1000));
    assert_eq!((c.min_bpm, c.max_bpm), (MIN_BPM, MAX_BPM));
    assert_eq!((c.min_bpm, c.max_bpm), (60, 180));
    assert_eq!(c.autocorr_threshold, AUTOCORR_THRESHOLD);
    assert_eq!(c.autocorr_threshold, 50_000);
    assert!(c.is_valid());
    assert_eq!(BpmDetector::new().config(), c);
    assert_eq!(BpmDetector::default().config(), c);
}

#[test]
fn invalid_configs_are_recognised() {
    let base = BpmConfig::default();
    assert!(!BpmConfig { hop_size: 0, ..base }.is_valid());
    assert!(!BpmConfig { hop_size: 4096, ..base }.is_valid());
    assert!(!BpmConfig { min_frequency: 1000, ..base }.is_valid());
    assert!(!BpmConfig { min_bpm: 180, ..base }.is_valid());
    assert!(!BpmConfig { min_bpm: 0, ..base }.is_valid());
    assert!(!BpmConfig { autocorr_threshold: 1_000_000, ..base }.is_valid());
}

#[test]
fn short_envelopes_are_insufficient() {
    let d = BpmDetector::new();
    assert_eq!(d.detect_from_samples(&[], 44100), Err(BpmError::InsufficientData));
    assert_eq!(d.detect_from_samples(&[7], 44100), Err(BpmError::InsufficientData));
    assert_eq!(d.detect_from_samples(&[7, 9], 44100), Err(BpmError::InsufficientData));
}

#[test]
fn silent_envelope_is_insufficient() {
    let d = BpmDetector::new();
    assert_eq!(d.detect_from_samples(&vec![0; 500], 44100), Err(BpmError::InsufficientData));
    assert_eq!(d.detect_from_samples(&[0, 0, 0], 44100), Err(BpmError::InsufficientData));
}

#[test]
fn pulse_train_gives_its_tempo() {
    let d = BpmDetector::new();
    for (period, halves) in [(15usize, 345u64), (16, 323), (18, 287)] {
        let exact = 60.0 * 44100.0 / (period as f64 * 1024.0);
        let r = d.detect_from_samples(&pulse_train(period, 1000), 44100).unwrap();
        assert_eq!(r, Bpm { halves });
        assert!((r.halves as f64 / 2.0 - exact).abs() <= 0.5);
    }
}

#[test]
fn wide_pulse_train_gives_its_tempo() {
    let d = BpmDetector::new();
    let r = d.detect_from_samples(&wide_pulse_train(1000), 44100).unwrap();
    assert_eq!(r, Bpm { halves: 258 });
    assert!((r.halves as f64 / 2.0 - 129.19921875).abs() <= 0.5);
}

#[test]
fn results_are_whole_half_beats_near_the_exact_tempo() {
    let d = BpmDetector::new();
    for period in [15usize, 16, 17, 18] {
        let exact = 60.0 * 44100.0 / (period as f64 * 1024.0);
        let r = d.detect_from_samples(&pulse_train(period, 1200), 44100).unwrap();
        let bpm = r.halves as f64 / 2.0;
        assert_eq!((bpm * 2.0).fract(), 0.0);
        assert!((bpm - exact).abs() <= 0.25);
    }
}

#[test]
fn close_faster_candidate_is_preferred() {
    let d = BpmDetector::new();
    assert_eq!(d.detect_from_samples(&octave_envelope(10, 9), 44100), Ok(Bpm { halves: 287 }));
    assert_eq!(d.detect_from_samples(&octave_envelope(10, 8), 44100), Ok(Bpm { halves: 287 }));
}

#[test]
fn distant_faster_candidate_is_not_preferred() {
    let d = BpmDetector::new();
    assert_eq!(d.detect_from_samples(&octave_envelope(10, 5), 44100), Ok(Bpm { halves: 144 }));
}

#[test]
fn narrowed_bpm_range_excludes_the_tempo() {
    let e = wide_pulse_train(1000);
    assert!(BpmDetector::new().detect_from_samples(&e, 44100).is_ok());
    let narrow = BpmDetector::with_config(config_with_range(140, 180));
    assert_eq!(narrow.detect_from_samples(&e, 44100), Err(BpmError::NoValidBpm { min: 140, max: 180 }));
}

#[test]
fn constant_envelope_has_no_valid_bpm() {
    let d = BpmDetector::new();
    assert_eq!(d.detect_from_samples(&vec![5; 200], 44100), Err(BpmError::NoValidBpm { min: 60, max: 180 }));
    let custom = BpmDetector::with_config(config_with_range(70, 150));
    assert_eq!(custom.detect_from_samples(&vec![5; 200], 44100), Err(BpmError::NoValidBpm { min: 70, max: 150 }));
}

#[test]
fn lag_range_of_default_config() {
    assert_eq!(lag_range(&BpmConfig::default(), 44100), (14, 43));
    assert_eq!(lag_range(&BpmConfig::default(), 48000), (16, 47));
}

#[test]
fn normalisation_scales_to_the_largest_value() {
    assert_eq!(max_energy(&[3, 9, 4]), 9);
    assert_eq!(max_energy(&[]), 0);
    assert_eq!(normalize(&[3, 9, 0]), vec![NORM_ONE / 3, NORM_ONE, 0]);
}

#[test]
fn lagged_mean_product() {
    let q = vec![NORM_ONE, 0, NORM_ONE, 0, NORM_ONE];
    assert_eq!(mean_lag_product(&q, 2), SCORE_ONE * 2 / 3);
    assert_eq!(mean_lag_product(&q, 1), 0);
    assert_eq!(mean_lag_product(&q, 4), SCORE_ONE);
    assert_eq!(mean_lag_product(&q, 0), SCORE_ONE * 3 / 5);
    assert_eq!(mean_lag_product(&q, 5), 0);
    assert_eq!(mean_lag_product(&q, 9), 0);
}

#[test]
fn peaks_rank_by_score_then_lag() {
    let peaks = vec![(20usize, 5u64), (21, 9), (30, 5), (14, 9), (40, 1), (41, 2)];
    assert_eq!(rank_peaks(peaks.clone(), 5), vec![(14, 9), (21, 9), (20, 5), (30, 5), (41, 2)]);
    assert_eq!(rank_peaks(peaks, 2), vec![(14, 9), (21, 9)]);
    assert_eq!(rank_peaks(vec![], 5), vec![]);
}

#[test]
fn candidates_keep_tempi_in_range() {
    let c = BpmConfig::default();
    // 60 * 44100 / (lag * 1024): lag 14 is 184.6 BPM, lag 15 is 172.3, lag 43 is 60.1, lag 44 is 58.7.
    assert!(!tempo_in_range(&c, 44100, 14));
    assert!(tempo_in_range(&c, 44100, 15));
    assert!(tempo_in_range(&c, 44100, 43));
    assert!(!tempo_in_range(&c, 44100, 44));
    assert!(!tempo_in_range(&c, 44100, 0));
    let top = vec![(14usize, 9u64), (30, 8), (44, 7), (15, 6)];
    assert_eq!(select_candidates(&c, 44100, &top), vec![(30, 8), (15, 6)]);
}

#[test]
fn selection_between_two_candidates() {
    assert!(scores_close(100, 91));
    assert!(!scores_close(100, 90));
    assert!(!scores_close(0, 0));
    assert_eq!(select_tempo(&vec![(36, 100), (18, 95)]), (18, 95));
    assert_eq!(select_tempo(&vec![(36, 100), (18, 85)]), (36, 100));
    assert_eq!(select_tempo(&vec![(18, 100), (36, 99)]), (18, 100));
    assert_eq!(select_tempo(&vec![(20, 100)]), (20, 100));
}

#[test]
fn quantization_to_half_beats() {
    let c = BpmConfig::default();
    // 60 * 44100 / (20 * 1024) = 129.199...: nearest half is 129.0.
    assert_eq!(quantize(&c, 44100, 20), 258);
    // 60 * 48000 / (16 * 1024) = 175.78...: nearest half is 176.0.
    assert_eq!(quantize(&c, 48000, 16), 352);
    // 60 * 1024 / (1 * 1024) = 60: exact.
    assert_eq!(quantize(&c, 1024, 1), 120);
}

#[test]
fn pulse_train_of_any_height_gives_its_tempo() {
    let d = BpmDetector::new();
    let e: Vec<u64> = (0..960).map(|i| if i % 16 == 0 { 123_456_789 } else { 0 }).collect();
    assert_eq!(d.detect_from_samples(&e, 44100), Ok(Bpm { halves: 323 }));
}

#[test]
fn pulse_train_at_the_threshold_is_not_a_peak() {
    // Unit pulses every 20 hops score exactly 1/20 = 0.05, which does not exceed the threshold.
    let d = BpmDetector::new();
    assert_eq!(d.detect_from_samples(&pulse_train(20, 1000), 44100), Err(BpmError::NoValidBpm { min: 60, max: 180 }));
    let lower = BpmDetector::with_config(BpmConfig { autocorr_threshold: 49_999, ..BpmConfig::default() });
    assert_eq!(lower.detect_from_samples(&pulse_train(20, 1000), 44100), Ok(Bpm { halves: 258 }));
}

#[test]
fn short_envelope_is_insufficient_at_any_sample_rate() {
    let d = BpmDetector::new();
    assert_eq!(d.detect_from_samples(&[1, 2], 0), Err(BpmError::InsufficientData));
    assert_eq!(d.detect_from_samples(&pulse_train(15, 1000), 0), Err(BpmError::NoValidBpm { min: 60, max: 180 }));
}
