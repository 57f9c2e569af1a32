use bpm_detector::envelope::{band_energy, bin_for_frequency, downmix, sample_from_i16, sample_from_u8};
use bpm_detector::{BpmConfig, BpmDetector, BpmError, EnvelopeExtractor};

fn sine(freq: f64, amplitude: f64, sample_rate: u32, len: usize) -> Vec<i32> {
    (0..len)
        .map(|i| (amplitude * (2.0 * std::f64::consts::PI * freq * i as f64 / sample_rate as f64).sin()).round() as i32)
        .collect()
}

fn envelope_of(samples: &[i32], config: &BpmConfig, sample_rate: u32) -> Vec<u64> {
    let mut x = EnvelopeExtractor::new(config, sample_rate);
    for &s in samples {
        x.push_sample(s);
    }
    x.energies()
}

#[test]
fn band_bins_of_default_config() {
    // 50 * 2048 / 44100 = 2.32 and 1000 * 2048 / 44100 = 46.44.
    assert_eq!(bin_for_frequency(50, 2048, 44100), 2);
    assert_eq!(bin_for_frequency(1000, 2048, 44100), 46);
    // 1000 * 2048 / 48000 = 42.67.
    assert_eq!(bin_for_frequency(1000, 2048, 48000), 43);
    // Past the 1025 bins of the spectrum the index stops at its end.
    assert_eq!(bin_for_frequency(30000, 2048, 44100), 1025);
}

#[test]
fn band_energy_sums_the_band() {
    let p = vec![1u64, 2, 4, 8, 16];
    assert_eq!(band_energy(&p, 1, 3), 6);
    assert_eq!(band_energy(&p, 0, 5), 31);
    assert_eq!(band_energy(&p, 3, 3), 0);
    assert_eq!(band_energy(&p, 4, 2), 0);
    assert_eq!(band_energy(&p, 2, 99), 28);
    assert_eq!(band_energy(&[u64::MAX, 5], 0, 2), u64::MAX);
}

#[test]
fn frames_are_averaged() {
    assert_eq!(downmix(&[10, 20]), 15);
    assert_eq!(downmix(&[7]), 7);
    assert_eq!(downmix(&[-1, 0]), -1);
    assert_eq!(downmix(&[3, 4]), 3);
    assert_eq!(downmix(&[i32::MIN, i32::MIN, i32::MIN]), i32::MIN);
    assert_eq!(downmix(&[i32::MAX, i32::MAX]), i32::MAX);
}

#[test]
fn sample_formats_share_one_scale() {
    assert_eq!(sample_from_u8(128), 0);
    assert_eq!(sample_from_u8(0), -32768);
    assert_eq!(sample_from_u8(255), 32512);
    assert_eq!(sample_from_i16(-32768), -32768);
    assert_eq!(sample_from_i16(1234), 1234);
}

#[test]
fn one_energy_per_hop() {
    let c = BpmConfig::default();
    assert_eq!(envelope_of(&vec![0; 2047], &c, 44100).len(), 0);
    assert_eq!(envelope_of(&vec![0; 2048], &c, 44100).len(), 1);
    assert_eq!(envelope_of(&vec![0; 3071], &c, 44100).len(), 1);
    assert_eq!(envelope_of(&vec![0; 3072], &c, 44100).len(), 2);
    // (10000 - 2048) / 1024 + 1
    assert_eq!(envelope_of(&vec![0; 10000], &c, 44100).len(), 8);
}

#[test]
fn silence_has_no_energy() {
    let c = BpmConfig::default();
    assert!(envelope_of(&vec![0; 5000], &c, 44100).iter().all(|&e| e == 0));
}

#[test]
fn in_band_tone_carries_energy() {
    let c = BpmConfig::default();
    let inside = envelope_of(&sine(440.0, 10000.0, 44100, 8192), &c, 44100);
    let outside = envelope_of(&sine(5000.0, 10000.0, 44100, 8192), &c, 44100);
    assert_eq!(inside.len(), 7);
    assert_eq!(outside.len(), 7);
    for (a, b) in inside.iter().zip(outside.iter()) {
        assert!(*a > 1_000_000_000);
        assert!(*a > 100 * *b);
    }
}

#[test]
fn narrowed_band_drops_the_tone() {
    let tone = sine(440.0, 10000.0, 44100, 8192);
    let wide = envelope_of(&tone, &BpmConfig::default(), 44100);
    let narrow_config = BpmConfig { min_frequency: 2000, max_frequency: 4000, ..BpmConfig::default() };
    let narrow = envelope_of(&tone, &narrow_config, 44100);
    for (a, b) in wide.iter().zip(narrow.iter()) {
        assert!(*a > 100 * *b);
    }
}

#[test]
fn multichannel_frames_mix_down() {
    let c = BpmConfig::default();
    let tone = sine(440.0, 10000.0, 44100, 4096);
    let mut stereo = EnvelopeExtractor::new(&c, 44100);
    let mut mono = EnvelopeExtractor::new(&c, 44100);
    for &s in &tone {
        stereo.push_frame(&[s, s]);
        mono.push_sample(s);
    }
    assert_eq!(stereo.energies(), mono.energies());
    let mut cancelled = EnvelopeExtractor::new(&c, 44100);
    for &s in &tone {
        cancelled.push_frame(&[s, -s]);
    }
    assert!(cancelled.energies().iter().all(|&e| e == 0));
}

#[test]
fn beating_tone_gives_a_tempo() {
    // A 440 Hz tone switched on for 3 hops out of every 18: 60 * 44100 / (18 * 1024) = 143.55 BPM.
    let c = BpmConfig::default();
    let tone = sine(440.0, 10000.0, 44100, 18 * 1024 * 40);
    let gated: Vec<i32> = tone
        .iter()
        .enumerate()
        .map(|(i, &s)| if (i / 1024) % 18 < 3 { s } else { 0 })
        .collect();
    let e = envelope_of(&gated, &c, 44100);
    let r = BpmDetector::new().detect_from_samples(&e, 44100).unwrap();
    assert!((r.halves as f64 / 2.0 - 143.5546875).abs() <= 1.0);
}

#[test]
fn too_short_stream_is_insufficient() {
    let c = BpmConfig::default();
    let e = envelope_of(&vec![100; 4000], &c, 44100);
    assert_eq!(e.len(), 2);
    assert_eq!(BpmDetector::new().detect_from_samples(&e, 44100), Err(BpmError::InsufficientData));
}

#[test]
fn silent_stream_is_insufficient() {
    let c = BpmConfig::default();
    let mut x = EnvelopeExtractor::new(&c, 44100);
    for _ in 0..20000 {
        x.push_frame(&[0, 0]);
    }
    assert_eq!(x.energies().len(), 18);
    assert_eq!(BpmDetector::new().detect_from_samples(&x.energies(), 44100), Err(BpmError::InsufficientData));
}

#[test]
fn stream_just_short_of_three_windows_is_insufficient() {
    let c = BpmConfig::default();
    let tone = sine(440.0, 10000.0, 44100, 2048 + 2 * 1024 - 1);
    let e = envelope_of(&tone, &c, 44100);
    assert_eq!(e.len(), 2);
    assert_eq!(BpmDetector::new().detect_from_samples(&e, 44100), Err(BpmError::InsufficientData));
    let tone = sine(440.0, 10000.0, 44100, 2048 + 2 * 1024);
    assert_eq!(envelope_of(&tone, &c, 44100).len(), 3);
}
