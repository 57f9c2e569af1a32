//! The detector: the whole pipeline from an energy envelope to a tempo, and
//! the laws it obeys.

use vstd::prelude::*;
use crate::analysis::{lemma_seq_max, max_energy, normalize, normalized, round_ratio, seq_max};
use crate::config::{Bpm, BpmConfig, BpmError};
use crate::envelope::{silent, EnvelopeExtractor};
use crate::selection::{
    candidates, close_scores, find_peaks, half_bpm, in_bpm_range, in_range_test, quantize,
    rank_peaks, select_candidates, select_tempo, selected, top_peaks, MAX_PEAKS,
};

verus! {

/// The outcome of a detection on an energy envelope: `InsufficientData` for
/// fewer than three values or an envelope without energy, `NoValidBpm` where
/// no strong peak converts to a tempo in range, and otherwise the chosen
/// candidate's tempo quantised to the nearest half beat per minute.
pub open spec fn detection(c: BpmConfig, e: Seq<u64>, sample_rate: int) -> Result<Bpm, BpmError> {
    if e.len() < 3 || seq_max(e) == 0 {
        Err(BpmError::InsufficientData)
    } else if envelope_candidates(c, e, sample_rate).len() == 0 {
        Err(BpmError::NoValidBpm { min: c.min_bpm, max: c.max_bpm })
    } else {
        Ok(Bpm { halves: half_bpm(c, sample_rate, chosen_lag(c, e, sample_rate)) as u64 })
    }
}

/// The tempo candidates of an envelope, strongest first.
pub open spec fn envelope_candidates(c: BpmConfig, e: Seq<u64>, sample_rate: int) -> Seq<
    (usize, u64),
> {
    candidates(c, sample_rate, top_peaks(c, sample_rate, normalized(e)))
}

/// The lag, in hops, of the candidate that a detection settles on.
pub open spec fn chosen_lag(c: BpmConfig, e: Seq<u64>, sample_rate: int) -> int {
    selected(envelope_candidates(c, e, sample_rate)).0 as int
}

/// Estimates tempo with a fixed configuration.
pub struct BpmDetector {
    config: BpmConfig,
}

impl View for BpmDetector {
    type V = BpmConfig;

    closed spec fn view(&self) -> BpmConfig {
        self.config
    }
}

impl BpmDetector {
    /// A detector with the default configuration.
    pub fn new() -> (r: Self)
        ensures
            r@ == BpmConfig::default_config(),
            r@.valid(),
    {
        BpmDetector { config: BpmConfig::default() }
    }

    /// A detector with the given configuration.
    pub fn with_config(config: BpmConfig) -> (r: Self)
        requires
            config.valid(),
        ensures
            r@ == config,
    {
        BpmDetector { config }
    }

    /// The detector's configuration.
    pub fn config(&self) -> (r: BpmConfig)
        ensures
            r == self@,
    {
        self.config
    }

    /// Estimates the tempo of an energy envelope taken with the configured hop
    /// length at `sample_rate` samples per second.
    pub fn detect_from_samples(&self, energies: &[u64], sample_rate: u32) -> (r: Result<
        Bpm,
        BpmError,
    >)
        requires
            self@.valid(),
        ensures
            r == detection(self@, energies@, sample_rate as int),
    {
        if energies.len() < 3 {
            return Err(BpmError::InsufficientData);
        }
        if max_energy(energies) == 0 {
            return Err(BpmError::InsufficientData);
        }
        let q = normalize(energies);
        let peaks = find_peaks(&self.config, sample_rate, q.as_slice());
        let top = rank_peaks(peaks, MAX_PEAKS);
        let cands = select_candidates(&self.config, sample_rate, &top);
        if cands.len() == 0 {
            return Err(BpmError::NoValidBpm { min: self.config.min_bpm, max: self.config.max_bpm });
        }
        let best = select_tempo(&cands);
        proof {
            let test = in_range_test(self@, sample_rate as int);
            top@.lemma_filter_pred(test, 0);
            if cands@.len() >= 2 {
                top@.lemma_filter_pred(test, 1);
            }
            assert(test(best));
        }
        let halves = quantize(&self.config, sample_rate, best.0);
        Ok(Bpm { halves })
    }
}

impl Default for BpmDetector {
    fn default() -> (r: Self)
        ensures
            r@ == BpmConfig::default_config(),
    {
        BpmDetector::new()
    }
}

/// An envelope of fewer than three values is rejected as insufficient data.
pub proof fn law_short_envelope(c: BpmConfig, e: Seq<u64>, sample_rate: int)
    requires
        e.len() < 3,
    ensures
        detection(c, e, sample_rate) == Err::<Bpm, BpmError>(BpmError::InsufficientData),
{
}

/// An envelope whose values are all zero is rejected as insufficient data:
/// it never yields a tempo.
pub proof fn law_silent_envelope(c: BpmConfig, e: Seq<u64>, sample_rate: int)
    requires
        forall|i: int| 0 <= i < e.len() ==> #[trigger] e[i] == 0,
    ensures
        detection(c, e, sample_rate) == Err::<Bpm, BpmError>(BpmError::InsufficientData),
{
    lemma_seq_max(e);
}

/// A successful detection is the nearest multiple of half a beat per minute
/// to the tempo `60 * sample_rate / (lag * hop_size)` of the chosen lag: it
/// differs from that tempo by at most a quarter beat per minute.
pub proof fn law_nearest_half_beat(c: BpmConfig, e: Seq<u64>, sample_rate: int)
    requires
        c.valid(),
        0 <= sample_rate <= u32::MAX,
        detection(c, e, sample_rate) is Ok,
    ensures
        ({
            let halves = detection(c, e, sample_rate)->Ok_0.halves as int;
            let period = chosen_lag(c, e, sample_rate) * c.hop_size;
            &&& period >= 1
            &&& -period <= 2 * halves * period - 240 * sample_rate <= period
        }),
{
    lemma_chosen_in_range(c, e, sample_rate);
    let period = chosen_lag(c, e, sample_rate) * c.hop_size;
    let a = 120 * sample_rate;
    let h = round_ratio(a, period);
    assert(period >= 1) by (nonlinear_arith)
        requires
            chosen_lag(c, e, sample_rate) >= 1,
            c.hop_size >= 1,
            period == chosen_lag(c, e, sample_rate) * c.hop_size,
    ;
    assert(2 * h * period <= 2 * a + period < 2 * h * period + 2 * period) by (nonlinear_arith)
        requires
            h == (2 * a + period) / (2 * period),
            period >= 1,
    ;
    assert(h <= a + 1) by (nonlinear_arith)
        requires
            2 * h * period <= 2 * a + period,
            period >= 1,
            a >= 0,
    ;
    assert(0 <= h);
    assert(h == half_bpm(c, sample_rate, chosen_lag(c, e, sample_rate)));
    assert(detection(c, e, sample_rate)->Ok_0.halves == h);
}

/// A successful detection lies in the configured tempo range: between
/// `min_bpm` and `max_bpm` beats per minute.
pub proof fn law_within_range(c: BpmConfig, e: Seq<u64>, sample_rate: int)
    requires
        c.valid(),
        0 <= sample_rate <= u32::MAX,
        detection(c, e, sample_rate) is Ok,
    ensures
        2 * c.min_bpm <= detection(c, e, sample_rate)->Ok_0.halves <= 2 * c.max_bpm,
{
    law_nearest_half_beat(c, e, sample_rate);
    let lag = chosen_lag(c, e, sample_rate);
    let period = lag * c.hop_size;
    let h = detection(c, e, sample_rate)->Ok_0.halves as int;
    let lo = c.min_bpm as int;
    let hi = c.max_bpm as int;
    assert(lo * period <= 60 * sample_rate <= hi * period) by (nonlinear_arith)
        requires
            lo * lag * c.hop_size <= 60 * sample_rate,
            60 * sample_rate <= hi * lag * c.hop_size,
            period == lag * c.hop_size,
    ;
    assert(2 * lo <= h <= 2 * hi) by (nonlinear_arith)
        requires
            lo * period <= 60 * sample_rate <= hi * period,
            -period <= 2 * h * period - 240 * sample_rate <= period,
            period >= 1,
    ;
}

/// Octave preference: where the runner-up candidate scores within a tenth of
/// the strongest one at a shorter lag (a faster tempo, as for a lag and its
/// half), the detection returns the runner-up's tempo.
pub proof fn law_prefers_faster_close_candidate(c: BpmConfig, e: Seq<u64>, sample_rate: int)
    requires
        e.len() >= 3,
        seq_max(e) > 0,
        envelope_candidates(c, e, sample_rate).len() >= 2,
        close_scores(
            envelope_candidates(c, e, sample_rate)[0].1 as int,
            envelope_candidates(c, e, sample_rate)[1].1 as int,
        ),
        envelope_candidates(c, e, sample_rate)[1].0 < envelope_candidates(c, e, sample_rate)[0].0,
    ensures
        detection(c, e, sample_rate) == Ok::<Bpm, BpmError>(
            Bpm {
                halves: half_bpm(c, sample_rate, envelope_candidates(c, e, sample_rate)[1].0 as int)
                    as u64,
            },
        ),
{
}

/// The chosen candidate's tempo lies in the configured range.
proof fn lemma_chosen_in_range(c: BpmConfig, e: Seq<u64>, sample_rate: int)
    requires
        c.valid(),
        detection(c, e, sample_rate) is Ok,
    ensures
        in_bpm_range(c, sample_rate, chosen_lag(c, e, sample_rate)),
        chosen_lag(c, e, sample_rate) >= 1,
{
    let top = top_peaks(c, sample_rate, normalized(e));
    let test = in_range_test(c, sample_rate);
    top.lemma_filter_pred(test, 0);
    if envelope_candidates(c, e, sample_rate).len() >= 2 {
        top.lemma_filter_pred(test, 1);
    }
    let cands = envelope_candidates(c, e, sample_rate);
    assert(test(selected(cands)));
    let lag = chosen_lag(c, e, sample_rate);
    assert(in_bpm_range(c, sample_rate, lag));
}

/// A mono stream too short for three analysis windows (fewer than
/// `window_len + 2 * hop_len` samples) yields fewer than three energies, so
/// its detection fails with `InsufficientData`.
pub proof fn law_short_stream(x: EnvelopeExtractor, c: BpmConfig, sample_rate: int)
    requires
        x.wf(),
        x.stream().len() < x.window_len() + 2 * x.hop_len(),
    ensures
        x.envelope().len() < 3,
        detection(c, x.envelope(), sample_rate) == Err::<Bpm, BpmError>(BpmError::InsufficientData),
{
    x.lemma_envelope_shape();
    let n = x.envelope().len() as int;
    let h = x.hop_len();
    if n >= 3 {
        assert(n * h >= 3 * h) by (nonlinear_arith)
            requires
                n >= 3,
                h >= 1,
        ;
    }
}

/// A silent mono stream (every sample zero) yields an envelope without
/// energy, so its detection fails with `InsufficientData`.
pub proof fn law_silent_stream(x: EnvelopeExtractor, c: BpmConfig, sample_rate: int)
    requires
        x.wf(),
        silent(x.stream(), 0, x.stream().len() as int),
    ensures
        detection(c, x.envelope(), sample_rate) == Err::<Bpm, BpmError>(BpmError::InsufficientData),
{
    x.lemma_envelope_shape();
    let n = x.envelope().len() as int;
    let h = x.hop_len();
    let w = x.window_len();
    assert forall|k: int| 0 <= k < n implies #[trigger] x.envelope()[k] == 0 by {
        assert(k * h + w <= (n - 1) * h + w) by (nonlinear_arith)
            requires
                0 <= k <= n - 1,
                h >= 1,
        ;
        assert((n - 1) * h + w <= n * h + x.pending()) by (nonlinear_arith)
            requires
                x.pending() + h >= w,
        ;
        assert(k * h >= 0) by (nonlinear_arith)
            requires
                k >= 0,
                h >= 1,
        ;
        assert forall|i: int| k * h <= i < k * h + w implies #[trigger] x.stream()[i] == 0 by {}
    }
    law_silent_envelope(c, x.envelope(), sample_rate);
}

} // verus!
