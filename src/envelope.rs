//! The energy envelope: band-limited spectral energy of successive analysis
//! windows of a mono sample stream.

use vstd::prelude::*;
use realfft::RealFftPlanner;
use rustfft::num_complex::Complex32;
use crate::analysis::{lemma_round_ratio_bound, round_ratio};
use crate::config::BpmConfig;

verus! {

/// Relies on realfft's forward real-input FFT (`RealFftPlanner::plan_fft_forward`,
/// `RealToComplex::process`) and on num_complex's `Complex::norm_sqr`: the
/// squared magnitude of each of the `n / 2 + 1` bins of an `n`-sample window,
/// converted to `u64` (saturating). `process` fails only on buffers of the
/// wrong length, and both buffers here come from the plan, so the result is
/// always `Some`. The transform is linear: an all-zero window gives an
/// all-zero spectrum.
#[verifier::external_body]
fn power_spectrum(window: &Vec<i32>) -> (r: Option<Vec<u64>>)
    requires
        window@.len() > 0,
    ensures
        r is Some,
        r matches Some(p) ==> p@.len() == window@.len() / 2 + 1,
        r matches Some(p) ==> ((forall|i: int| 0 <= i < window@.len() ==> #[trigger] window@[i]
            == 0) ==> (forall|k: int| 0 <= k < p@.len() ==> #[trigger] p@[k] == 0)),
{
    let r2c = RealFftPlanner::new().plan_fft_forward(window.len());
    let mut spectrum: Vec<Complex32> = r2c.make_output_vec();
    let mut input: Vec<_> = window.iter().map(|&s| s as _).collect();
    match r2c.process(&mut input, &mut spectrum) {
        Ok(()) => Some(spectrum.iter().map(|c| c.norm_sqr() as u64).collect()),
        Err(_) => None,
    }
}

/// The sum of `p[j]` over `low <= j < k`.
pub open spec fn bin_sum(p: Seq<u64>, low: int, k: int) -> int
    decreases k - low,
{
    if k <= low {
        0
    } else {
        bin_sum(p, low, k - 1) + p[k - 1]
    }
}

/// The energy of the bins `[low, high)` of a power spectrum (bins past its end
/// do not exist), saturated at `u64::MAX`.
pub open spec fn band_energy_of(p: Seq<u64>, low: int, high: int) -> int {
    let end = if high <= p.len() {
        high
    } else {
        p.len() as int
    };
    let s = bin_sum(p, low, end);
    if s <= u64::MAX {
        s
    } else {
        u64::MAX as int
    }
}

proof fn lemma_bin_sum_monotone(p: Seq<u64>, low: int, k: int)
    ensures
        bin_sum(p, low, k) >= 0,
        k > low ==> bin_sum(p, low, k) >= bin_sum(p, low, k - 1),
    decreases k - low,
{
    if k > low {
        lemma_bin_sum_monotone(p, low, k - 1);
    }
}

proof fn lemma_bin_sum_zero(p: Seq<u64>, low: int, k: int)
    requires
        forall|j: int| 0 <= j < p.len() ==> #[trigger] p[j] == 0,
        0 <= low,
        k <= p.len(),
    ensures
        bin_sum(p, low, k) == 0,
    decreases k - low,
{
    if k > low {
        lemma_bin_sum_zero(p, low, k - 1);
    }
}

/// The energy of the bins `[low_bin, high_bin)` of a power spectrum:
/// the sum of their values, saturated at `u64::MAX`.
pub fn band_energy(power: &[u64], low_bin: usize, high_bin: usize) -> (r: u64)
    ensures
        r == band_energy_of(power@, low_bin as int, high_bin as int),
{
    let end = if high_bin <= power.len() {
        high_bin
    } else {
        power.len()
    };
    let mut acc: u64 = 0;
    let mut k: usize = low_bin;
    if k < end {
        while k < end
            invariant
                low_bin <= k <= end <= power@.len(),
                acc == (if bin_sum(power@, low_bin as int, k as int) <= u64::MAX {
                    bin_sum(power@, low_bin as int, k as int)
                } else {
                    u64::MAX as int
                }),
            decreases end - k,
        {
            proof {
                lemma_bin_sum_monotone(power@, low_bin as int, k as int);
                lemma_bin_sum_monotone(power@, low_bin as int, k + 1);
            }
            acc = acc.saturating_add(power[k]);
            k = k + 1;
        }
    }
    acc
}

/// Every sample of `s` in `[a, b)` is zero.
pub open spec fn silent(s: Seq<i32>, a: int, b: int) -> bool {
    forall|i: int| a <= i < b ==> #[trigger] s[i] == 0
}

proof fn lemma_earlier_window_ends(k: int, n: int, hop: int, window: int)
    requires
        0 <= k < n,
        hop >= 1,
    ensures
        k * hop + window <= (n - 1) * hop + window,
{
    assert(k * hop <= (n - 1) * hop) by (nonlinear_arith)
        requires
            0 <= k <= n - 1,
            hop >= 1,
    ;
}

/// The spectrum bin nearest to `freq` hertz for a `window`-sample analysis at
/// `sample_rate`: `round(freq / (sample_rate / window))`.
pub open spec fn bin_index(freq: int, window: int, sample_rate: int) -> int {
    round_ratio(freq * window, sample_rate)
}

/// A bin index limited to the `window / 2 + 1` bins of the spectrum.
pub open spec fn clamp_bin(b: int, window: int) -> int {
    if b <= window / 2 + 1 {
        b
    } else {
        window / 2 + 1
    }
}

/// The spectrum bin nearest to `freq` hertz, limited to the spectrum's
/// `window / 2 + 1` bins.
pub fn bin_for_frequency(freq: u32, window: usize, sample_rate: u32) -> (r: usize)
    requires
        sample_rate > 0,
    ensures
        r == clamp_bin(bin_index(freq as int, window as int, sample_rate as int), window as int),
{
    assert(freq * window <= u32::MAX * u64::MAX) by (nonlinear_arith)
        requires
            freq <= u32::MAX,
            window <= u64::MAX,
    ;
    let a = (freq as u128) * (window as u128);
    let b = sample_rate as u128;
    proof {
        lemma_round_ratio_bound(a as int, b as int);
    }
    let idx = (2 * a + b) / (2 * b);
    let top = window / 2 + 1;
    if idx <= top as u128 {
        idx as usize
    } else {
        top
    }
}

/// The floor of the mean of a frame's channel values.
pub open spec fn mean_floor(frame: Seq<i32>) -> int {
    frame_sum(frame, frame.len() as int) / (frame.len() as int)
}

/// The sum of the first `k` channel values.
pub open spec fn frame_sum(frame: Seq<i32>, k: int) -> int
    decreases k,
{
    if k <= 0 {
        0
    } else {
        frame_sum(frame, k - 1) + frame[k - 1]
    }
}

proof fn lemma_frame_sum_bound(frame: Seq<i32>, k: int)
    requires
        0 <= k <= frame.len(),
    ensures
        k * i32::MIN <= frame_sum(frame, k) <= k * i32::MAX,
    decreases k,
{
    if k > 0 {
        lemma_frame_sum_bound(frame, k - 1);
    }
}

/// Mixes the channel values of one frame down to one mono value: their mean,
/// rounded down.
pub fn downmix(frame: &[i32]) -> (r: i32)
    requires
        frame@.len() > 0,
    ensures
        r == mean_floor(frame@),
{
    let n = frame.len();
    let mut sum: i128 = 0;
    let mut i: usize = 0;
    while i < n
        invariant
            n == frame@.len(),
            i <= n,
            sum == frame_sum(frame@, i as int),
            i * i32::MIN <= sum <= i * i32::MAX,
        decreases n - i,
    {
        proof {
            lemma_frame_sum_bound(frame@, i + 1);
        }
        sum = sum + frame[i] as i128;
        i = i + 1;
    }
    let ghost s = sum as int;
    let ghost m = n as int;
    let ghost q = s / m;
    assert(i32::MIN <= q <= i32::MAX) by (nonlinear_arith)
        requires
            m * i32::MIN <= s <= m * i32::MAX,
            m >= 1,
            q == s / m,
    ;
    let len = n as u128;
    if sum >= 0 {
        let r = (sum as u128) / len;
        assert(r == q);
        r as i32
    } else {
        let neg = (-sum) as u128;
        let r = (neg + len - 1) / len;
        assert(r == -q) by (nonlinear_arith)
            requires
                neg == -s,
                s < 0,
                m >= 1,
                q == s / m,
                len == m,
                r as int == (neg as int + len as int - 1) / (len as int),
        ;
        -(r as i128) as i32
    }
}

/// A mono sample from an unsigned 8-bit sample (midpoint 128), on the signed
/// 16-bit scale.
pub fn sample_from_u8(v: u8) -> (r: i32)
    ensures
        r == (v - 128) * 256,
{
    (v as i32 - 128) * 256
}

/// A mono sample from a signed 16-bit sample.
pub fn sample_from_i16(v: i16) -> (r: i32)
    ensures
        r == v,
{
    v as i32
}

/// Turns a mono sample stream into its energy envelope: one band energy per
/// analysis window, windows starting every `hop` samples. Samples are kept in
/// a ring buffer of one window, so a hop costs no shifting.
pub struct EnvelopeExtractor {
    window: usize,
    hop: usize,
    low_bin: usize,
    high_bin: usize,
    ring: Vec<i32>,
    head: usize,
    len: usize,
    energies: Vec<u64>,
    stream: Ghost<Seq<i32>>,
    spectra: Ghost<Seq<Seq<u64>>>,
}

impl EnvelopeExtractor {
    /// Samples per analysis window.
    pub closed spec fn window_len(&self) -> int {
        self.window as int
    }

    /// Samples between the starts of consecutive windows.
    pub closed spec fn hop_len(&self) -> int {
        self.hop as int
    }

    /// The band of spectrum bins `[low, high)` whose energy is summed.
    pub closed spec fn band(&self) -> (int, int) {
        (self.low_bin as int, self.high_bin as int)
    }

    /// Every mono sample pushed so far.
    pub closed spec fn stream(&self) -> Seq<i32> {
        self.stream@
    }

    /// The envelope so far: one energy per completed window.
    pub closed spec fn envelope(&self) -> Seq<u64> {
        self.energies@
    }

    /// The power spectrum computed for each completed window.
    pub closed spec fn spectra(&self) -> Seq<Seq<u64>> {
        self.spectra@
    }

    /// The internal state is consistent: the ring holds the samples after the
    /// last dropped hop, fewer than a window of them, and each energy is the
    /// band energy of the recorded spectrum at its index, which has
    /// `window / 2 + 1` bins.
    pub closed spec fn wf(&self) -> bool {
        &&& self.holds_stream()
        &&& self.len < self.window
    }

    /// The ring holds the samples after the last dropped hop (at most a
    /// window of them) and each energy is the band energy of the recorded
    /// spectrum at its index, which has `window / 2 + 1` bins.
    closed spec fn holds_stream(&self) -> bool {
        &&& 1 <= self.hop <= self.window
        &&& self.ring@.len() == self.window
        &&& self.head < self.window
        &&& self.len <= self.window
        &&& self.low_bin <= self.window / 2 + 1
        &&& self.high_bin <= self.window / 2 + 1
        &&& self.stream@.len() == self.energies@.len() * self.hop + self.len
        &&& forall|i: int|
            0 <= i < self.len ==> #[trigger] self.ring@[(self.head + i) % (self.window as int)]
                == self.stream@[self.energies@.len() * self.hop + i]
        &&& self.spectra@.len() == self.energies@.len()
        &&& forall|k: int|
            0 <= k < self.energies@.len() ==> {
                &&& (#[trigger] self.spectra@[k]).len() == self.window / 2 + 1
                &&& self.energies@[k] == band_energy_of(
                    self.spectra@[k],
                    self.low_bin as int,
                    self.high_bin as int,
                )
            }
        &&& self.energies@.len() > 0 ==> self.len + self.hop >= self.window
        &&& forall|k: int|
            0 <= k < self.energies@.len() && silent(
                self.stream@,
                k * self.hop,
                k * self.hop + self.window,
            ) ==> #[trigger] self.energies@[k] == 0
    }

    /// The number of samples waiting for their window to complete.
    pub closed spec fn pending(&self) -> int {
        self.len as int
    }

    /// An extractor with no samples yet, for the configured window, hop and
    /// frequency band at `sample_rate` samples per second.
    pub fn new(config: &BpmConfig, sample_rate: u32) -> (r: Self)
        requires
            config.valid(),
            sample_rate > 0,
        ensures
            r.wf(),
            r.window_len() == config.fft_size,
            r.hop_len() == config.hop_size,
            r.band() == (
                clamp_bin(
                    bin_index(config.min_frequency as int, config.fft_size as int, sample_rate as int),
                    config.fft_size as int,
                ),
                clamp_bin(
                    bin_index(config.max_frequency as int, config.fft_size as int, sample_rate as int),
                    config.fft_size as int,
                ),
            ),
            r.stream() == Seq::<i32>::empty(),
            r.envelope() == Seq::<u64>::empty(),
    {
        let window = config.fft_size;
        let low_bin = bin_for_frequency(config.min_frequency, window, sample_rate);
        let high_bin = bin_for_frequency(config.max_frequency, window, sample_rate);
        EnvelopeExtractor {
            window,
            hop: config.hop_size,
            low_bin,
            high_bin,
            ring: vec![0; window],
            head: 0,
            len: 0,
            energies: Vec::new(),
            stream: Ghost(Seq::empty()),
            spectra: Ghost(Seq::empty()),
        }
    }

    /// The samples of the current window, oldest first: the stream from the
    /// first sample not yet dropped.
    fn current_window(&self) -> (r: Vec<i32>)
        requires
            self.holds_stream(),
        ensures
            r@ == self.stream().subrange(
                self.envelope().len() * self.hop_len(),
                self.stream().len() as int,
            ),
    {
        let mut r: Vec<i32> = Vec::with_capacity(self.len);
        let mut i: usize = 0;
        let ghost start = self.energies@.len() * self.hop;
        while i < self.len
            invariant
                self.holds_stream(),
                start == self.energies@.len() * self.hop,
                i <= self.len,
                r@ == self.stream@.subrange(start, start + i),
            decreases self.len - i,
        {
            let pos = if i < self.window - self.head {
                self.head + i
            } else {
                i - (self.window - self.head)
            };
            proof {
                let w = self.window as int;
                let j = self.head + i;
                if j < w {
                    vstd::arithmetic::div_mod::lemma_small_mod(j as nat, w as nat);
                } else {
                    vstd::arithmetic::div_mod::lemma_mod_sub_multiples_vanish(j, w);
                    vstd::arithmetic::div_mod::lemma_small_mod((j - w) as nat, w as nat);
                }
                assert(self.ring@[pos as int] == self.stream@[start + i]);
                assert(self.stream@.subrange(start, start + i + 1) =~= self.stream@.subrange(
                    start,
                    start + i,
                ).push(self.stream@[start + i]));
            }
            r.push(self.ring[pos]);
            i = i + 1;
        }
        r
    }

    /// `next` is this extractor after `sample` was pushed: the stream grows
    /// by the sample; where that completes a window, the envelope grows by
    /// the band energy of a spectrum of `window_len / 2 + 1` bins (zero for
    /// a window of silence) and `hop_len` samples are dropped; otherwise
    /// the sample waits.
    pub open spec fn pushed(self, next: Self, sample: i32) -> bool {
        &&& next.wf()
        &&& next.window_len() == self.window_len()
        &&& next.hop_len() == self.hop_len()
        &&& next.band() == self.band()
        &&& next.stream() == self.stream().push(sample)
        &&& if self.pending() + 1 == self.window_len() {
            &&& next.envelope().len() == self.envelope().len() + 1
            &&& next.envelope().drop_last() == self.envelope()
            &&& next.spectra().drop_last() == self.spectra()
            &&& next.spectra().last().len() == self.window_len() / 2 + 1
            &&& next.envelope().last() == band_energy_of(
                next.spectra().last(),
                self.band().0,
                self.band().1,
            )
            &&& silent(
                next.stream(),
                self.envelope().len() * self.hop_len(),
                next.stream().len() as int,
            ) ==> next.envelope().last() == 0
            &&& next.pending() == self.window_len() - self.hop_len()
        } else {
            &&& next.envelope() == self.envelope()
            &&& next.spectra() == self.spectra()
            &&& next.pending() == self.pending() + 1
        }
    }

    /// Appends one mono sample. When a whole window has arrived, its power
    /// spectrum is computed, its band energy is appended to the envelope and
    /// the oldest `hop` samples are dropped.
    pub fn push_sample(&mut self, sample: i32)
        requires
            old(self).wf(),
        ensures
            old(self).pushed(*final(self), sample),
    {
        let ghost before = *self;
        let ghost w = self.window as int;
        let ghost start = self.energies@.len() * self.hop;
        let pos = if self.len < self.window - self.head {
            self.head + self.len
        } else {
            self.len - (self.window - self.head)
        };
        proof {
            let j = self.head + self.len;
            if j < w {
                vstd::arithmetic::div_mod::lemma_small_mod(j as nat, w as nat);
            } else {
                vstd::arithmetic::div_mod::lemma_mod_sub_multiples_vanish(j, w);
                vstd::arithmetic::div_mod::lemma_small_mod((j - w) as nat, w as nat);
            }
        }
        let ghost old_ring = self.ring@;
        self.ring.set(pos, sample);
        self.len = self.len + 1;
        self.stream = Ghost(self.stream@.push(sample));
        proof {
            assert forall|i: int| 0 <= i < self.len implies #[trigger] self.ring@[(self.head + i) % w]
                == self.stream@[start + i] by {
                if i < self.len - 1 {
                    let j = self.head + i;
                    if j < w {
                        vstd::arithmetic::div_mod::lemma_small_mod(j as nat, w as nat);
                    } else {
                        vstd::arithmetic::div_mod::lemma_mod_sub_multiples_vanish(j, w);
                        vstd::arithmetic::div_mod::lemma_small_mod((j - w) as nat, w as nat);
                    }
                    assert(old_ring[(self.head + i) % w] == self.ring@[(self.head + i) % w]);
                }
            }
            let h = self.hop as int;
            let kk = self.energies@.len() as int;
            assert forall|k: int|
                0 <= k < kk && silent(self.stream@, k * h, k * h + w) implies #[trigger] before.energies@[k]
                == 0 by {
                lemma_earlier_window_ends(k, kk, h, w);
                assert((kk - 1) * h + w <= kk * h + before.len) by (nonlinear_arith)
                    requires
                        before.len + h >= w,
                ;
                assert forall|i: int| k * h <= i < k * h + w implies #[trigger] before.stream@[i]
                    == 0 by {
                    assert(self.stream@[i] == 0);
                }
            }
        }
        let ghost pushed_stream = self.stream@;
        if self.len < self.window {
            return;
        }
        let frame = self.current_window();
        let power = power_spectrum(&frame).unwrap();
        let energy = band_energy(power.as_slice(), self.low_bin, self.high_bin);
        let ghost stream_now = self.stream@;
        let ghost old_energies = self.energies@;
        let ghost old_spectra = self.spectra@;
        self.energies.push(energy);
        self.spectra = Ghost(self.spectra@.push(power@));
        let ghost old_head = self.head as int;
        self.head = if self.hop < self.window - self.head {
            self.head + self.hop
        } else {
            self.hop - (self.window - self.head)
        };
        self.len = self.len - self.hop;
        proof {
            let h = self.hop as int;
            let new_start = self.energies@.len() * h;
            assert(new_start == start + h) by (nonlinear_arith)
                requires
                    new_start == self.energies@.len() * h,
                    start == old_energies.len() * h,
                    self.energies@.len() == old_energies.len() + 1,
            ;
            assert(self.head == (old_head + h) % w) by {
                if old_head + h < w {
                    vstd::arithmetic::div_mod::lemma_small_mod((old_head + h) as nat, w as nat);
                } else {
                    vstd::arithmetic::div_mod::lemma_mod_sub_multiples_vanish(old_head + h, w);
                    vstd::arithmetic::div_mod::lemma_small_mod((old_head + h - w) as nat, w as nat);
                }
            }
            assert forall|i: int| 0 <= i < self.len implies #[trigger] self.ring@[(self.head + i) % w]
                == self.stream@[new_start + i] by {
                vstd::arithmetic::div_mod::lemma_add_mod_noop(old_head + h, i, w);
                vstd::arithmetic::div_mod::lemma_small_mod(i as nat, w as nat);
                vstd::arithmetic::div_mod::lemma_mod_twice(old_head + h, w);
                assert((old_head + (h + i)) % w == (self.head + i) % w);
                assert(self.ring@[(old_head + (h + i)) % w] == self.stream@[start + (h + i)]);
            }
            assert forall|k: int| 0 <= k < self.energies@.len() implies {
                &&& (#[trigger] self.spectra@[k]).len() == self.window / 2 + 1
                &&& self.energies@[k] == band_energy_of(
                    self.spectra@[k],
                    self.low_bin as int,
                    self.high_bin as int,
                )
            } by {}
            assert(self.energies@.drop_last() =~= old_energies);
            assert(self.spectra@.drop_last() =~= old_spectra);
            assert(self.energies@.last() == energy);
            assert(start == before.envelope().len() * before.hop_len());
            if silent(self.stream@, start, self.stream@.len() as int) {
                assert forall|i: int| 0 <= i < frame@.len() implies #[trigger] frame@[i] == 0 by {
                    assert(frame@[i] == stream_now[start + i]);
                    assert(self.stream()[start + i] == 0);
                }
                lemma_bin_sum_zero(power@, self.low_bin as int, if self.high_bin <= power@.len() {
                    self.high_bin as int
                } else {
                    power@.len() as int
                });
                assert(energy == 0);
            }
            let kk = old_energies.len() as int;
            assert forall|k: int|
                0 <= k < self.energies@.len() && silent(
                    self.stream@,
                    k * h,
                    k * h + w,
                ) implies #[trigger] self.energies@[k] == 0 by {
                if k < kk {
                    assert(self.stream@ == pushed_stream);
                    assert(self.energies@[k] == old_energies[k]);
                    assert(before.energies@[k] == old_energies[k]);
                } else {
                    assert(k * h == start) by (nonlinear_arith)
                        requires
                            k == kk,
                            start == kk * h,
                    ;
                }
            }
        }
    }

    /// Appends one frame, mixed down to the mean of its channel values
    /// (rounded down); see `push_sample`.
    pub fn push_frame(&mut self, channels: &[i32])
        requires
            old(self).wf(),
            channels@.len() > 0,
        ensures
            old(self).pushed(*final(self), mean_floor(channels@) as i32),
            mean_floor(channels@) == mean_floor(channels@) as i32,
    {
        let m = downmix(channels);
        self.push_sample(m);
    }

    /// A consistent extractor holds one energy per completed window: the
    /// stream is the dropped hops followed by the pending samples (fewer than
    /// a window, and once a window has completed at least `window_len -
    /// hop_len` of them). Each energy is the band energy of the recorded
    /// spectrum at its index, which has `window_len / 2 + 1` bins, and is zero
    /// where its window `[k * hop_len, k * hop_len + window_len)` of the
    /// stream is silent.
    pub proof fn lemma_envelope_shape(&self)
        requires
            self.wf(),
        ensures
            self.stream().len() == self.envelope().len() * self.hop_len() + self.pending(),
            0 <= self.pending() < self.window_len(),
            1 <= self.hop_len() <= self.window_len(),
            self.envelope().len() > 0 ==> self.pending() + self.hop_len() >= self.window_len(),
            self.spectra().len() == self.envelope().len(),
            forall|k: int|
                0 <= k < self.envelope().len() ==> {
                    &&& (#[trigger] self.spectra()[k]).len() == self.window_len() / 2 + 1
                    &&& self.envelope()[k] == band_energy_of(
                        self.spectra()[k],
                        self.band().0,
                        self.band().1,
                    )
                },
            forall|k: int|
                0 <= k < self.envelope().len() && silent(
                    self.stream(),
                    k * self.hop_len(),
                    k * self.hop_len() + self.window_len(),
                ) ==> #[trigger] self.envelope()[k] == 0,
    {
    }

    /// The envelope so far.
    pub fn energies(&self) -> (r: Vec<u64>)
        ensures
            r@ == self.envelope(),
    {
        self.energies.clone()
    }
}

} // verus!
