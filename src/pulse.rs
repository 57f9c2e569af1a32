//! Pulse-train envelopes: a periodic envelope is detected at the tempo of its
//! period.

use vstd::prelude::*;
use vstd::arithmetic::div_mod::{lemma_fundamental_div_mod, lemma_fundamental_div_mod_converse};
use crate::analysis::{
    lag_mean, lag_sum, lemma_seq_max, max_lag, min_lag, normalized, score, seq_max, NORM_ONE,
    SCORE_ONE,
};
use crate::config::{Bpm, BpmConfig, BpmError};
use crate::detector::detection;
use crate::selection::{
    above_threshold, candidates, half_bpm, in_bpm_range, in_range_test, is_peak,
    lemma_peak_in_envelope, lemma_peaks_below, lemma_rank_order_total, peaks, rank_order, ranked,
    selected, top_peaks,
};

verus! {

/// `q` is a normalised pulse train: the fixed-point one every `period` hops
/// from the first, zero elsewhere.
pub open spec fn is_unit_pulse_train(q: Seq<u64>, period: int) -> bool {
    forall|i: int| 0 <= i < q.len() ==> #[trigger] q[i] == if i % period == 0 {
        NORM_ONE
    } else {
        0
    }
}

proof fn lemma_ceil_step(k: int, p: int)
    requires
        k >= 0,
        p >= 1,
    ensures
        (k + p) / p == (k + p - 1) / p + (if k % p == 0 { 1int } else { 0 }),
{
    lemma_fundamental_div_mod(k, p);
    let a = k / p;
    let b = k % p;
    vstd::arithmetic::div_mod::lemma_mod_bound(k, p);
    assert((a + 1) * p == a * p + p && p * a == a * p) by (nonlinear_arith);
    lemma_fundamental_div_mod_converse(k + p, p, a + 1, b);
    if b == 0 {
        lemma_fundamental_div_mod_converse(k + p - 1, p, a, p - 1);
    } else {
        lemma_fundamental_div_mod_converse(k + p - 1, p, a + 1, b - 1);
    }
}

/// At a lag that is not a multiple of the period no two pulses meet.
proof fn lemma_off_period_sum(q: Seq<u64>, p: int, lag: int, k: int)
    requires
        p >= 1,
        is_unit_pulse_train(q, p),
        lag >= 0,
        lag % p != 0,
        0 <= k,
        k + lag <= q.len(),
    ensures
        lag_sum(q, lag, k) == 0,
    decreases k,
{
    if k > 0 {
        lemma_off_period_sum(q, p, lag, k - 1);
        let i = k - 1;
        if i % p == 0 {
            vstd::arithmetic::div_mod::lemma_add_mod_noop(i, lag, p);
            vstd::arithmetic::div_mod::lemma_mod_twice(lag, p);
            vstd::arithmetic::div_mod::lemma_small_mod(0, p as nat);
            assert((i + lag) % p != 0);
            assert(q[i + lag] == 0);
        }
    }
}

/// At a multiple of the period the pulses among the first `k` positions
/// each meet a pulse.
proof fn lemma_on_period_sum(q: Seq<u64>, p: int, lag: int, k: int)
    requires
        p >= 1,
        is_unit_pulse_train(q, p),
        lag >= 0,
        lag % p == 0,
        0 <= k,
        k + lag <= q.len(),
    ensures
        lag_sum(q, lag, k) == SCORE_ONE * ((k + p - 1) / p),
    decreases k,
{
    if k > 0 {
        lemma_on_period_sum(q, p, lag, k - 1);
        lemma_ceil_step(k - 1, p);
        let i = k - 1;
        if i % p == 0 {
            lemma_fundamental_div_mod(i, p);
            lemma_fundamental_div_mod(lag, p);
            let x = i / p;
            let y = lag / p;
            assert(i + lag == (x + y) * p) by (nonlinear_arith)
                requires
                    i == p * x,
                    lag == p * y,
            ;
            lemma_fundamental_div_mod_converse(i + lag, p, x + y, 0);
            assert(q[i] == NORM_ONE);
            assert(q[i + lag] == NORM_ONE);
            assert(NORM_ONE * NORM_ONE == SCORE_ONE);
            assert(lag_sum(q, lag, k) == lag_sum(q, lag, i) + SCORE_ONE);
            let c1 = (k + p - 1) / p;
            let c0 = (i + p - 1) / p;
            assert(SCORE_ONE * c1 == SCORE_ONE * c0 + SCORE_ONE) by (nonlinear_arith)
                requires
                    c1 == c0 + 1,
            ;
        } else {
            assert(q[i] == 0);
            assert(lag_sum(q, lag, k) == lag_sum(q, lag, i));
            assert((k + p - 1) / p == (i + p - 1) / p);
        }
    } else {
        lemma_fundamental_div_mod_converse(p - 1, p, 0, p - 1);
    }
}

/// The mean lagged product of a pulse train that is a whole number of
/// periods long: `1 / period` at a multiple of the period shorter than the
/// train, zero at any other lag.
pub proof fn lemma_pulse_train_mean(q: Seq<u64>, p: int, lag: int)
    requires
        p >= 1,
        is_unit_pulse_train(q, p),
        (q.len() as int) % p == 0,
        0 <= lag,
    ensures
        lag_mean(q, lag) == if lag % p == 0 && lag < q.len() {
            (SCORE_ONE as int) / p
        } else {
            0
        },
{
    let n = q.len() as int;
    if lag < n {
        let k = n - lag;
        if lag % p == 0 {
            lemma_on_period_sum(q, p, lag, k);
            lemma_fundamental_div_mod(n, p);
            lemma_fundamental_div_mod(lag, p);
            let t = n / p - lag / p;
            assert(k == t * p) by (nonlinear_arith)
                requires
                    n == p * (n / p),
                    lag == p * (lag / p),
                    k == n - lag,
                    t == n / p - lag / p,
            ;
            assert(t >= 1) by (nonlinear_arith)
                requires
                    k == t * p,
                    k >= 1,
                    p >= 1,
            ;
            lemma_fundamental_div_mod_converse(k + p - 1, p, t, p - 1);
            let s = SCORE_ONE as int;
            lemma_fundamental_div_mod(s, p);
            let d = s / p;
            let r = s % p;
            assert(s * t == d * (t * p) + r * t && 0 <= r * t < t * p) by (nonlinear_arith)
                requires
                    s == p * d + r,
                    0 <= r < p,
                    t >= 1,
            ;
            lemma_fundamental_div_mod_converse(s * t, t * p, d, r * t);
        } else {
            lemma_off_period_sum(q, p, lag, k);
        }
    }
}

/// A pulse train detected at its period: an envelope of equal pulses every
/// `period` hops (zero between them), a whole number of at least two periods
/// long, is detected at the tempo `60 * sample_rate / (period * hop_size)`
/// quantised to the nearest half beat per minute, provided that the period is
/// an interior lag of the lag range, that its tempo lies in the configured
/// range, and that its periodicity score `1 / period` exceeds the threshold.
pub proof fn law_pulse_train(
    c: BpmConfig,
    e: Seq<u64>,
    sample_rate: int,
    period: int,
    height: u64,
)
    requires
        c.valid(),
        e.len() <= usize::MAX,
        period >= 2,
        e.len() >= 2 * period,
        (e.len() as int) % period == 0,
        height > 0,
        forall|i: int| 0 <= i < e.len() ==> #[trigger] e[i] == if i % period == 0 {
            height
        } else {
            0
        },
        min_lag(c, sample_rate) <= period,
        period + 1 < max_lag(c, sample_rate),
        in_bpm_range(c, sample_rate, period),
        above_threshold((SCORE_ONE as int) / period, c.autocorr_threshold as int),
    ensures
        detection(c, e, sample_rate) == Ok::<Bpm, BpmError>(
            Bpm { halves: half_bpm(c, sample_rate, period) as u64 },
        ),
{
    let n = e.len() as int;
    let sr = sample_rate;
    let s = (SCORE_ONE as int) / period;
    // The envelope's largest value is the pulse height.
    lemma_seq_max(e);
    assert(e[0] == height);
    assert(seq_max(e) == height);
    // Normalised, it is a unit pulse train.
    let q = normalized(e);
    assert forall|i: int| 0 <= i < q.len() implies #[trigger] q[i] == if i % period == 0 {
        NORM_ONE
    } else {
        0
    } by {
        if i % period == 0 {
            lemma_fundamental_div_mod_converse(height * NORM_ONE, height as int, NORM_ONE as int, 0);
        }
    }
    assert(s > 0);
    assert(s <= SCORE_ONE) by {
        vstd::arithmetic::div_mod::lemma_div_is_ordered_by_denominator(SCORE_ONE as int, 1, period);
    }
    // Every score is `s` at a multiple of the period inside the range and the
    // envelope, zero elsewhere.
    assert forall|l: int| l >= 0 implies #[trigger] score(c, sr, q, l) == if min_lag(c, sr) <= l
        < max_lag(c, sr) && l % period == 0 && l < n {
        s
    } else {
        0
    } by {
        lemma_pulse_train_mean(q, period, l);
    }
    vstd::arithmetic::div_mod::lemma_mod_self_0(period);
    vstd::arithmetic::div_mod::lemma_small_mod((period - 1) as nat, period as nat);
    lemma_fundamental_div_mod_converse(period + 1, period, 1, 1);
    assert(is_peak(c, sr, q, period));
    // Every peak is a multiple of the period with score `s`.
    let pk = peaks(c, sr, q);
    lemma_peaks_below(c, sr, q, max_lag(c, sr));
    assert forall|j: int| 0 <= j < pk.len() implies (#[trigger] pk[j]).0 >= period && pk[j].1
        == s by {
        let l = pk[j].0 as int;
        lemma_peak_in_envelope(c, sr, q, l);
        if l < period {
            vstd::arithmetic::div_mod::lemma_small_mod(l as nat, period as nat);
        }
    }
    let j0 = choose|j: int| 0 <= j < pk.len() && (#[trigger] pk[j]).0 == period;
    let best = pk[j0];
    // The strongest-ranked peak is the period itself.
    let order = rank_order();
    let rk = ranked(pk);
    lemma_rank_order_total();
    pk.lemma_sort_by_ensures(order);
    assert(pk.to_multiset().count(best) > 0) by {
        vstd::seq_lib::to_multiset_contains(pk, best);
    }
    assert(rk.contains(best)) by {
        vstd::seq_lib::to_multiset_contains(rk, best);
    }
    let jb = choose|j: int| 0 <= j < rk.len() && rk[j] == best;
    let first = rk[0];
    assert(pk.contains(first)) by {
        vstd::seq_lib::to_multiset_contains(rk, first);
        vstd::seq_lib::to_multiset_contains(pk, first);
    }
    assert(first == best) by {
        if jb > 0 {
            assert(order(rk[0], rk[jb]));
        }
    }
    // The candidates start with it, and none has a shorter lag.
    let top = top_peaks(c, sr, q);
    assert(top[0] == best);
    assert forall|j: int| 0 <= j < top.len() implies (#[trigger] top[j]).0 >= period by {
        assert(rk.contains(top[j]));
        assert(pk.contains(top[j])) by {
            vstd::seq_lib::to_multiset_contains(rk, top[j]);
            vstd::seq_lib::to_multiset_contains(pk, top[j]);
        }
    }
    let test = in_range_test(c, sr);
    let cands = candidates(c, sr, top);
    assert(top =~= seq![top[0]] + top.drop_first());
    top.drop_first().lemma_filter_prepend(top[0], test);
    assert(cands[0] == best);
    if cands.len() >= 2 {
        assert(cands.contains(cands[1]));
        top.lemma_filter_contains_rev(test, cands[1]);
    }
    assert(selected(cands) == best);
}

} // verus!
