//! Envelope normalisation, the lag range of interest and the lagged
//! autocorrelation scores.

use vstd::prelude::*;
use crate::config::BpmConfig;

verus! {

/// The fixed-point one of a normalised envelope value (2^24).
pub const NORM_ONE: u64 = 16_777_216;

/// The fixed-point one of a periodicity score: `NORM_ONE` squared (2^48).
pub const SCORE_ONE: u64 = 281_474_976_710_656;

/// The largest value of an envelope; zero for an empty one.
pub open spec fn seq_max(e: Seq<u64>) -> int
    decreases e.len(),
{
    if e.len() == 0 {
        0
    } else {
        let m = seq_max(e.drop_last());
        if e.last() > m {
            e.last() as int
        } else {
            m
        }
    }
}

/// Each envelope value divided by the largest one, in units of `1 / NORM_ONE`
/// (rounded down).
pub open spec fn normalized(e: Seq<u64>) -> Seq<u64> {
    Seq::new(e.len(), |i: int| (e[i] * NORM_ONE / seq_max(e)) as u64)
}

/// The envelope is normalised: no value exceeds the fixed-point one.
pub open spec fn unit_bounded(q: Seq<u64>) -> bool {
    forall|i: int| 0 <= i < q.len() ==> #[trigger] q[i] <= NORM_ONE
}

/// `a / b` rounded to the nearest integer, halves away from zero.
pub open spec fn round_ratio(a: int, b: int) -> int {
    (2 * a + b) / (2 * b)
}

/// The shortest lag of interest, in hops: the period of the fastest tempo,
/// `(60 / max_bpm) / (hop_size / sample_rate)`, rounded.
pub open spec fn min_lag(c: BpmConfig, sample_rate: int) -> int {
    round_ratio(60 * sample_rate, c.max_bpm * c.hop_size)
}

/// One past the longest lag of interest, in hops: the period of the slowest
/// tempo, `(60 / min_bpm) / (hop_size / sample_rate)`, rounded.
pub open spec fn max_lag(c: BpmConfig, sample_rate: int) -> int {
    round_ratio(60 * sample_rate, c.min_bpm * c.hop_size)
}

/// The sum of `q[i] * q[i + lag]` over `i < k`.
pub open spec fn lag_sum(q: Seq<u64>, lag: int, k: int) -> int
    decreases k,
{
    if k <= 0 {
        0
    } else {
        lag_sum(q, lag, k - 1) + q[k - 1] * q[k - 1 + lag]
    }
}

/// The mean of `q[i] * q[i + lag]` over the `len - lag` overlapping pairs,
/// rounded down; zero where no pair overlaps.
pub open spec fn lag_mean(q: Seq<u64>, lag: int) -> int {
    if 0 <= lag < q.len() {
        lag_sum(q, lag, q.len() - lag) / (q.len() - lag)
    } else {
        0
    }
}

/// The autocorrelogram: the lagged mean inside the lag range of interest,
/// zero outside it.
pub open spec fn score(c: BpmConfig, sample_rate: int, q: Seq<u64>, lag: int) -> int {
    if min_lag(c, sample_rate) <= lag < max_lag(c, sample_rate) {
        lag_mean(q, lag)
    } else {
        0
    }
}

/// The largest value bounds every value and, in a non-empty envelope, is one of them.
pub proof fn lemma_seq_max(e: Seq<u64>)
    ensures
        forall|i: int| 0 <= i < e.len() ==> #[trigger] e[i] <= seq_max(e),
        0 <= seq_max(e) <= u64::MAX,
        e.len() > 0 ==> exists|i: int| 0 <= i < e.len() && e[i] == seq_max(e),
    decreases e.len(),
{
    if e.len() > 0 {
        let d = e.drop_last();
        lemma_seq_max(d);
        assert forall|i: int| 0 <= i < e.len() implies #[trigger] e[i] <= seq_max(e) by {
            if i < d.len() {
                assert(d[i] == e[i]);
            }
        }
        if e.last() <= seq_max(d) && d.len() > 0 {
            let j = choose|j: int| 0 <= j < d.len() && d[j] == seq_max(d);
            assert(e[j] == seq_max(e));
        } else {
            assert(e[e.len() - 1] == seq_max(e));
        }
    }
}

/// The largest value of an envelope (zero for an empty one).
pub fn max_energy(e: &[u64]) -> (r: u64)
    ensures
        r == seq_max(e@),
{
    let mut m: u64 = 0;
    let mut i: usize = 0;
    while i < e.len()
        invariant
            i <= e@.len(),
            m == seq_max(e@.subrange(0, i as int)),
        decreases e@.len() - i,
    {
        assert(e@.subrange(0, i + 1).drop_last() =~= e@.subrange(0, i as int));
        if e[i] > m {
            m = e[i];
        }
        i = i + 1;
    }
    assert(e@.subrange(0, i as int) =~= e@);
    m
}

/// Divides every value by the largest one, in units of `1 / NORM_ONE`.
pub fn normalize(e: &[u64]) -> (r: Vec<u64>)
    requires
        seq_max(e@) > 0,
    ensures
        r@ == normalized(e@),
        unit_bounded(r@),
{
    let m = max_energy(e);
    proof {
        lemma_seq_max(e@);
    }
    let mut r: Vec<u64> = Vec::with_capacity(e.len());
    let mut i: usize = 0;
    while i < e.len()
        invariant
            i <= e@.len(),
            m == seq_max(e@),
            m > 0,
            forall|j: int| 0 <= j < e@.len() ==> #[trigger] e@[j] <= m,
            r@.len() == i,
            forall|j: int| 0 <= j < i ==> #[trigger] r@[j] == (e@[j] * NORM_ONE / seq_max(e@)) as u64,
            forall|j: int| 0 <= j < i ==> #[trigger] r@[j] <= NORM_ONE,
        decreases e@.len() - i,
    {
        let x = e[i];
        assert((x as int) * (NORM_ONE as int) / (m as int) <= NORM_ONE) by (nonlinear_arith)
            requires
                x <= m,
                m > 0,
        ;
        let v = ((x as u128) * (NORM_ONE as u128) / (m as u128)) as u64;
        r.push(v);
        i = i + 1;
    }
    assert(r@ =~= normalized(e@));
    r
}

/// A rounded ratio of naturals lies in `[0, a + 1]`.
pub proof fn lemma_round_ratio_bound(a: int, b: int)
    requires
        0 <= a,
        1 <= b,
    ensures
        0 <= round_ratio(a, b) <= a + 1,
{
    assert(2 * a + b <= 2 * b * (a + 1)) by (nonlinear_arith)
        requires
            0 <= a,
            1 <= b,
    ;
    assert((2 * a + b) / (2 * b) <= a + 1) by (nonlinear_arith)
        requires
            2 * a + b <= 2 * b * (a + 1),
            1 <= b,
            0 <= a,
    ;
    assert((2 * a + b) / (2 * b) >= 0) by (nonlinear_arith)
        requires
            0 <= a,
            1 <= b,
    ;
}

/// `a / b` rounded to the nearest integer.
pub fn round_ratio_exec(a: u128, b: u128) -> (r: u64)
    requires
        a <= 0x10_0000_0000_0000,
        1 <= b <= 0x1_0000_0000_0000_0000_0000_0000,
    ensures
        r == round_ratio(a as int, b as int),
{
    proof {
        lemma_round_ratio_bound(a as int, b as int);
    }
    ((2 * a + b) / (2 * b)) as u64
}

/// The lag range of interest `[min_lag, max_lag)`, in hops.
pub fn lag_range(c: &BpmConfig, sample_rate: u32) -> (r: (u64, u64))
    requires
        c.valid(),
    ensures
        r.0 == min_lag(*c, sample_rate as int),
        r.1 == max_lag(*c, sample_rate as int),
{
    let a: u128 = 60 * (sample_rate as u128);
    let hop = c.hop_size as u128;
    assert(c.max_bpm * hop <= 0x1_0000_0000_0000_0000_0000_0000) by (nonlinear_arith)
        requires
            c.max_bpm <= u32::MAX,
            hop <= u64::MAX,
    ;
    assert(c.min_bpm * hop <= 0x1_0000_0000_0000_0000_0000_0000) by (nonlinear_arith)
        requires
            c.min_bpm <= u32::MAX,
            hop <= u64::MAX,
    ;
    assert(c.max_bpm * hop >= 1) by (nonlinear_arith)
        requires
            c.max_bpm >= 1,
            hop >= 1,
    ;
    assert(c.min_bpm * hop >= 1) by (nonlinear_arith)
        requires
            c.min_bpm >= 1,
            hop >= 1,
    ;
    let lo = round_ratio_exec(a, (c.max_bpm as u128) * hop);
    let hi = round_ratio_exec(a, (c.min_bpm as u128) * hop);
    (lo, hi)
}

proof fn lemma_lag_sum_bound(q: Seq<u64>, lag: int, k: int)
    requires
        unit_bounded(q),
        0 <= lag,
        0 <= k,
        k + lag <= q.len(),
    ensures
        0 <= lag_sum(q, lag, k) <= k * SCORE_ONE,
    decreases k,
{
    if k > 0 {
        lemma_lag_sum_bound(q, lag, k - 1);
        let a = q[k - 1];
        let b = q[k - 1 + lag];
        assert(0 <= a * b <= SCORE_ONE) by (nonlinear_arith)
            requires
                a <= NORM_ONE,
                b <= NORM_ONE,
                SCORE_ONE == NORM_ONE * NORM_ONE,
        ;
    }
}

/// The mean product of the normalised envelope with itself shifted by `lag`
/// hops, in units of `1 / SCORE_ONE`; zero where no pair overlaps.
pub fn mean_lag_product(q: &[u64], lag: usize) -> (r: u64)
    requires
        unit_bounded(q@),
    ensures
        r == lag_mean(q@, lag as int),
        r <= SCORE_ONE,
{
    let n = q.len();
    if lag >= n {
        return 0;
    }
    let count = n - lag;
    let mut sum: u128 = 0;
    let mut i: usize = 0;
    while i < count
        invariant
            count == q@.len() - lag,
            unit_bounded(q@),
            i <= count,
            sum == lag_sum(q@, lag as int, i as int),
            sum <= i * SCORE_ONE,
        decreases count - i,
    {
        proof {
            lemma_lag_sum_bound(q@, lag as int, i + 1);
        }
        sum = sum + (q[i] as u128) * (q[i + lag] as u128);
        i = i + 1;
    }
    assert((sum as int) / (count as int) <= SCORE_ONE) by (nonlinear_arith)
        requires
            sum <= count * SCORE_ONE,
            count >= 1,
    ;
    (sum / (count as u128)) as u64
}

/// The autocorrelogram's entry at `lag`: the mean lagged product inside the
/// lag range `[min_lag, max_lag)`, zero outside it.
pub fn score_at(q: &[u64], lag: u64, range: (u64, u64)) -> (r: u64)
    requires
        unit_bounded(q@),
    ensures
        r == (if range.0 <= lag < range.1 { lag_mean(q@, lag as int) } else { 0 }),
        r <= SCORE_ONE,
{
    if range.0 <= lag && lag < range.1 && lag < q.len() as u64 {
        mean_lag_product(q, lag as usize)
    } else {
        0
    }
}

} // verus!
