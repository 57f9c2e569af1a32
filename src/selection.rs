//! Peak picking on the autocorrelogram, ranking, tempo conversion and the
//! choice between harmonically related candidates.

use vstd::prelude::*;
use vstd::relations::{sorted_by, total_ordering};
use vstd::seq_lib::{lemma_multiset_commutative, lemma_sorted_unique};
use crate::analysis::{
    lag_range, round_ratio_exec, max_lag, min_lag, round_ratio, score, score_at, unit_bounded, SCORE_ONE,
};
use crate::config::{BpmConfig, PARTS_PER_MILLION};

verus! {

/// At most this many of the strongest peaks are turned into candidates.
pub const MAX_PEAKS: usize = 5;

/// A score, in units of `1 / SCORE_ONE`, exceeds a threshold given in parts
/// per million.
pub open spec fn above_threshold(s: int, threshold: int) -> bool {
    s * PARTS_PER_MILLION > threshold * SCORE_ONE
}

/// `lag` is a peak of the autocorrelogram: an interior index whose score
/// exceeds the threshold and both neighbouring scores.
pub open spec fn is_peak(c: BpmConfig, sample_rate: int, q: Seq<u64>, lag: int) -> bool {
    &&& 1 <= lag
    &&& lag + 1 < max_lag(c, sample_rate)
    &&& above_threshold(score(c, sample_rate, q, lag), c.autocorr_threshold as int)
    &&& score(c, sample_rate, q, lag) > score(c, sample_rate, q, lag - 1)
    &&& score(c, sample_rate, q, lag) > score(c, sample_rate, q, lag + 1)
}

/// The peaks below lag `k`, as `(lag, score)` pairs in increasing lag order.
pub open spec fn peaks_below(c: BpmConfig, sample_rate: int, q: Seq<u64>, k: int) -> Seq<(usize, u64)>
    decreases k,
{
    if k <= 0 {
        Seq::empty()
    } else {
        let p = peaks_below(c, sample_rate, q, k - 1);
        if is_peak(c, sample_rate, q, k - 1) {
            p.push(((k - 1) as usize, score(c, sample_rate, q, k - 1) as u64))
        } else {
            p
        }
    }
}

/// All peaks of the autocorrelogram, in increasing lag order.
pub open spec fn peaks(c: BpmConfig, sample_rate: int, q: Seq<u64>) -> Seq<(usize, u64)> {
    peaks_below(c, sample_rate, q, max_lag(c, sample_rate))
}

/// `x` ranks no lower than `y`: a higher score, or an equal score at a
/// shorter or equal lag.
pub open spec fn ranks_before(x: (usize, u64), y: (usize, u64)) -> bool {
    x.1 > y.1 || (x.1 == y.1 && x.0 <= y.0)
}

/// The ranking order on peaks, as a relation.
pub open spec fn rank_order() -> spec_fn((usize, u64), (usize, u64)) -> bool {
    |x: (usize, u64), y: (usize, u64)| ranks_before(x, y)
}

/// The peaks by decreasing score; equal scores keep increasing lag order.
pub open spec fn ranked(p: Seq<(usize, u64)>) -> Seq<(usize, u64)> {
    p.sort_by(rank_order())
}

/// The first `k` elements of `s`, or all of them where there are fewer.
pub open spec fn first_n(s: Seq<(usize, u64)>, k: int) -> Seq<(usize, u64)> {
    if s.len() <= k {
        s
    } else {
        s.take(k)
    }
}

/// The strongest peaks of the autocorrelogram, at most `MAX_PEAKS` of them,
/// strongest first.
pub open spec fn top_peaks(c: BpmConfig, sample_rate: int, q: Seq<u64>) -> Seq<(usize, u64)> {
    first_n(ranked(peaks(c, sample_rate, q)), MAX_PEAKS as int)
}

/// `lag` is a period (at least one hop) whose tempo,
/// `60 * sample_rate / (lag * hop_size)`, lies in `[min_bpm, max_bpm]`.
pub open spec fn in_bpm_range(c: BpmConfig, sample_rate: int, lag: int) -> bool {
    &&& lag >= 1
    &&& c.min_bpm * lag * c.hop_size <= 60 * sample_rate
    &&& 60 * sample_rate <= c.max_bpm * lag * c.hop_size
}

/// The test of `in_bpm_range` on the lag of a peak.
pub open spec fn in_range_test(c: BpmConfig, sample_rate: int) -> spec_fn((usize, u64)) -> bool {
    |p: (usize, u64)| in_bpm_range(c, sample_rate, p.0 as int)
}

/// The peaks whose tempo lies in the configured range, in the given order.
pub open spec fn candidates(c: BpmConfig, sample_rate: int, top: Seq<(usize, u64)>) -> Seq<
    (usize, u64),
> {
    top.filter(in_range_test(c, sample_rate))
}

/// Two scores differ by less than a tenth of the first.
pub open spec fn close_scores(m1: int, m2: int) -> bool {
    10 * (if m1 >= m2 { m1 - m2 } else { m2 - m1 }) < m1
}

/// The chosen candidate: the first, unless a second one has a close score
/// and a shorter lag (a faster tempo), which is then preferred.
pub open spec fn selected(cands: Seq<(usize, u64)>) -> (usize, u64) {
    if cands.len() >= 2 && close_scores(cands[0].1 as int, cands[1].1 as int) && cands[1].0
        < cands[0].0 {
        cands[1]
    } else {
        cands[0]
    }
}

/// Twice the tempo of period `lag` hops, rounded to the nearest integer:
/// `round(2 * 60 * sample_rate / (lag * hop_size))`.
pub open spec fn half_bpm(c: BpmConfig, sample_rate: int, lag: int) -> int {
    round_ratio(120 * sample_rate, lag * c.hop_size)
}

proof fn lemma_no_peaks_between(c: BpmConfig, sample_rate: int, q: Seq<u64>, a: int, b: int)
    requires
        0 <= a <= b,
        forall|l: int| a <= l < b ==> !#[trigger] is_peak(c, sample_rate, q, l),
    ensures
        peaks_below(c, sample_rate, q, b) == peaks_below(c, sample_rate, q, a),
    decreases b - a,
{
    if a < b {
        lemma_no_peaks_between(c, sample_rate, q, a, b - 1);
    }
}

/// The peaks of the autocorrelogram of `q` over the configured lag range.
pub fn find_peaks(c: &BpmConfig, sample_rate: u32, q: &[u64]) -> (r: Vec<(usize, u64)>)
    requires
        c.valid(),
        unit_bounded(q@),
    ensures
        r@ == peaks(*c, sample_rate as int, q@),
{
    let ghost sr = sample_rate as int;
    let range = lag_range(c, sample_rate);
    let n = q.len() as u64;
    let bound: u64 = if range.1 >= 1 && range.1 - 1 < n {
        range.1 - 1
    } else {
        n
    };
    let mut r: Vec<(usize, u64)> = Vec::new();
    let mut prev = score_at(q, 0, range);
    let mut cur = score_at(q, 1, range);
    let mut lag: u64 = 1;
    assert(peaks_below(*c, sr, q@, 1) == peaks_below(*c, sr, q@, 0));
    while lag < bound
        invariant
            c.valid(),
            unit_bounded(q@),
            range.0 == min_lag(*c, sr),
            range.1 == max_lag(*c, sr),
            n == q@.len(),
            range.1 >= 1 && range.1 - 1 < n ==> bound == range.1 - 1,
            !(range.1 >= 1 && range.1 - 1 < n) ==> bound == n,
            1 <= lag,
            lag <= bound || bound < 1,
            prev == score(*c, sr, q@, lag - 1),
            cur == score(*c, sr, q@, lag as int),
            cur <= SCORE_ONE,
            r@ == peaks_below(*c, sr, q@, lag as int),
        decreases bound - lag,
    {
        let next = score_at(q, lag + 1, range);
        assert(c.autocorr_threshold * SCORE_ONE <= u32::MAX * SCORE_ONE) by (nonlinear_arith)
            requires
                c.autocorr_threshold <= u32::MAX,
        ;
        let above = (cur as u128) * (PARTS_PER_MILLION as u128) > (c.autocorr_threshold as u128)
            * (SCORE_ONE as u128);
        proof {
            assert(above == above_threshold(cur as int, c.autocorr_threshold as int));
            assert(next == score(*c, sr, q@, lag + 1));
            assert(is_peak(*c, sr, q@, lag as int) == (above && cur > prev && cur > next));
        }
        if above && cur > prev && cur > next {
            r.push((lag as usize, cur));
        }
        prev = cur;
        cur = next;
        lag = lag + 1;
    }
    proof {
        // Past the scanned lags no score exceeds the threshold or the
        // interior of the lag range has ended.
        assert forall|l: int| lag <= l < max_lag(*c, sr) implies !#[trigger] is_peak(
            *c,
            sr,
            q@,
            l,
        ) by {
            if is_peak(*c, sr, q@, l) {
                assert(score(*c, sr, q@, l) == 0);
            }
        }
        if lag <= max_lag(*c, sr) {
            lemma_no_peaks_between(*c, sr, q@, lag as int, max_lag(*c, sr));
        } else {
            assert forall|l: int| max_lag(*c, sr) <= l < lag implies !#[trigger] is_peak(
                *c,
                sr,
                q@,
                l,
            ) by {}
            if max_lag(*c, sr) >= 0 {
                lemma_no_peaks_between(*c, sr, q@, max_lag(*c, sr), lag as int);
            }
        }
    }
    r
}

/// The ranking order is a total order.
pub proof fn lemma_rank_order_total()
    ensures
        total_ordering(rank_order()),
{
    let f = rank_order();
    assert forall|x: (usize, u64), y: (usize, u64)| #[trigger] f(x, y) && #[trigger] f(y, x) implies x
        == y by {}
}

/// The strongest `k` peaks (or all, where there are fewer), strongest first;
/// equal scores keep increasing lag order.
pub fn rank_peaks(peaks: Vec<(usize, u64)>, k: usize) -> (r: Vec<(usize, u64)>)
    ensures
        r@ == first_n(ranked(peaks@), k as int),
{
    let ghost all = peaks@;
    let ghost order = rank_order();
    let mut rest = peaks;
    let mut out: Vec<(usize, u64)> = Vec::new();
    proof {
        broadcast use vstd::seq_lib::group_to_multiset_ensures, vstd::multiset::group_multiset_axioms;

        lemma_rank_order_total();
        assert(out@.to_multiset() =~= vstd::multiset::Multiset::empty());
        assert(out@.to_multiset().add(rest@.to_multiset()) =~= all.to_multiset());
    }
    while out.len() < k && rest.len() > 0
        invariant
            order == rank_order(),
            total_ordering(order),
            out@.len() <= k,
            out@.to_multiset().add(rest@.to_multiset()) == all.to_multiset(),
            sorted_by(out@, order),
            forall|i: int, j: int|
                0 <= i < out@.len() && 0 <= j < rest@.len() ==> ranks_before(
                    #[trigger] out@[i],
                    #[trigger] rest@[j],
                ),
        decreases rest@.len(),
    {
        let mut b: usize = 0;
        let mut j: usize = 1;
        while j < rest.len()
            invariant
                b < j <= rest@.len(),
                forall|t: int| 0 <= t < j ==> ranks_before(rest@[b as int], #[trigger] rest@[t]),
            decreases rest@.len() - j,
        {
            let x = rest[j];
            let y = rest[b];
            if x.1 > y.1 || (x.1 == y.1 && x.0 < y.0) {
                b = j;
            }
            j = j + 1;
        }
        let ghost before = rest@;
        let x = rest.remove(b);
        proof {
            vstd::seq_lib::to_multiset_remove(before, b as int);
            vstd::seq_lib::to_multiset_build(out@, x);
            assert forall|t: int| 0 <= t < rest@.len() implies ranks_before(
                x,
                #[trigger] rest@[t],
            ) by {
                if t < b {
                    assert(rest@[t] == before[t]);
                } else {
                    assert(rest@[t] == before[t + 1]);
                }
            }
            assert forall|i: int, t: int|
                0 <= i < out@.len() && 0 <= t < rest@.len() implies ranks_before(
                #[trigger] out@[i],
                #[trigger] rest@[t],
            ) by {
                if t < b {
                    assert(rest@[t] == before[t]);
                } else {
                    assert(rest@[t] == before[t + 1]);
                }
            }
            assert forall|i: int| 0 <= i < out@.len() implies ranks_before(#[trigger] out@[i], x) by {
                assert(before[b as int] == x);
            }
        }
        out.push(x);
        proof {
            broadcast use vstd::multiset::group_multiset_axioms;

            assert(before.to_multiset().count(x) > 0) by {
                vstd::seq_lib::lemma_seq_contains(before, x);
                vstd::seq_lib::to_multiset_contains(before, x);
            }
            assert forall|i: int, t: int| 0 <= i < t < out@.len() implies #[trigger] order(
                out@[i],
                out@[t],
            ) by {
                if t == out@.len() - 1 {
                    assert(out@[t] == x);
                }
            }
            assert(out@.to_multiset().add(rest@.to_multiset()) =~= all.to_multiset());
        }
    }
    proof {
        broadcast use vstd::seq_lib::group_to_multiset_ensures;

        let sorted_rest = rest@.sort_by(order);
        rest@.lemma_sort_by_ensures(order);
        let full = out@ + sorted_rest;
        lemma_multiset_commutative(out@, sorted_rest);
        assert forall|i: int, t: int| 0 <= i < t < full.len() implies #[trigger] order(
            full[i],
            full[t],
        ) by {
            if t >= out@.len() && i < out@.len() {
                let y = sorted_rest[t - out@.len()];
                assert(sorted_rest.to_multiset().count(y) > 0) by {
                    vstd::seq_lib::lemma_seq_contains(sorted_rest, y);
                    vstd::seq_lib::to_multiset_contains(sorted_rest, y);
                }
                assert(rest@.contains(y)) by {
                    vstd::seq_lib::to_multiset_contains(rest@, y);
                }
                let j = choose|j: int| 0 <= j < rest@.len() && rest@[j] == y;
                assert(ranks_before(out@[i], rest@[j]));
            }
        }
        all.lemma_sort_by_ensures(order);
        lemma_sorted_unique(full, all.sort_by(order), order);
        assert(full.take(out@.len() as int) =~= out@);
        if rest@.len() == 0 {
            assert(rest@.to_multiset().len() == 0);
            assert(sorted_rest.to_multiset().len() == 0);
            assert(sorted_rest.len() == 0);
            assert(full =~= out@);
        }
    }
    out
}

/// Whether the tempo of period `lag` hops lies in the configured range.
pub fn tempo_in_range(c: &BpmConfig, sample_rate: u32, lag: usize) -> (r: bool)
    requires
        c.valid(),
    ensures
        r == in_bpm_range(*c, sample_rate as int, lag as int),
{
    if lag == 0 {
        return false;
    }
    assert(lag * c.hop_size <= u64::MAX * u64::MAX) by (nonlinear_arith)
        requires
            lag <= u64::MAX,
            c.hop_size <= u64::MAX,
    ;
    let period = (lag as u128) * (c.hop_size as u128);
    let beat = 60 * (sample_rate as u128);
    let ghost lo = c.min_bpm as int;
    let ghost hi = c.max_bpm as int;
    assert(lo * lag * c.hop_size == lo * period && hi * lag * c.hop_size == hi * period)
        by (nonlinear_arith)
        requires
            period == lag * c.hop_size,
    ;
    if period > beat {
        assert(lo * period > beat) by (nonlinear_arith)
            requires
                lo >= 1,
                period > beat,
        ;
        false
    } else {
        assert(lo * period <= u32::MAX * 0x10_0000_0000_0000 && hi * period <= u32::MAX
            * 0x10_0000_0000_0000) by (nonlinear_arith)
            requires
                0 <= lo <= u32::MAX,
                0 <= hi <= u32::MAX,
                period <= beat,
                beat <= 60 * u32::MAX,
        ;
        (c.min_bpm as u128) * period <= beat && beat <= (c.max_bpm as u128) * period
    }
}

/// The peaks of `top` whose tempo lies in the configured range, in order.
pub fn select_candidates(c: &BpmConfig, sample_rate: u32, top: &Vec<(usize, u64)>) -> (r: Vec<
    (usize, u64),
>)
    requires
        c.valid(),
    ensures
        r@ == candidates(*c, sample_rate as int, top@),
{
    let ghost test = in_range_test(*c, sample_rate as int);
    let mut r: Vec<(usize, u64)> = Vec::new();
    let mut i: usize = 0;
    assert(top@.take(0) =~= Seq::<(usize, u64)>::empty());
    while i < top.len()
        invariant
            c.valid(),
            test == in_range_test(*c, sample_rate as int),
            i <= top@.len(),
            r@ == top@.take(i as int).filter(test),
        decreases top@.len() - i,
    {
        let p = top[i];
        proof {
            assert(top@.take(i + 1) =~= top@.take(i as int).push(p));
            top@.take(i as int).lemma_filter_push(p, test);
        }
        if tempo_in_range(c, sample_rate, p.0) {
            r.push(p);
        }
        i = i + 1;
    }
    assert(top@.take(i as int) =~= top@);
    r
}

/// Two scores differ by less than a tenth of the first.
pub fn scores_close(m1: u64, m2: u64) -> (r: bool)
    ensures
        r == close_scores(m1 as int, m2 as int),
{
    let diff = if m1 >= m2 {
        m1 - m2
    } else {
        m2 - m1
    };
    (diff as u128) * 10 < (m1 as u128)
}

/// The chosen candidate: the strongest, unless the runner-up scores within a
/// tenth of it at a faster tempo.
pub fn select_tempo(cands: &Vec<(usize, u64)>) -> (r: (usize, u64))
    requires
        cands@.len() > 0,
    ensures
        r == selected(cands@),
{
    let first = cands[0];
    if cands.len() >= 2 {
        let second = cands[1];
        if scores_close(first.1, second.1) && second.0 < first.0 {
            return second;
        }
    }
    first
}

/// Twice the tempo of period `lag` hops, rounded: the tempo quantised to the
/// nearest half beat per minute.
pub fn quantize(c: &BpmConfig, sample_rate: u32, lag: usize) -> (r: u64)
    requires
        c.valid(),
        in_bpm_range(*c, sample_rate as int, lag as int),
    ensures
        r == half_bpm(*c, sample_rate as int, lag as int),
{
    assert(lag * c.hop_size <= u64::MAX * u64::MAX) by (nonlinear_arith)
        requires
            lag <= u64::MAX,
            c.hop_size <= u64::MAX,
    ;
    let period = (lag as u128) * (c.hop_size as u128);
    let ghost lo = c.min_bpm as int;
    assert(1 <= period <= 60 * sample_rate) by (nonlinear_arith)
        requires
            lo >= 1,
            lo * lag * c.hop_size <= 60 * sample_rate,
            lag >= 1,
            c.hop_size >= 1,
            period == lag * c.hop_size,
    ;
    round_ratio_exec(120 * (sample_rate as u128), period)
}

/// A peak lies inside the envelope: past its end every score is zero.
pub proof fn lemma_peak_in_envelope(c: BpmConfig, sample_rate: int, q: Seq<u64>, lag: int)
    requires
        is_peak(c, sample_rate, q, lag),
    ensures
        1 <= lag < q.len(),
        score(c, sample_rate, q, lag) > 0,
{
}

/// The listed peaks below `k` are exactly the peaks below `k`, each with its
/// score.
pub proof fn lemma_peaks_below(c: BpmConfig, sample_rate: int, q: Seq<u64>, k: int)
    requires
        q.len() <= usize::MAX,
    ensures
        forall|j: int|
            0 <= j < peaks_below(c, sample_rate, q, k).len() ==> {
                let p = #[trigger] peaks_below(c, sample_rate, q, k)[j];
                &&& p.0 < k
                &&& is_peak(c, sample_rate, q, p.0 as int)
                &&& p.1 == score(c, sample_rate, q, p.0 as int) as u64
            },
        forall|l: int|
            0 <= l < k && #[trigger] is_peak(c, sample_rate, q, l) ==> exists|j: int|
                0 <= j < peaks_below(c, sample_rate, q, k).len() && (#[trigger] peaks_below(
                    c,
                    sample_rate,
                    q,
                    k,
                )[j]).0 == l,
    decreases k,
{
    if k > 0 {
        lemma_peaks_below(c, sample_rate, q, k - 1);
        let prev = peaks_below(c, sample_rate, q, k - 1);
        let cur = peaks_below(c, sample_rate, q, k);
        if is_peak(c, sample_rate, q, k - 1) {
            lemma_peak_in_envelope(c, sample_rate, q, k - 1);
            assert(cur[prev.len() as int].0 == k - 1);
            assert forall|l: int|
                0 <= l < k && #[trigger] is_peak(c, sample_rate, q, l) implies exists|j: int|
                0 <= j < cur.len() && (#[trigger] cur[j]).0 == l by {
                if l < k - 1 {
                    let j = choose|j: int| 0 <= j < prev.len() && (#[trigger] prev[j]).0 == l;
                    assert(cur[j] == prev[j]);
                } else {
                    assert(cur[prev.len() as int].0 == l);
                }
            }
            assert forall|j: int| 0 <= j < cur.len() implies {
                let p = #[trigger] cur[j];
                &&& p.0 < k
                &&& is_peak(c, sample_rate, q, p.0 as int)
                &&& p.1 == score(c, sample_rate, q, p.0 as int) as u64
            } by {
                if j < prev.len() {
                    assert(cur[j] == prev[j]);
                }
            }
        } else {
            assert(cur == prev);
        }
    }
}

} // verus!
