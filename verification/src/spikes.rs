//! Spike detection over a score curve.
//!
//! An index is a spike when its score lies more than one and a half
//! population standard deviations above the mean of the curve.  With
//! `L` entries, mean `T / L` (`T` the total) and variance
//! `sum_j d_j^2 / L^3` for the scaled deviations `d_j = L * s_j - T`,
//! the test `(s_i - mean) / stdev > 3/2` is equivalent to the exact
//! integer comparison
//!
//! `d_i > 0  and  4 * L * d_i^2 > 9 * sum_j d_j^2`,
//!
//! which is how it is computed here: no rounding, and a flat curve
//! (standard deviation zero) has no spikes by construction.

use crate::{MAX_STREAM_LEN, SCALE};
use vstd::arithmetic::mul::{lemma_mul_nonnegative, lemma_mul_upper_bound};
use vstd::prelude::*;

verus! {

/// Sum of the first `n` scores of the curve.
pub open spec fn curve_sum(s: Seq<u64>, n: int) -> int
    decreases n,
{
    if n <= 0 {
        0
    } else {
        curve_sum(s, n - 1) + s[n - 1]
    }
}

/// Deviation of entry `i` from the mean, scaled by the curve length:
/// `L * s[i] - T`.
pub open spec fn dev(s: Seq<u64>, i: int) -> int {
    s.len() * s[i] - curve_sum(s, s.len() as int)
}

/// Sum of the squared scaled deviations of the first `n` entries.
pub open spec fn sq_dev_sum(s: Seq<u64>, n: int) -> int
    decreases n,
{
    if n <= 0 {
        0
    } else {
        sq_dev_sum(s, n - 1) + dev(s, n - 1) * dev(s, n - 1)
    }
}

/// The spike test: a positive deviation whose square, scaled by
/// `4 * L`, exceeds nine times the sum of all squared deviations.
pub open spec fn is_spike(s: Seq<u64>, i: int) -> bool {
    dev(s, i) > 0 && 4 * s.len() * (dev(s, i) * dev(s, i)) > 9 * sq_dev_sum(s, s.len() as int)
}

/// The spike indices among the first `n` entries, in increasing order.
pub open spec fn spike_indices(s: Seq<u64>, n: int) -> Seq<usize>
    decreases n,
{
    if n <= 0 {
        Seq::empty()
    } else {
        let rest = spike_indices(s, n - 1);
        if is_spike(s, n - 1) {
            rest.push((n - 1) as usize)
        } else {
            rest
        }
    }
}

/// A prefix sum of scores bounded by `SCALE` lies in `[0, n * SCALE]`.
pub proof fn lemma_curve_sum_bounds(s: Seq<u64>, n: int)
    requires
        0 <= n <= s.len(),
        forall|k: int| 0 <= k < s.len() ==> s[k] <= SCALE,
    ensures
        0 <= curve_sum(s, n) <= n * (SCALE as int),
    decreases n,
{
    if n > 0 {
        lemma_curve_sum_bounds(s, n - 1);
    }
}

/// A constant curve sums to `n` times the constant.
proof fn lemma_const_sum(s: Seq<u64>, v: u64, n: int)
    requires
        0 <= n <= s.len(),
        forall|i: int| 0 <= i < s.len() ==> #[trigger] s[i] == v,
    ensures
        curve_sum(s, n) == n * (v as int),
    decreases n,
{
    if n > 0 {
        lemma_const_sum(s, v, n - 1);
        assert(s[n - 1] == v);
        assert((n - 1) * (v as int) + v as int == n * (v as int)) by (nonlinear_arith);
    } else {
        assert(n * (v as int) == 0) by (nonlinear_arith)
            requires
                n == 0,
        ;
    }
}

/// Spike symmetry: on a curve whose scores are all equal, no index is
/// ever classified as a spike, however the zero standard deviation is
/// read: every deviation from the mean is exactly zero.
pub proof fn lemma_flat_curve_no_spikes(s: Seq<u64>)
    requires
        s.len() >= 1,
        forall|i: int| 0 <= i < s.len() ==> #[trigger] s[i] == s[0],
    ensures
        forall|i: int| 0 <= i < s.len() ==> !is_spike(s, i),
{
    lemma_const_sum(s, s[0], s.len() as int);
    assert forall|i: int| 0 <= i < s.len() implies !is_spike(s, i) by {
        assert(s[i] == s[0]);
        assert(dev(s, i) == 0);
    }
}

/// Find every index of the score curve whose score stands out: the
/// exact integer form of "more than one and a half population standard
/// deviations above the mean".  Returns the spike indices in
/// increasing order.
pub fn detect(scores: &Vec<u64>) -> (spikes: Vec<usize>)
    requires
        1 <= scores@.len() <= MAX_STREAM_LEN,
        forall|k: int| 0 <= k < scores@.len() ==> scores@[k] <= SCALE,
    ensures
        spikes@ == spike_indices(scores@, scores@.len() as int),
{
    let n = scores.len();
    let mut total: u64 = 0;
    let mut i: usize = 0;
    while i < n
        invariant
            i <= n,
            n == scores@.len(),
            n <= MAX_STREAM_LEN,
            forall|k: int| 0 <= k < scores@.len() ==> scores@[k] <= SCALE,
            total as int == curve_sum(scores@, i as int),
            total as int <= i as int * (SCALE as int),
        decreases n - i,
    {
        total = total + scores[i];
        i = i + 1;
    }
    let ln: i128 = n as i128;
    let t: i128 = total as i128;
    let mut ssq: i128 = 0;
    let mut i: usize = 0;
    while i < n
        invariant
            i <= n,
            n == scores@.len(),
            n <= MAX_STREAM_LEN,
            forall|k: int| 0 <= k < scores@.len() ==> scores@[k] <= SCALE,
            ln == n as int,
            t == curve_sum(scores@, n as int),
            0 <= t <= n as int * (SCALE as int),
            ssq == sq_dev_sum(scores@, i as int),
            0 <= ssq <= i as int * 0x10000000000000000000000000,
        decreases n - i,
    {
        proof {
            lemma_dev_step(scores@, i as int);
        }
        let d: i128 = ln * (scores[i] as i128) - t;
        proof {
            assert(d == dev(scores@, i as int));
            assert(0 <= d * d <= 0x10000000000000000000000000) by (nonlinear_arith)
                requires
                    -0x4000000000000 <= d <= 0x4000000000000,
            ;
            assert((i as int + 1) * 0x10000000000000000000000000 == i as int
                * 0x10000000000000000000000000 + 0x10000000000000000000000000);
            assert(i as int * 0x10000000000000000000000000 <= MAX_STREAM_LEN as int
                * 0x10000000000000000000000000) by (nonlinear_arith)
                requires
                    0 <= i as int <= MAX_STREAM_LEN as int,
            ;
        }
        ssq = ssq + d * d;
        i = i + 1;
    }
    let mut spikes: Vec<usize> = Vec::new();
    let mut i: usize = 0;
    while i < n
        invariant
            i <= n,
            n == scores@.len(),
            n <= MAX_STREAM_LEN,
            forall|k: int| 0 <= k < scores@.len() ==> scores@[k] <= SCALE,
            ln == n as int,
            t == curve_sum(scores@, n as int),
            0 <= t <= n as int * (SCALE as int),
            ssq == sq_dev_sum(scores@, n as int),
            0 <= ssq <= n as int * 0x10000000000000000000000000,
            spikes@ == spike_indices(scores@, i as int),
        decreases n - i,
    {
        proof {
            lemma_dev_step(scores@, i as int);
        }
        let d: i128 = ln * (scores[i] as i128) - t;
        proof {
            assert(d == dev(scores@, i as int));
            assert(0 <= d * d <= 0x10000000000000000000000000) by (nonlinear_arith)
                requires
                    -0x4000000000000 <= d <= 0x4000000000000,
            ;
            let dd = d * d;
            lemma_mul_nonnegative(4 * ln, dd);
            lemma_mul_upper_bound(4 * ln, 0x400000, dd, 0x10000000000000000000000000);
            assert(0 <= 4 * ln * dd <= 0x4000000000000000000000000000000);
            assert(4 * ln * (d * d) == 4 * ln * dd);
            assert(0 <= 9 * ssq <= 0x90000000000000000000000000000000) by (nonlinear_arith)
                requires
                    0 <= ssq <= MAX_STREAM_LEN as int * 0x10000000000000000000000000,
            ;
        }
        if d > 0 && 4 * ln * (d * d) > 9 * ssq {
            spikes.push(i);
        }
        i = i + 1;
    }
    spikes
}

/// The scaled deviation of any entry lies within `L * SCALE` in
/// absolute value.
proof fn lemma_dev_step(s: Seq<u64>, i: int)
    requires
        0 <= i < s.len(),
        s.len() <= MAX_STREAM_LEN,
        forall|k: int| 0 <= k < s.len() ==> s[k] <= SCALE,
    ensures
        -0x4000000000000 <= dev(s, i) <= 0x4000000000000,
{
    let ln = s.len() as int;
    lemma_curve_sum_bounds(s, ln);
    assert(0 <= ln * s[i] <= ln * (SCALE as int)) by (nonlinear_arith)
        requires
            0 <= ln,
            0 <= s[i] <= SCALE as int,
    ;
    assert(ln * (SCALE as int) <= 0x4000000000000) by (nonlinear_arith)
        requires
            0 <= ln <= MAX_STREAM_LEN as int,
    ;
}

/// Smallest score of a non-empty curve, for the renderer's axis range.
pub fn score_min(scores: &Vec<u64>) -> (m: u64)
    requires
        scores@.len() >= 1,
    ensures
        exists|i: int| 0 <= i < scores@.len() && scores@[i] == m,
        forall|i: int| 0 <= i < scores@.len() ==> m <= scores@[i],
{
    let mut m = scores[0];
    let mut i: usize = 1;
    while i < scores.len()
        invariant
            1 <= i <= scores@.len(),
            exists|k: int| 0 <= k < i && scores@[k] == m,
            forall|k: int| 0 <= k < i ==> m <= scores@[k],
        decreases scores@.len() - i,
    {
        if scores[i] < m {
            m = scores[i];
        }
        i = i + 1;
    }
    m
}

/// Largest score of a non-empty curve, for the renderer's axis range.
pub fn score_max(scores: &Vec<u64>) -> (m: u64)
    requires
        scores@.len() >= 1,
    ensures
        exists|i: int| 0 <= i < scores@.len() && scores@[i] == m,
        forall|i: int| 0 <= i < scores@.len() ==> m >= scores@[i],
{
    let mut m = scores[0];
    let mut i: usize = 1;
    while i < scores.len()
        invariant
            1 <= i <= scores@.len(),
            exists|k: int| 0 <= k < i && scores@[k] == m,
            forall|k: int| 0 <= k < i ==> m >= scores@[k],
        decreases scores@.len() - i,
    {
        if scores[i] > m {
            m = scores[i];
        }
        i = i + 1;
    }
    m
}

} // verus!
