//! The period scanner: incremental multi-period index-of-coincidence.
//!
//! For every candidate period `p` the stream is transposed into `p`
//! columns, each column's coincidence numerator is counted, and the
//! per-column scores are averaged into one fixed-point score per period.
//! A previously computed score cache is extended by computing only the
//! missing suffix; entries already present are never recomputed.
//!
//! With column lengths `ch` (full columns) and `ch - 1` (short columns),
//! the per-period average has the exact common denominator
//! `p * A * B` where `A = ch * (ch - 1)` and `B = (ch - 1) * (ch - 2)`;
//! the stored score is `SCALE * numerator / denominator`, rounded down.

use crate::coincidence::{column_pairs_dense, column_pairs_sparse, lemma_pairs_bound, pairs};
use crate::transpose::{
    cap_of, chunk_size, col_len, column, lemma_chunk_cap, lemma_col_len_indices, slot, transpose,
};
use crate::{MAX_STREAM_LEN, SCALE};
use vstd::arithmetic::div_mod::{
    lemma_div_is_ordered, lemma_fundamental_div_mod, lemma_fundamental_div_mod_converse,
    lemma_mod_bound,
};
use vstd::prelude::*;

verus! {

/// Largest alphabet bound for which the dense (counting-array) strategy
/// is used; a larger or sparser alphabet uses the association-list one.
pub const DENSE_LIMIT: u64 = 65_536;

/// Why a scan request was rejected.
#[derive(Clone, Copy, Debug, PartialEq, Eq, Structural)]
pub enum ScanError {
    /// The stream holds fewer than four symbols.
    TooShort,
    /// The requested maximum period exceeds half the stream length.
    RangeTooLarge,
}

/// `A * B`: the common denominator of the per-column scores of one
/// period, before averaging.
pub open spec fn den_unit(len: int, p: int) -> int {
    let ch = chunk_size(len, p);
    (ch * (ch - 1)) * ((ch - 1) * (ch - 2))
}

/// Weight of column `j`'s coincidence numerator over the common
/// denominator: a full column's score has denominator `A`, so it is
/// weighted by `B`, and vice versa.
pub open spec fn col_weight(len: int, p: int, j: int) -> int {
    let ch = chunk_size(len, p);
    if j < cap_of(len, p) {
        (ch - 1) * (ch - 2)
    } else {
        ch * (ch - 1)
    }
}

/// Weighted sum of the coincidence numerators of the first `j_end`
/// columns of period `p`.
pub open spec fn weighted_num(data: Seq<u32>, p: int, j_end: int) -> int
    decreases j_end,
{
    if j_end <= 0 {
        0
    } else {
        weighted_num(data, p, j_end - 1) + pairs(column(data, p, j_end - 1)) * col_weight(
            data.len() as int,
            p,
            j_end - 1,
        )
    }
}

/// Common denominator of the period average: `p * A * B`.
pub open spec fn period_den(len: int, p: int) -> int {
    let ch = chunk_size(len, p);
    p * (ch * (ch - 1)) * ((ch - 1) * (ch - 2))
}

/// Average index of coincidence of period `p`, scaled by `SCALE` and
/// rounded down.
pub open spec fn period_score(data: Seq<u32>, p: int) -> int {
    (SCALE as int) * weighted_num(data, p, p) / period_den(data.len() as int, p)
}

/// The cache entry stored for period `p`.
pub open spec fn score_entry(data: Seq<u32>, p: int) -> u64 {
    period_score(data, p) as u64
}

/// Number of cache entries a scan with maximum period `range` delivers:
/// one per period from `1` to `range - 1`.
pub open spec fn target_len(range: int) -> int {
    if range >= 1 {
        range - 1
    } else {
        0
    }
}

/// The cache after extension: existing entries kept unchanged, missing
/// periods filled with their scores.
pub open spec fn extended_cache(data: Seq<u32>, range: int, cache: Seq<u64>) -> Seq<u64> {
    Seq::new(
        target_len(range) as nat,
        |k: int|
            if k < cache.len() {
                cache[k]
            } else {
                score_entry(data, k + 1)
            },
    )
}

/// The whole outcome of a scan: an already sufficient cache is returned
/// (truncated to the requested range) without validation or
/// recomputation; otherwise the stream and range are validated and the
/// cache is extended.
pub open spec fn scan_result(data: Seq<u32>, range: int, cache: Seq<u64>) -> Result<
    Seq<u64>,
    ScanError,
> {
    if cache.len() >= target_len(range) {
        Ok(cache.take(target_len(range)))
    } else if data.len() < 4 {
        Err(ScanError::TooShort)
    } else if range > data.len() as int / 2 {
        Err(ScanError::RangeTooLarge)
    } else {
        Ok(extended_cache(data, range, cache))
    }
}

/// A `Result` of vectors, seen at the level of sequences.
pub open spec fn view_result(r: Result<Vec<u64>, ScanError>) -> Result<Seq<u64>, ScanError> {
    match r {
        Ok(v) => Ok(v@),
        Err(e) => Err(e),
    }
}

/// Geometry of a valid period: at least two full blocks plus two
/// symbols, so every column holds at least two real symbols.
pub proof fn lemma_geometry(len: int, p: int)
    requires
        1 <= p,
        2 * p + 2 <= len,
    ensures
        3 <= chunk_size(len, p) <= len,
        p * chunk_size(len, p) <= len + p - 1,
        p * chunk_size(len, p) < 2 * len,
        p <= len,
{
    let ch = chunk_size(len, p);
    lemma_fundamental_div_mod(len + p - 1, p);
    lemma_mod_bound(len + p - 1, p);
    assert(3 <= ch <= len && p * ch <= len + p - 1 && p <= len) by (nonlinear_arith)
        requires
            len + p - 1 == p * ch + (len + p - 1) % p,
            0 <= (len + p - 1) % p < p,
            1 <= p,
            2 * p + 2 <= len,
    ;
}

/// The weighted numerator of a prefix of columns is non-negative and at
/// most `j_end` denominator units: each column contributes at most one
/// full unit `A * B`.
pub proof fn lemma_weighted_num_bound(data: Seq<u32>, p: int, j_end: int)
    requires
        1 <= p,
        2 * p + 2 <= data.len(),
        0 <= j_end <= p,
    ensures
        0 <= weighted_num(data, p, j_end),
        weighted_num(data, p, j_end) <= j_end * den_unit(data.len() as int, p),
    decreases j_end,
{
    let len = data.len() as int;
    let ch = chunk_size(len, p);
    lemma_geometry(len, p);
    lemma_chunk_cap(len, p);
    if j_end > 0 {
        lemma_weighted_num_bound(data, p, j_end - 1);
        let j = j_end - 1;
        let col = column(data, p, j);
        let w = col_weight(len, p, j);
        let nn = col.len() as int;
        lemma_pairs_bound(col);
        assert(nn == col_len(len, p, j));
        if j < cap_of(len, p) {
            assert(pairs(col) * w <= den_unit(len, p) && 0 <= pairs(col) * w)
                by (nonlinear_arith)
                requires
                    0 <= pairs(col) <= nn * (nn - 1),
                    nn == ch,
                    w == (ch - 1) * (ch - 2),
                    den_unit(len, p) == (ch * (ch - 1)) * ((ch - 1) * (ch - 2)),
                    3 <= ch,
            ;
        } else {
            assert(pairs(col) * w <= den_unit(len, p) && 0 <= pairs(col) * w)
                by (nonlinear_arith)
                requires
                    0 <= pairs(col) <= nn * (nn - 1),
                    nn == ch - 1,
                    w == ch * (ch - 1),
                    den_unit(len, p) == (ch * (ch - 1)) * ((ch - 1) * (ch - 2)),
                    3 <= ch,
            ;
        }
        assert((j_end - 1) * den_unit(len, p) + den_unit(len, p) == j_end * den_unit(len, p))
            by (nonlinear_arith);
    }
}

/// The common denominator is positive and bounded by `2 * len^4`, which
/// keeps the scaled numerator inside 128 bits.
pub proof fn lemma_den_bound(len: int, p: int)
    requires
        1 <= p,
        2 * p + 2 <= len,
    ensures
        0 < den_unit(len, p),
        0 < period_den(len, p),
        period_den(len, p) == p * den_unit(len, p),
        period_den(len, p) <= 2 * (len * len) * (len * len),
{
    let ch = chunk_size(len, p);
    lemma_geometry(len, p);
    assert(0 < (ch * (ch - 1)) * ((ch - 1) * (ch - 2))) by (nonlinear_arith)
        requires
            3 <= ch,
    ;
    assert(p * (ch * (ch - 1)) * ((ch - 1) * (ch - 2)) == p * ((ch * (ch - 1)) * ((ch - 1) * (ch
        - 2)))) by (nonlinear_arith);
    assert(0 < p * ((ch * (ch - 1)) * ((ch - 1) * (ch - 2)))) by (nonlinear_arith)
        requires
            3 <= ch,
            1 <= p,
    ;
    assert(p * ((ch * (ch - 1)) * ((ch - 1) * (ch - 2))) <= 2 * (len * len) * (len * len))
        by (nonlinear_arith)
        requires
            3 <= ch <= len,
            1 <= p,
            p * ch < 2 * len,
    ;
}

/// Score bounds: every period score lies between `0` and `SCALE`, that
/// is, every index of coincidence lies in the unit interval.
pub proof fn lemma_period_score_bounds(data: Seq<u32>, p: int)
    requires
        1 <= p,
        2 * p + 2 <= data.len(),
    ensures
        0 <= period_score(data, p) <= SCALE,
        score_entry(data, p) as int == period_score(data, p),
{
    let len = data.len() as int;
    let num = weighted_num(data, p, p);
    let den = period_den(len, p);
    let s = SCALE as int;
    lemma_weighted_num_bound(data, p, p);
    lemma_den_bound(len, p);
    assert(num <= den);
    assert(0 <= s * num && s * num <= s * den) by (nonlinear_arith)
        requires
            0 <= num <= den,
            0 < s,
    ;
    lemma_div_is_ordered(s * num, s * den, den);
    assert(s * den == s * den + 0);
    lemma_fundamental_div_mod_converse(s * den, den, s, 0);
    lemma_fundamental_div_mod(s * num, den);
    lemma_mod_bound(s * num, den);
    assert(0 <= (s * num) / den) by (nonlinear_arith)
        requires
            s * num == den * ((s * num) / den) + (s * num) % den,
            0 <= (s * num) % den < den,
            0 <= s * num,
            0 < den,
    ;
}

/// Incrementality: scanning to `p2` on top of the result of a scan to
/// `p1` yields exactly the result of a single scan to `p2` from an
/// empty cache, for any valid `p1 < p2`.
pub proof fn lemma_scan_incremental(data: Seq<u32>, p1: int, p2: int)
    requires
        4 <= data.len(),
        1 <= p1 < p2,
        p2 <= data.len() as int / 2,
    ensures
        scan_result(data, p1, Seq::<u64>::empty()) is Ok,
        scan_result(data, p2, scan_result(data, p1, Seq::<u64>::empty())->Ok_0) == scan_result(
            data,
            p2,
            Seq::<u64>::empty(),
        ),
{
    let empty = Seq::<u64>::empty();
    let direct = scan_result(data, p2, empty)->Ok_0;
    if p1 == 1 {
        assert(scan_result(data, p1, empty) == Ok::<Seq<u64>, ScanError>(empty.take(0)));
        assert(empty.take(0) =~= empty);
    } else {
        let inner = scan_result(data, p1, empty)->Ok_0;
        assert(inner == extended_cache(data, p1, empty));
        assert(scan_result(data, p2, inner)->Ok_0 =~= direct);
    }
}

/// Scan every period from `1` to `range - 1`, reusing and extending the
/// supplied score cache.
///
/// The result is a total function of the stream, the range and the
/// cache (see `scan_result`): repeated calls with equal inputs return
/// bit-identical score sequences.  A cache that already covers the
/// range is truncated to it and returned without validation; otherwise
/// a stream shorter than four symbols or a range beyond half the stream
/// length is rejected, and the cache is extended in place with one
/// score per missing period.
pub fn scan(data: &Vec<u32>, range: usize, cache: Vec<u64>) -> (r: Result<Vec<u64>, ScanError>)
    requires
        data@.len() <= MAX_STREAM_LEN,
    ensures
        view_result(r) == scan_result(data@, range as int, cache@),
{
    let ghost cache0 = cache@;
    let mut cache = cache;
    let target = if range >= 1 {
        range - 1
    } else {
        0
    };
    if cache.len() >= target {
        cache.truncate(target);
        proof {
            assert(cache@ =~= cache0.take(target as int));
        }
        return Ok(cache);
    }
    let n = data.len();
    if n < 4 {
        return Err(ScanError::TooShort);
    }
    if range > n / 2 {
        return Err(ScanError::RangeTooLarge);
    }
    let mut maxv: u32 = 0;
    let mut i: usize = 0;
    while i < n
        invariant
            i <= n,
            n == data@.len(),
            forall|k: int| 0 <= k < i ==> data@[k] <= maxv,
        decreases n - i,
    {
        if data[i] > maxv {
            maxv = data[i];
        }
        i = i + 1;
    }
    let m: u64 = maxv as u64 + 1;
    let use_dense = m <= DENSE_LIMIT;
    let mut counts: Vec<u32> = Vec::new();
    if use_dense {
        let mut c: u64 = 0;
        while c < m
            invariant
                c <= m,
                m <= DENSE_LIMIT,
                counts@.len() == c,
                forall|c2: int| 0 <= c2 < counts@.len() ==> counts@[c2] == 0,
            decreases m - c,
        {
            counts.push(0);
            c = c + 1;
        }
    }
    let mut buf: Vec<u32> = Vec::new();
    let mut p: usize = cache.len() + 1;
    while p <= target
        invariant
            1 <= p,
            p <= target + 1,
            cache0.len() < target,
            cache0.len() <= p - 1,
            cache@.len() == p - 1,
            target == target_len(range as int),
            range as int > 1,
            target as int == range - 1,
            n == data@.len(),
            4 <= n <= MAX_STREAM_LEN,
            range <= n / 2,
            forall|k: int| 0 <= k < cache0.len() ==> cache@[k] == cache0[k],
            forall|k: int|
                cache0.len() <= k < p - 1 ==> cache@[k] == score_entry(data@, k + 1),
            forall|k: int| 0 <= k < n ==> data@[k] <= maxv,
            m == maxv as u64 + 1,
            use_dense ==> counts@.len() == m && m <= DENSE_LIMIT,
            use_dense ==> forall|c2: int| 0 <= c2 < counts@.len() ==> counts@[c2] == 0,
        decreases target + 1 - p,
    {
        let ghost glen = n as int;
        let ghost gp = p as int;
        proof {
            lemma_fundamental_div_mod(glen, 2);
            lemma_mod_bound(glen, 2);
            assert(2 * gp + 2 <= glen);
            lemma_geometry(glen, gp);
            lemma_chunk_cap(glen, gp);
        }
        transpose(data, p, &mut buf);
        let chunk = (n + p - 1) / p;
        let cap = if n % p != 0 {
            n % p
        } else {
            p
        };
        let buf_len = buf.len();
        proof {
            assert(chunk as int == chunk_size(glen, gp));
            assert(cap as int == cap_of(glen, gp));
            assert(buf_len == gp * chunk_size(glen, gp));
        }
        proof {
            let ch = chunk as int;
            assert(3 <= ch <= glen);
            assert(ch * (ch - 1) <= 0x10000000000 && (ch - 1) * (ch - 2) <= 0x10000000000)
                by (nonlinear_arith)
                requires
                    3 <= ch <= MAX_STREAM_LEN as int,
            ;
        }
        let a128: u128 = (chunk as u128) * ((chunk - 1) as u128);
        let b128: u128 = ((chunk - 1) as u128) * ((chunk - 2) as u128);
        let mut acc: u128 = 0;
        let mut j: usize = 0;
        while j < p
            invariant
                j <= p,
                1 <= gp,
                gp == p as int,
                glen == n as int,
                n == data@.len(),
                4 <= n <= MAX_STREAM_LEN,
                2 * gp + 2 <= glen,
                chunk as int == chunk_size(glen, gp),
                cap as int == cap_of(glen, gp),
                a128 as int == chunk_size(glen, gp) * (chunk_size(glen, gp) - 1),
                b128 as int == (chunk_size(glen, gp) - 1) * (chunk_size(glen, gp) - 2),
                buf_len == buf@.len(),
                buf_len == gp * chunk_size(glen, gp),
                3 <= chunk,
                chunk <= n,
                forall|i2: int|
                    0 <= i2 < glen ==> buf@[slot(glen, gp, i2)] == data@[i2],
                forall|k: int| 0 <= k < n ==> data@[k] <= maxv,
                m == maxv as u64 + 1,
                use_dense ==> counts@.len() == m && m <= DENSE_LIMIT,
                use_dense ==> forall|c2: int| 0 <= c2 < counts@.len() ==> counts@[c2] == 0,
                acc as int == weighted_num(data@, gp, j as int),
                acc as int <= j as int * den_unit(glen, gp),
            decreases p - j,
        {
            let ghost gj = j as int;
            proof {
                assert(gj * chunk_size(glen, gp) + chunk_size(glen, gp) <= gp * chunk_size(
                    glen,
                    gp,
                )) by (nonlinear_arith)
                    requires
                        gj < gp,
                        0 < chunk_size(glen, gp),
                ;
            }
            let amt = if j < cap {
                chunk
            } else {
                chunk - 1
            };
            let start = j * chunk;
            proof {
                assert(amt as int == col_len(glen, gp, gj));
                lemma_column_region(data@, buf@, gp, gj);
                assert(buf@.subrange(start as int, start as int + amt as int) == column(
                    data@,
                    gp,
                    gj,
                ));
                assert forall|k: int| start <= k < start + amt implies (buf@[k] as int)
                    < m by {
                    assert(buf@[k] == column(data@, gp, gj)[k - start]);
                    assert(column(data@, gp, gj)[k - start] == data@[gj + (k - start) * gp]);
                    lemma_col_len_indices(glen, gp, gj, k - start);
                }
            }
            let colnum: u64 = if use_dense {
                column_pairs_dense(&buf, start, amt, &mut counts)
            } else {
                column_pairs_sparse(&buf, start, amt)
            };
            let w: u128 = if j < cap {
                b128
            } else {
                a128
            };
            proof {
                let col = column(data@, gp, gj);
                let ch = chunk_size(glen, gp);
                let nn = col.len() as int;
                lemma_pairs_bound(col);
                assert(colnum as int == pairs(col));
                assert(w as int == col_weight(glen, gp, gj));
                if gj < cap_of(glen, gp) {
                    assert(pairs(col) * (w as int) <= den_unit(glen, gp) && 0 <= pairs(col) * (
                    w as int)) by (nonlinear_arith)
                        requires
                            0 <= pairs(col) <= nn * (nn - 1),
                            nn == ch,
                            w as int == (ch - 1) * (ch - 2),
                            den_unit(glen, gp) == (ch * (ch - 1)) * ((ch - 1) * (ch - 2)),
                            3 <= ch,
                    ;
                } else {
                    assert(pairs(col) * (w as int) <= den_unit(glen, gp) && 0 <= pairs(col) * (
                    w as int)) by (nonlinear_arith)
                        requires
                            0 <= pairs(col) <= nn * (nn - 1),
                            nn == ch - 1,
                            w as int == ch * (ch - 1),
                            den_unit(glen, gp) == (ch * (ch - 1)) * ((ch - 1) * (ch - 2)),
                            3 <= ch,
                    ;
                }
                assert((gj + 1) * den_unit(glen, gp) == gj * den_unit(glen, gp) + den_unit(
                    glen,
                    gp,
                )) by (nonlinear_arith);
                lemma_den_bound(glen, gp);
                assert(gp * den_unit(glen, gp) <= 2 * (glen * glen) * (glen * glen));
                assert((gj + 1) * den_unit(glen, gp) <= gp * den_unit(glen, gp))
                    by (nonlinear_arith)
                    requires
                        gj + 1 <= gp,
                        0 < den_unit(glen, gp),
                ;
                assert(2 * (glen * glen) * (glen * glen) <= 0x200000000000000000000)
                    by (nonlinear_arith)
                    requires
                        0 <= glen <= MAX_STREAM_LEN as int,
                ;
            }
            acc = acc + (colnum as u128) * w;
            j = j + 1;
        }
        proof {
            let ch = chunk_size(glen, gp);
            assert(ch * (ch - 1) <= 0x10000000000 && (ch - 1) * (ch - 2) <= 0x10000000000)
                by (nonlinear_arith)
                requires
                    3 <= ch <= MAX_STREAM_LEN as int,
            ;
            assert(0 <= gp * (a128 as int) <= 0x1000000000000000 && 0 <= gp * (a128 as int) * (
            b128 as int) <= 0x10000000000000000000000000) by (nonlinear_arith)
                requires
                    1 <= gp <= MAX_STREAM_LEN as int,
                    0 <= a128 as int <= 0x10000000000,
                    0 <= b128 as int <= 0x10000000000,
            ;
        }
        let den: u128 = (p as u128) * a128 * b128;
        proof {
            lemma_den_bound(glen, gp);
            assert(den as int == period_den(glen, gp));
            assert(2 * (glen * glen) * (glen * glen) <= 0x200000000000000000000)
                by (nonlinear_arith)
                requires
                    0 <= glen <= MAX_STREAM_LEN as int,
            ;
            lemma_weighted_num_bound(data@, gp, gp);
            assert(acc as int == weighted_num(data@, gp, gp));
            assert(acc as int <= period_den(glen, gp));
            assert((SCALE as int) * (acc as int) <= (SCALE as int) * (den as int)
                && 0 <= (SCALE as int) * (acc as int)) by (nonlinear_arith)
                requires
                    0 <= acc as int <= den as int,
                    0 < (SCALE as int),
            ;
            assert((SCALE as int) * (den as int) <= 0x8000000000000000000000000000000)
                by (nonlinear_arith)
                requires
                    0 < den as int <= 0x200000000000000000000,
                    SCALE as int == 1_000_000_000,
            ;
            lemma_period_score_bounds(data@, gp);
        }
        let sc: u128 = ((SCALE as u128) * acc) / den;
        proof {
            assert(sc as int == period_score(data@, gp));
            assert(sc <= SCALE as u128);
            assert(sc as u64 as int == score_entry(data@, gp) as int);
        }
        cache.push(sc as u64);
        p = p + 1;
    }
    proof {
        assert(cache@ =~= extended_cache(data@, range as int, cache0));
    }
    Ok(cache)
}

/// The contiguous buffer region of column `j` holds exactly the column:
/// cell `j * chunk + k` holds the stream symbol at index `j + k * p`.
proof fn lemma_column_region(data: Seq<u32>, buf: Seq<u32>, p: int, j: int)
    requires
        1 <= p,
        0 <= j < p,
        2 * p + 2 <= data.len(),
        buf.len() == p * chunk_size(data.len() as int, p),
        forall|i: int| 0 <= i < data.len() ==> buf[slot(data.len() as int, p, i)] == data[i],
    ensures
        buf.subrange(
            j * chunk_size(data.len() as int, p),
            j * chunk_size(data.len() as int, p) + col_len(data.len() as int, p, j),
        ) == column(data, p, j),
{
    let len = data.len() as int;
    let ch = chunk_size(len, p);
    lemma_geometry(len, p);
    lemma_chunk_cap(len, p);
    let start = j * ch;
    let cl = col_len(len, p, j);
    assert(start + cl <= p * ch) by (nonlinear_arith)
        requires
            start == j * ch,
            j < p,
            cl <= ch,
            0 < ch,
    ;
    assert(0 <= start) by (nonlinear_arith)
        requires
            start == j * ch,
            0 <= j,
            0 < ch,
    ;
    let region = buf.subrange(start, start + cl);
    assert forall|k: int| 0 <= k < cl implies region[k] == column(data, p, j)[k] by {
        let i = j + k * p;
        lemma_col_len_indices(len, p, j, k);
        assert(i < len);
        assert(0 <= i) by (nonlinear_arith)
            requires
                i == j + k * p,
                0 <= j,
                0 <= k,
                0 < p,
        ;
        lemma_fundamental_div_mod_converse(i, p, k, j);
        assert(slot(len, p, i) == j * ch + k) by (nonlinear_arith)
            requires
                slot(len, p, i) == (i % p) * ch + i / p,
                i % p == j,
                i / p == k,
        ;
        assert(buf[start + k] == data[i]);
    }
    assert(region =~= column(data, p, j));
}

} // verus!
