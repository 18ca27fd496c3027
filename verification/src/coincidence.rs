//! Coincidence counting for one column of symbols.
//!
//! The index of coincidence of a column of length `n` is
//! `sum_c occ_c * (occ_c - 1) / (n * (n - 1))`, where `occ_c` is the
//! number of occurrences of symbol `c` in the column.  This module
//! computes the numerator exactly; the scanner assembles the quotients.
//!
//! Two counting strategies produce the same numerator: a dense one that
//! indexes a reusable counting array by symbol code, and a sparse one
//! that keeps an association list keyed by the symbols that actually
//! occur.  The choice between them is a performance decision only.

use crate::MAX_STREAM_LEN;
use vstd::prelude::*;

verus! {

/// Exclusive upper bound of the symbol code space.
pub open spec fn sym_space() -> int {
    0x1_0000_0000
}

/// Number of occurrences of symbol `c` in `col`.
pub open spec fn occ(col: Seq<u32>, c: u32) -> nat
    decreases col.len(),
{
    if col.len() == 0 {
        0
    } else {
        occ(col.drop_last(), c) + (if col.last() == c {
            1nat
        } else {
            0nat
        })
    }
}

/// Coincidence numerator restricted to symbols below `m`:
/// `sum over c < m of occ(col, c) * (occ(col, c) - 1)`.
pub open spec fn pairs_upto(col: Seq<u32>, m: int) -> int
    decreases m,
{
    if m <= 0 {
        0
    } else {
        pairs_upto(col, m - 1) + occ(col, (m - 1) as u32) * (occ(col, (m - 1) as u32) - 1)
    }
}

/// Coincidence numerator of a column: the number of ordered pairs of
/// distinct positions that hold equal symbols.
pub open spec fn pairs(col: Seq<u32>) -> int {
    pairs_upto(col, sym_space())
}

/// Sum of `occ(col, c)` over all symbols `c < m`.
pub open spec fn occ_sum_upto(col: Seq<u32>, m: int) -> int
    decreases m,
{
    if m <= 0 {
        0
    } else {
        occ_sum_upto(col, m - 1) + occ(col, (m - 1) as u32)
    }
}

/// A symbol occurs at most `col.len()` times.
pub proof fn lemma_occ_le_len(col: Seq<u32>, c: u32)
    ensures
        occ(col, c) <= col.len(),
    decreases col.len(),
{
    if col.len() > 0 {
        lemma_occ_le_len(col.drop_last(), c);
    }
}

/// A symbol that appears nowhere in the column has no occurrences.
pub proof fn lemma_occ_absent(col: Seq<u32>, c: u32)
    requires
        forall|k: int| 0 <= k < col.len() ==> col[k] != c,
    ensures
        occ(col, c) == 0,
    decreases col.len(),
{
    if col.len() > 0 {
        lemma_occ_absent(col.drop_last(), c);
    }
}

/// Appending one symbol raises its count by one and leaves the others.
pub proof fn lemma_occ_push(col: Seq<u32>, x: u32, c: u32)
    ensures
        occ(col.push(x), c) == occ(col, c) + (if x == c {
            1int
        } else {
            0int
        }),
{
    assert(col.push(x).drop_last() =~= col);
}

/// Once `m` covers every symbol of the column, the restricted numerator
/// no longer grows.
pub proof fn lemma_pairs_upto_grow(col: Seq<u32>, m1: int, m2: int)
    requires
        0 <= m1 <= m2 <= sym_space(),
        forall|k: int| 0 <= k < col.len() ==> (col[k] as int) < m1,
    ensures
        pairs_upto(col, m2) == pairs_upto(col, m1),
    decreases m2 - m1,
{
    if m2 > m1 {
        lemma_pairs_upto_grow(col, m1, m2 - 1);
        assert(forall|k: int| 0 <= k < col.len() ==> col[k] != ((m2 - 1) as u32));
        lemma_occ_absent(col, (m2 - 1) as u32);
    }
}

/// The restricted numerator is non-negative.
pub proof fn lemma_pairs_upto_nonneg(col: Seq<u32>, m: int)
    ensures
        pairs_upto(col, m) >= 0,
    decreases m,
{
    if m > 0 {
        lemma_pairs_upto_nonneg(col, m - 1);
        let h = occ(col, (m - 1) as u32) as int;
        assert(h * (h - 1) >= 0) by (nonlinear_arith)
            requires
                h >= 0,
        ;
    }
}

/// The occurrence sum is non-negative.
pub proof fn lemma_occ_sum_nonneg(col: Seq<u32>, m: int)
    ensures
        occ_sum_upto(col, m) >= 0,
    decreases m,
{
    if m > 0 {
        lemma_occ_sum_nonneg(col, m - 1);
    }
}

/// Appending one symbol raises the occurrence sum by at most one.
proof fn lemma_occ_sum_push(col: Seq<u32>, x: u32, m: int)
    requires
        m <= sym_space(),
    ensures
        occ_sum_upto(col.push(x), m) == occ_sum_upto(col, m) + (if (x as int) < m {
            1int
        } else {
            0int
        }),
    decreases m,
{
    if m > 0 {
        lemma_occ_sum_push(col, x, m - 1);
        lemma_occ_push(col, x, (m - 1) as u32);
    }
}

/// The occurrence sum never exceeds the column length.
pub proof fn lemma_occ_sum_le_len(col: Seq<u32>, m: int)
    requires
        m <= sym_space(),
    ensures
        occ_sum_upto(col, m) <= col.len(),
    decreases col.len(),
{
    if col.len() == 0 {
        lemma_occ_sum_absent(col, m);
    } else {
        let shorter = col.drop_last();
        lemma_occ_sum_le_len(shorter, m);
        assert(shorter.push(col.last()) =~= col);
        lemma_occ_sum_push(shorter, col.last(), m);
    }
}

/// The occurrence sum of an empty column is zero.
proof fn lemma_occ_sum_absent(col: Seq<u32>, m: int)
    requires
        col.len() == 0,
    ensures
        occ_sum_upto(col, m) == 0,
    decreases m,
{
    if m > 0 {
        lemma_occ_sum_absent(col, m - 1);
    }
}

/// The coincidence numerator of a sample of size `s` is at most
/// `s * (s - 1)`; summed over symbols this bounds `pairs_upto` by the
/// occurrence sum.
pub proof fn lemma_pairs_upto_le(col: Seq<u32>, m: int)
    ensures
        pairs_upto(col, m) <= occ_sum_upto(col, m) * (occ_sum_upto(col, m) - 1),
    decreases m,
{
    if m <= 0 {
    } else {
        lemma_pairs_upto_le(col, m - 1);
        lemma_occ_sum_nonneg(col, m - 1);
        let s = occ_sum_upto(col, m - 1);
        let h = occ(col, (m - 1) as u32) as int;
        assert(s * (s - 1) + h * (h - 1) <= (s + h) * ((s + h) - 1)) by (nonlinear_arith)
            requires
                s >= 0,
                h >= 0,
        ;
    }
}

/// Appending a symbol `x` raises the restricted numerator by twice the
/// number of earlier occurrences of `x`.
proof fn lemma_pairs_upto_snoc(col: Seq<u32>, x: u32, m: int)
    requires
        m <= sym_space(),
    ensures
        pairs_upto(col.push(x), m) == pairs_upto(col, m) + (if (x as int) < m {
            2 * (occ(col, x) as int)
        } else {
            0int
        }),
    decreases m,
{
    if m > 0 {
        lemma_pairs_upto_snoc(col, x, m - 1);
        let c = (m - 1) as u32;
        lemma_occ_push(col, x, c);
        if c == x {
            let h = occ(col, x) as int;
            assert((h + 1) * ((h + 1) - 1) == h * (h - 1) + 2 * h) by (nonlinear_arith);
        }
    }
}

/// Appending a symbol `x` raises the coincidence numerator by twice the
/// number of earlier occurrences of `x`: each earlier occurrence forms
/// two new ordered pairs with the new one.
pub proof fn lemma_pairs_snoc(col: Seq<u32>, x: u32)
    ensures
        pairs(col.push(x)) == pairs(col) + 2 * occ(col, x),
{
    lemma_pairs_upto_snoc(col, x, sym_space());
}

/// Score bound at the level of one column: the coincidence numerator
/// never exceeds `n * (n - 1)` for a column of length `n`, so each
/// column's score lies in the unit interval.
pub proof fn lemma_pairs_bound(col: Seq<u32>)
    ensures
        0 <= pairs(col),
        pairs(col) <= col.len() * (col.len() - 1),
{
    lemma_pairs_upto_nonneg(col, sym_space());
    lemma_pairs_upto_le(col, sym_space());
    lemma_occ_sum_le_len(col, sym_space());
    lemma_occ_sum_nonneg(col, sym_space());
    let s = occ_sum_upto(col, sym_space());
    let n = col.len() as int;
    assert(s * (s - 1) <= n * (n - 1)) by (nonlinear_arith)
        requires
            0 <= s <= n,
    ;
}

/// Dense counting strategy: count symbol occurrences in the counting
/// array `counts` (indexed by symbol code), then fold the array into the
/// coincidence numerator, resetting every touched cell so the array can
/// be reused for the next column without reallocation.
///
/// The column is `buf[start .. start + n]`; every symbol in it must be a
/// valid index into `counts`, and `counts` must be all zero on entry.
pub fn column_pairs_dense(buf: &Vec<u32>, start: usize, n: usize, counts: &mut Vec<u32>) -> (num:
    u64)
    requires
        start + n <= buf@.len(),
        n <= MAX_STREAM_LEN,
        old(counts)@.len() <= sym_space(),
        forall|k: int| start <= k < start + n ==> (buf@[k] as int) < old(counts)@.len(),
        forall|c: int| 0 <= c < old(counts)@.len() ==> old(counts)@[c] == 0,
    ensures
        final(counts)@.len() == old(counts)@.len(),
        forall|c: int| 0 <= c < final(counts)@.len() ==> final(counts)@[c] == 0,
        num as int == pairs(buf@.subrange(start as int, start as int + n as int)),
{
    let ghost col = buf@.subrange(start as int, start as int + n as int);
    let buf_len = buf.len();
    let m = counts.len();
    let mut k: usize = 0;
    while k < n
        invariant
            k <= n,
            n <= MAX_STREAM_LEN,
            start + n <= buf_len,
            buf_len == buf@.len(),
            counts@.len() == m,
            m == old(counts)@.len(),
            m <= sym_space(),
            col == buf@.subrange(start as int, start as int + n as int),
            col.len() == n,
            forall|k2: int| start <= k2 < start + n ==> (buf@[k2] as int) < m,
            forall|c: int| 0 <= c < m ==> counts@[c] == occ(col.take(k as int), c as u32),
        decreases n - k,
    {
        let sym = buf[start + k];
        proof {
            assert(col.take(k as int + 1).drop_last() =~= col.take(k as int));
            assert(col.take(k as int + 1).last() == buf@[start + k]);
            lemma_occ_le_len(col.take(k as int), sym);
            assert(col.take(k as int).len() == k);
        }
        let cur = counts[sym as usize];
        counts[sym as usize] = cur + 1;
        proof {
            assert forall|c: int| 0 <= c < m implies counts@[c] == occ(
                col.take(k as int + 1),
                c as u32,
            ) by {
                assert(occ(col.take(k as int + 1), c as u32) == occ(col.take(k as int), c as u32)
                    + (if sym == c as u32 {
                    1int
                } else {
                    0int
                }));
            }
        }
        k = k + 1;
    }
    proof {
        assert(col.take(n as int) =~= col);
    }
    let mut num: u64 = 0;
    let mut c: usize = 0;
    while c < m
        invariant
            c <= m,
            n <= MAX_STREAM_LEN,
            counts@.len() == m,
            m == old(counts)@.len(),
            m <= sym_space(),
            col.len() == n,
            num as int == pairs_upto(col, c as int),
            forall|c2: int| 0 <= c2 < c ==> counts@[c2] == 0,
            forall|c2: int| c <= c2 < m ==> counts@[c2] == occ(col, c2 as u32),
        decreases m - c,
    {
        let h = counts[c];
        proof {
            lemma_occ_le_len(col, c as u32);
            lemma_pairs_upto_le(col, c as int + 1);
            lemma_occ_sum_le_len(col, c as int + 1);
            lemma_occ_sum_nonneg(col, c as int + 1);
            lemma_pairs_upto_nonneg(col, c as int);
            let s = occ_sum_upto(col, c as int + 1);
            assert(s * (s - 1) <= n as int * (n as int)) by (nonlinear_arith)
                requires
                    0 <= s <= n as int,
            ;
            assert(n as int * (n as int) <= 0x10000000000) by (nonlinear_arith)
                requires
                    0 <= n as int <= MAX_STREAM_LEN as int,
            ;
            assert(h as int == occ(col, c as u32));
        }
        if h != 0 {
            counts[c] = 0;
            let h64 = h as u64;
            proof {
                let hh = h64 as int;
                assert(hh * (hh - 1) <= n as int * (n as int)) by (nonlinear_arith)
                    requires
                        1 <= hh <= n as int,
                ;
                assert(pairs_upto(col, c as int + 1) == num + hh * (hh - 1));
            }
            num = num + h64 * (h64 - 1);
        } else {
            proof {
                assert(occ(col, c as u32) == 0);
                assert(pairs_upto(col, c as int + 1) == pairs_upto(col, c as int) + occ(
                    col,
                    c as u32,
                ) * (occ(col, c as u32) - 1));
            }
        }
        c = c + 1;
    }
    proof {
        lemma_pairs_upto_grow(col, m as int, sym_space());
    }
    num
}

/// Sparse counting strategy: an association list keyed by the symbol
/// values that actually occur, for alphabets too large or too sparse
/// for a counting array.  The numerator is grown incrementally: a
/// symbol seen `h` times before contributes `2 * h` new ordered pairs.
///
/// Produces exactly the same numerator as the dense strategy; the
/// choice between the two is a performance decision only.
pub fn column_pairs_sparse(buf: &Vec<u32>, start: usize, n: usize) -> (num: u64)
    requires
        start + n <= buf@.len(),
        n <= MAX_STREAM_LEN,
    ensures
        num as int == pairs(buf@.subrange(start as int, start as int + n as int)),
{
    let ghost col = buf@.subrange(start as int, start as int + n as int);
    let buf_len = buf.len();
    let mut keys: Vec<u32> = Vec::new();
    let mut cnts: Vec<u32> = Vec::new();
    let mut num: u64 = 0;
    proof {
        lemma_pairs_empty(col.take(0));
    }
    let mut k: usize = 0;
    while k < n
        invariant
            k <= n,
            n <= MAX_STREAM_LEN,
            start + n <= buf_len,
            buf_len == buf@.len(),
            col == buf@.subrange(start as int, start as int + n as int),
            col.len() == n,
            keys@.len() == cnts@.len(),
            forall|a: int, b: int| 0 <= a < b < keys@.len() ==> keys@[a] != keys@[b],
            forall|idx: int|
                0 <= idx < keys@.len() ==> cnts@[idx] == occ(col.take(k as int), keys@[idx]),
            forall|c: u32| !keys@.contains(c) ==> occ(col.take(k as int), c) == 0,
            num as int == pairs(col.take(k as int)),
            num as int <= k as int * (k as int),
        decreases n - k,
    {
        let x = buf[start + k];
        proof {
            assert(col.take(k as int + 1).drop_last() =~= col.take(k as int));
            assert(col.take(k as int + 1).last() == buf@[start + k]);
            lemma_occ_le_len(col.take(k as int), x);
            assert(col.take(k as int).len() == k);
        }
        let klen = keys.len();
        let mut pos: usize = klen;
        let mut idx: usize = 0;
        while idx < klen
            invariant
                idx <= klen,
                klen == keys@.len(),
                pos == klen || (pos < klen && keys@[pos as int] == x),
                pos == klen ==> forall|i2: int| 0 <= i2 < idx ==> keys@[i2] != x,
            decreases klen - idx,
        {
            if keys[idx] == x {
                if pos == klen {
                    pos = idx;
                }
            }
            idx = idx + 1;
        }
        let ghost prefix = col.take(k as int);
        let ghost old_keys = keys@;
        let h: u32;
        if pos < klen {
            let cur = cnts[pos];
            h = cur;
            cnts[pos] = cur + 1;
            proof {
                assert(h == occ(prefix, x));
            }
        } else {
            h = 0;
            proof {
                assert(forall|i2: int| 0 <= i2 < keys@.len() ==> keys@[i2] != x);
                assert(!keys@.contains(x));
                assert(occ(prefix, x) == 0);
            }
            keys.push(x);
            cnts.push(1);
        }
        proof {
            let longer = col.take(k as int + 1);
            assert(longer =~= prefix.push(x));
            lemma_pairs_snoc(prefix, x);
            assert(num as int + 2 * (h as int) <= (k as int + 1) * (k as int + 1))
                by (nonlinear_arith)
                requires
                    num as int <= k as int * (k as int),
                    0 <= h as int <= k as int,
            ;
            assert(k as int * (k as int) <= MAX_STREAM_LEN as int * (MAX_STREAM_LEN as int))
                by (nonlinear_arith)
                requires
                    0 <= k as int <= MAX_STREAM_LEN as int,
            ;
            assert forall|c: u32| !keys@.contains(c) implies occ(longer, c) == 0 by {
                if c != x {
                    assert(!old_keys.contains(c)) by {
                        if old_keys.contains(c) {
                            let i = choose|i: int| 0 <= i < old_keys.len() && old_keys[i] == c;
                            assert(keys@[i] == c);
                            assert(keys@.contains(c));
                        }
                    }
                    lemma_occ_push(prefix, x, c);
                } else {
                    assert(keys@.contains(x)) by {
                        if pos < klen {
                            assert(keys@[pos as int] == x);
                        } else {
                            assert(keys@.last() == x);
                        }
                    }
                }
            }
            assert forall|i2: int| 0 <= i2 < keys@.len() implies cnts@[i2] == occ(
                longer,
                keys@[i2],
            ) by {
                lemma_occ_push(prefix, x, keys@[i2]);
            }
        }
        num = num + 2 * (h as u64);
        k = k + 1;
    }
    proof {
        assert(col.take(n as int) =~= col);
    }
    num
}

/// The coincidence numerator of an empty column is zero.
proof fn lemma_pairs_empty(col: Seq<u32>)
    requires
        col.len() == 0,
    ensures
        pairs(col) == 0,
{
    lemma_pairs_upto_grow(col, 0, sym_space());
}

} // verus!
