//! Transposition of a symbol stream into equal-stride columns.
//!
//! For a candidate period `p`, the stream is rearranged so that the symbol
//! at original index `i` lands in column `i % p`, row `i / p`.  Reading the
//! buffer in `chunk_size`-sized contiguous slices then yields the `p`
//! columns in order.  Trailing cells of short columns are padding and are
//! never read downstream.

use vstd::arithmetic::div_mod::{
    lemma_fundamental_div_mod, lemma_fundamental_div_mod_converse, lemma_mod_bound,
};
use vstd::prelude::*;

verus! {

/// Number of rows of the transposition of a stream of length `len` into
/// `p` columns: `len / p` rounded up.
pub open spec fn chunk_size(len: int, p: int) -> int
    recommends
        1 <= p,
{
    (len + p - 1) / p
}

/// Number of columns that hold a full `chunk_size(len, p)` symbols; the
/// remaining `p - cap_of(len, p)` columns hold one symbol fewer.
pub open spec fn cap_of(len: int, p: int) -> int
    recommends
        1 <= p,
{
    if len % p != 0 {
        len % p
    } else {
        p
    }
}

/// Number of real (non-padding) symbols in column `j`.
pub open spec fn col_len(len: int, p: int, j: int) -> int
    recommends
        1 <= p,
        0 <= j < p,
{
    if j < cap_of(len, p) {
        chunk_size(len, p)
    } else {
        chunk_size(len, p) - 1
    }
}

/// Column `j` of the `p`-column transposition of `data`: every `p`-th
/// symbol of the stream, starting at offset `j`.
pub open spec fn column(data: Seq<u32>, p: int, j: int) -> Seq<u32>
    recommends
        1 <= p,
        0 <= j < p,
{
    Seq::new(col_len(data.len() as int, p, j) as nat, |k: int| data[j + k * p])
}

/// Sum of the lengths of the first `j_end` columns.
pub open spec fn col_len_sum(len: int, p: int, j_end: int) -> int
    decreases j_end,
{
    if j_end <= 0 {
        0
    } else {
        col_len_sum(len, p, j_end - 1) + col_len(len, p, j_end - 1)
    }
}

/// Buffer cell that holds row `i / p` of column `i % p`, when each column
/// occupies `chunk_size(len, p)` contiguous cells.
pub open spec fn slot(len: int, p: int, i: int) -> int
    recommends
        1 <= p,
{
    (i % p) * chunk_size(len, p) + i / p
}

/// How `chunk_size` and `cap_of` relate to the quotient and remainder of
/// `len / p`, and that full and short columns together cover the stream.
pub proof fn lemma_chunk_cap(len: int, p: int)
    requires
        1 <= p,
        0 <= len,
    ensures
        len % p == 0 ==> chunk_size(len, p) == len / p && cap_of(len, p) == p,
        len % p != 0 ==> chunk_size(len, p) == len / p + 1 && cap_of(len, p) == len % p,
        cap_of(len, p) * chunk_size(len, p) + (p - cap_of(len, p)) * (chunk_size(len, p) - 1)
            == len,
        0 < cap_of(len, p) <= p,
        len >= 1 ==> chunk_size(len, p) >= 1,
{
    let q = len / p;
    let r = len % p;
    lemma_fundamental_div_mod(len, p);
    lemma_mod_bound(len, p);
    if r == 0 {
        assert(len + p - 1 == q * p + (p - 1)) by (nonlinear_arith)
            requires
                len == p * q + r,
                r == 0,
        ;
        lemma_fundamental_div_mod_converse(len + p - 1, p, q, p - 1);
        assert(p * q + (p - p) * (q - 1) == len) by (nonlinear_arith)
            requires
                len == p * q + r,
                r == 0,
        ;
        if len >= 1 {
            assert(q >= 1) by (nonlinear_arith)
                requires
                    len == p * q + r,
                    r == 0,
                    len >= 1,
                    p >= 1,
            ;
        }
    } else {
        assert(len + p - 1 == (q + 1) * p + (r - 1)) by (nonlinear_arith)
            requires
                len == p * q + r,
        ;
        lemma_fundamental_div_mod_converse(len + p - 1, p, q + 1, r - 1);
        assert(r * (q + 1) + (p - r) * q == len) by (nonlinear_arith)
            requires
                len == p * q + r,
        ;
        assert(q >= 0) by (nonlinear_arith)
            requires
                len == p * q + r,
                0 <= len,
                0 < r < p,
                p >= 1,
        ;
    }
}

/// Closed form of `col_len_sum`: `j` full columns, then short ones.
proof fn lemma_col_len_sum_split(len: int, p: int, j: int)
    requires
        1 <= p,
        0 <= len,
        0 <= j <= p,
    ensures
        j <= cap_of(len, p) ==> col_len_sum(len, p, j) == j * chunk_size(len, p),
        j > cap_of(len, p) ==> col_len_sum(len, p, j) == cap_of(len, p) * chunk_size(len, p) + (
        j - cap_of(len, p)) * (chunk_size(len, p) - 1),
    decreases j,
{
    let cap = cap_of(len, p);
    let ch = chunk_size(len, p);
    lemma_chunk_cap(len, p);
    if j > 0 {
        lemma_col_len_sum_split(len, p, j - 1);
        if j <= cap {
            assert((j - 1) * ch + ch == j * ch) by (nonlinear_arith);
        } else if j - 1 == cap {
            assert(cap * ch + (j - cap) * (ch - 1) == cap * ch + (ch - 1)) by (nonlinear_arith)
                requires
                    j - 1 == cap,
            ;
        } else {
            assert((j - 1 - cap) * (ch - 1) + (ch - 1) == (j - cap) * (ch - 1))
                by (nonlinear_arith);
        }
    }
}

/// Column coverage: the lengths of the `p` columns of a stream of length
/// `len` sum to `len` exactly, so the per-column coincidence computations
/// together read every symbol once and nothing else.
pub proof fn lemma_column_coverage(len: int, p: int)
    requires
        1 <= p,
        0 <= len,
    ensures
        col_len_sum(len, p, p) == len,
{
    lemma_col_len_sum_split(len, p, p);
    lemma_chunk_cap(len, p);
    let cap = cap_of(len, p);
    let ch = chunk_size(len, p);
    if p <= cap {
        assert(col_len_sum(len, p, p) == p * ch);
        assert(p * ch == cap * ch + (p - cap) * (ch - 1)) by (nonlinear_arith)
            requires
                cap == p,
        ;
    }
}

/// A row index `k` is in range for column `j` exactly when the stream
/// index `j + k * p` it came from is in range for the stream.
pub proof fn lemma_col_len_indices(len: int, p: int, j: int, k: int)
    requires
        1 <= p,
        0 <= j < p,
        0 <= len,
        0 <= k,
    ensures
        j + k * p < len <==> k < col_len(len, p, j),
{
    let q = len / p;
    let r = len % p;
    lemma_fundamental_div_mod(len, p);
    lemma_mod_bound(len, p);
    lemma_chunk_cap(len, p);
    assert(j + k * p < len <==> k < col_len(len, p, j)) by (nonlinear_arith)
        requires
            len == p * q + r,
            0 <= r < p,
            1 <= p,
            0 <= j < p,
            0 <= k,
            r == 0 ==> col_len(len, p, j) == q,
            r != 0 && j < r ==> col_len(len, p, j) == q + 1,
            r != 0 && j >= r ==> col_len(len, p, j) == q,
    ;
}

/// The buffer cell of stream index `i` lies inside the used region, and
/// distinct stream indices use distinct cells.
pub proof fn lemma_slot_range(len: int, p: int, i: int)
    requires
        1 <= p,
        0 <= i < len,
    ensures
        0 <= slot(len, p, i) < p * chunk_size(len, p),
        slot(len, p, i) / chunk_size(len, p) == i % p,
        slot(len, p, i) % chunk_size(len, p) == i / p,
{
    let ch = chunk_size(len, p);
    lemma_fundamental_div_mod(i, p);
    lemma_mod_bound(i, p);
    lemma_fundamental_div_mod(len, p);
    lemma_mod_bound(len, p);
    lemma_chunk_cap(len, p);
    assert(0 <= i / p < ch) by (nonlinear_arith)
        requires
            i == p * (i / p) + i % p,
            0 <= i % p < p,
            0 <= i < len,
            1 <= p,
            len % p == 0 ==> ch == len / p,
            len % p != 0 ==> ch == len / p + 1,
            len == p * (len / p) + len % p,
            0 <= len % p < p,
    ;
    lemma_fundamental_div_mod_converse(slot(len, p, i), ch, i % p, i / p);
    assert(slot(len, p, i) < p * ch) by (nonlinear_arith)
        requires
            slot(len, p, i) == (i % p) * ch + i / p,
            0 <= i % p < p,
            0 <= i / p < ch,
    ;
    assert(0 <= slot(len, p, i)) by (nonlinear_arith)
        requires
            slot(len, p, i) == (i % p) * ch + i / p,
            0 <= i % p,
            0 <= i / p,
            0 < ch,
    ;
}

/// Distinct stream indices land in distinct buffer cells.
pub proof fn lemma_slot_injective(len: int, p: int, i1: int, i2: int)
    requires
        1 <= p,
        0 <= i1 < len,
        0 <= i2 < len,
        i1 != i2,
    ensures
        slot(len, p, i1) != slot(len, p, i2),
{
    lemma_slot_range(len, p, i1);
    lemma_slot_range(len, p, i2);
    if slot(len, p, i1) == slot(len, p, i2) {
        lemma_fundamental_div_mod(i1, p);
        lemma_fundamental_div_mod(i2, p);
    }
}

/// Rearrange `data` into `p` columns of `chunk_size` contiguous cells
/// each, reusing `buf` as the backing storage.  The cell of column
/// `i % p`, row `i / p` receives `data[i]`; cells past the real data of a
/// short column are padding with unspecified contents.
pub fn transpose(data: &Vec<u32>, p: usize, buf: &mut Vec<u32>)
    requires
        1 <= p,
        data@.len() + p <= usize::MAX,
    ensures
        final(buf)@.len() == p * chunk_size(data@.len() as int, p as int),
        forall|i: int|
            0 <= i < data@.len() ==> final(buf)@[slot(data@.len() as int, p as int, i)]
                == data@[i],
{
    let len = data.len();
    let ghost glen = len as int;
    let ghost gp = p as int;
    proof {
        lemma_chunk_cap(glen, gp);
        lemma_fundamental_div_mod(glen + gp - 1, gp);
        lemma_mod_bound(glen + gp - 1, gp);
        assert(gp * chunk_size(glen, gp) <= glen + gp - 1) by (nonlinear_arith)
            requires
                glen + gp - 1 == gp * ((glen + gp - 1) / gp) + (glen + gp - 1) % gp,
                0 <= (glen + gp - 1) % gp,
                chunk_size(glen, gp) == (glen + gp - 1) / gp,
        ;
    }
    let chunk = (len + p - 1) / p;
    let size = p * chunk;
    buf.clear();
    buf.resize(size, 0u32);
    let mut i: usize = 0;
    while i < len
        invariant
            i <= len,
            len == data@.len(),
            1 <= gp,
            glen == len as int,
            gp == p as int,
            glen + gp <= usize::MAX,
            chunk == chunk_size(glen, gp),
            size == gp * chunk_size(glen, gp),
            buf@.len() == size,
            forall|i2: int| 0 <= i2 < i ==> buf@[slot(glen, gp, i2)] == data@[i2],
        decreases len - i,
    {
        proof {
            lemma_slot_range(glen, gp, i as int);
        }
        let idx = (i % p) * chunk + i / p;
        proof {
            assert(idx as int == slot(glen, gp, i as int));
            assert(0 <= idx < buf@.len());
        }
        let ghost pre = buf@;
        buf[idx] = data[i];
        proof {
            assert(buf@ == pre.update(idx as int, data@[i as int]));
            assert forall|i2: int| 0 <= i2 < i + 1 implies buf@[slot(glen, gp, i2)]
                == data@[i2] by {
                if i2 < i {
                    lemma_slot_range(glen, gp, i2);
                    lemma_slot_injective(glen, gp, i2, i as int);
                    assert(slot(glen, gp, i2) != idx as int);
                    assert(buf@[slot(glen, gp, i2)] == pre[slot(glen, gp, i2)]);
                } else {
                    assert(buf@[slot(glen, gp, i2)] == data@[i2]);
                }
            }
        }
        i = i + 1;
    }
}

} // verus!
