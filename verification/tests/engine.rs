//! End-to-end tests of the period scanner on concrete streams.

use kullback::scan::{scan, ScanError};
use kullback::SCALE;

/// The worked example: "abbacddabcabddacdb" transcribed, then scanned.
/// Period 1 is one column of all 18 symbols (numerator 66 over 18*17);
/// period 2 gives two columns of 9 scoring 14/72 and 12/72 (average
/// 13/72); period 3 gives three columns of 6 scoring 6/30, 4/30 and
/// 12/30 (average 22/90).  All scaled by 10^9 and rounded down.
#[test]
fn worked_example_scores() {
    let codes: Vec<u32> = vec![0, 1, 1, 0, 2, 3, 3, 0, 1, 2, 0, 1, 3, 3, 0, 2, 3, 1];
    let out = scan(&codes, 4, Vec::new()).unwrap();
    assert_eq!(out, vec![215_686_274u64, 180_555_555u64, 244_444_444u64]);
}

/// Determinism: two scans of the same stream from empty caches agree
/// bit for bit.
#[test]
fn repeated_scans_identical() {
    let codes: Vec<u32> = vec![0, 1, 1, 0, 2, 3, 3, 0, 1, 2, 0, 1, 3, 3, 0, 2, 3, 1];
    let a = scan(&codes, 9, Vec::new()).unwrap();
    let b = scan(&codes, 9, Vec::new()).unwrap();
    assert_eq!(a, b);
}

/// Incrementality: extending the result of a shorter scan equals one
/// scan of the full range.
#[test]
fn incremental_extension_matches_direct_scan() {
    let codes: Vec<u32> = vec![0, 1, 1, 0, 2, 3, 3, 0, 1, 2, 0, 1, 3, 3, 0, 2, 3, 1];
    let partial = scan(&codes, 5, Vec::new()).unwrap();
    assert_eq!(partial.len(), 4);
    let extended = scan(&codes, 9, partial).unwrap();
    let direct = scan(&codes, 9, Vec::new()).unwrap();
    assert_eq!(extended, direct);
    assert_eq!(extended.len(), 8);
}

/// A cache that already covers the range comes back truncated to it,
/// without recomputation or validation.
#[test]
fn sufficient_cache_returned_truncated() {
    let codes: Vec<u32> = vec![0, 1, 1, 0];
    let cache: Vec<u64> = vec![7, 8, 9, 10];
    let out = scan(&codes, 3, cache).unwrap();
    assert_eq!(out, vec![7, 8]);
}

/// The early return happens even for a stream that would otherwise be
/// rejected: a sufficient cache short-circuits validation.
#[test]
fn sufficient_cache_skips_validation() {
    let codes: Vec<u32> = vec![0, 1, 2];
    let out = scan(&codes, 2, vec![5, 6]).unwrap();
    assert_eq!(out, vec![5]);
}

/// A range of zero or one asks for no periods at all.
#[test]
fn degenerate_ranges_yield_empty_curves() {
    let codes: Vec<u32> = vec![0, 1, 1, 0, 2, 3, 3, 0];
    assert_eq!(scan(&codes, 0, Vec::new()).unwrap(), Vec::<u64>::new());
    assert_eq!(scan(&codes, 1, Vec::new()).unwrap(), Vec::<u64>::new());
}

/// A stream of three symbols is always rejected as too short.
#[test]
fn three_symbols_rejected() {
    let codes: Vec<u32> = vec![0, 1, 2];
    assert_eq!(scan(&codes, 2, Vec::new()), Err(ScanError::TooShort));
    assert_eq!(scan(&codes, 40, Vec::new()), Err(ScanError::TooShort));
}

/// A hundred symbols accept a range of fifty and reject fifty-one.
#[test]
fn range_boundary_at_half_the_length() {
    let codes: Vec<u32> = (0..100u32).map(|i| i % 7).collect();
    assert_eq!(scan(&codes, 51, Vec::new()), Err(ScanError::RangeTooLarge));
    let ok = scan(&codes, 50, Vec::new()).unwrap();
    assert_eq!(ok.len(), 49);
}

/// Score bounds: every computed score is a fixed-point value in the
/// unit interval.
#[test]
fn scores_lie_in_unit_interval() {
    let codes: Vec<u32> = (0..64u32).map(|i| (i * i + 3 * i) % 11).collect();
    let out = scan(&codes, 32, Vec::new()).unwrap();
    assert_eq!(out.len(), 31);
    for s in out {
        assert!(s <= SCALE);
    }
}

/// A stream whose length no candidate period divides: for ten symbols
/// and period 3 the columns have lengths 4, 3 and 3 (together the
/// whole stream), scoring 2/12, 2/6 and 6/6 for an average of 1/2.
/// Period 1 scores 26/90, period 2 averages 8/20 and 4/20 to 3/10.
#[test]
fn short_columns_trimmed_exactly() {
    let codes: Vec<u32> = vec![0, 1, 0, 2, 1, 0, 1, 2, 0, 1];
    let out = scan(&codes, 4, Vec::new()).unwrap();
    assert_eq!(out, vec![288_888_888u64, 300_000_000u64, 500_000_000u64]);
}

/// A constant stream has every coincidence, so every score is exactly
/// one.
#[test]
fn constant_stream_scores_one() {
    let codes: Vec<u32> = vec![4; 24];
    let out = scan(&codes, 6, Vec::new()).unwrap();
    assert_eq!(out, vec![SCALE; 5]);
}

/// A symbol code that never occurs contributes exactly zero to the
/// coincidence numerator: for [0,2,2,0] the single column of period 1
/// counts two pairs of 0 and two of 2, scoring 4/12.
#[test]
fn absent_symbols_contribute_nothing() {
    let codes: Vec<u32> = vec![0, 2, 2, 0];
    let out = scan(&codes, 2, Vec::new()).unwrap();
    assert_eq!(out, vec![333_333_333u64]);
}

/// A large alphabet takes the sparse counting strategy and produces
/// the same scores as the same stream under small codes.
#[test]
fn sparse_and_dense_strategies_agree() {
    // Same pattern of equalities, written once with small codes and
    // once with codes far above the dense limit.
    let small: Vec<u32> = vec![0, 1, 1, 0, 2, 3, 3, 0, 1, 2, 0, 1, 3, 3, 0, 2, 3, 1];
    let big: Vec<u32> = small.iter().map(|c| c * 1_000_003 + 70_000).collect();
    let a = scan(&small, 9, Vec::new()).unwrap();
    let b = scan(&big, 9, Vec::new()).unwrap();
    assert_eq!(a, b);
}
