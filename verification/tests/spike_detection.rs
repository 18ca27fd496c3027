//! Tests of the spike detector and the renderer-boundary helpers.

use kullback::spikes::{detect, score_max, score_min};

/// Spike symmetry: a flat curve never yields a spike, however short or
/// long; the zero standard deviation resolves to "no spikes".
#[test]
fn flat_curve_has_no_spikes() {
    assert_eq!(detect(&vec![5u64]), Vec::<usize>::new());
    assert_eq!(detect(&vec![123_456u64; 10]), Vec::<usize>::new());
    assert_eq!(detect(&vec![0u64; 3]), Vec::<usize>::new());
}

/// One outlier far above an otherwise flat curve is flagged, and
/// nothing else: with scores [0,0,0,0,10^9], the outlier's scaled
/// deviation is 4*10^9 and 4*5*(4e9)^2 > 9*(4*(1e9)^2 + (4e9)^2).
#[test]
fn single_outlier_is_flagged() {
    let scores: Vec<u64> = vec![0, 0, 0, 0, 1_000_000_000];
    assert_eq!(detect(&scores), vec![4]);
}

/// With two entries no deviation can exceed one and a half standard
/// deviations: 4*2*d^2 never exceeds 9*2*d^2.
#[test]
fn two_entries_never_spike() {
    assert_eq!(detect(&vec![0u64, 100]), Vec::<usize>::new());
    assert_eq!(detect(&vec![1u64, 1_000_000_000]), Vec::<usize>::new());
}

/// A mild bump that stays within the threshold is not flagged: for
/// [1,2,3] the largest scaled deviation is 3 and 4*3*9 < 9*18.
#[test]
fn mild_bump_is_not_flagged() {
    assert_eq!(detect(&vec![1u64, 2, 3]), Vec::<usize>::new());
}

/// Several spikes come back in increasing index order.
#[test]
fn spikes_reported_in_order() {
    let mut scores: Vec<u64> = vec![10; 40];
    scores[7] = 1_000_000_000;
    scores[23] = 1_000_000_000;
    assert_eq!(detect(&scores), vec![7, 23]);
}

/// Axis bounds for the renderer: the extreme scores of the curve.
#[test]
fn curve_extremes() {
    let scores: Vec<u64> = vec![41, 7, 99, 12];
    assert_eq!(score_min(&scores), 7);
    assert_eq!(score_max(&scores), 99);
    assert_eq!(score_min(&vec![3u64]), 3);
    assert_eq!(score_max(&vec![3u64]), 3);
}
