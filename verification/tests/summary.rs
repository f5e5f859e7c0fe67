use samplers::summary::{DistributionSummary, Observer};

/// Maps a floating-point measurement to its order key, as the histogram
/// tests do.
fn measurement_key(x: f64) -> u64 {
    let b = x.to_bits();
    if b & (1u64 << 63) != 0 {
        !b
    } else {
        b | (1u64 << 63)
    }
}

#[test]
fn test_distribution_summary() {
    let mut summary = DistributionSummary::default();
    assert_eq!(summary.min(), None);
    assert_eq!(summary.max(), None);
    summary.observe(measurement_key(8.25)).unwrap();
    assert_eq!(summary.min(), Some(measurement_key(8.25)));
    assert_eq!(summary.max(), Some(measurement_key(8.25)));
    summary.observe(measurement_key(-1.5)).unwrap();
    assert_eq!(summary.min(), Some(measurement_key(-1.5)));
    assert_eq!(summary.max(), Some(measurement_key(8.25)));
}

#[test]
fn test_count_matches_sequence_length() {
    let values: Vec<u64> = vec![
        measurement_key(-1.25),
        measurement_key(6.25),
        measurement_key(16.0),
        measurement_key(-6.25),
        measurement_key(1.25),
        measurement_key(8.0),
    ];
    let mut summary = DistributionSummary::default();
    assert_eq!(summary.count(), 0);
    summary.observe_many(&values).unwrap();
    assert_eq!(summary.count(), values.len() as u64);
    summary.observe(measurement_key(4.0)).unwrap();
    assert_eq!(summary.count(), values.len() as u64 + 1);
}

#[test]
fn test_extrema_order_independent() {
    let forward: Vec<u64> = vec![
        measurement_key(4.2),
        measurement_key(-0.8),
        measurement_key(12.0),
        measurement_key(4.2),
    ];
    let mut backward = forward.clone();
    backward.reverse();

    let mut a = DistributionSummary::default();
    a.observe_many(&forward).unwrap();
    let mut b = DistributionSummary::default();
    b.observe_many(&backward).unwrap();

    assert_eq!(a.count(), b.count());
    assert_eq!(a.min(), b.min());
    assert_eq!(a.max(), b.max());
    assert_eq!(a.min(), Some(measurement_key(-0.8)));
    assert_eq!(a.max(), Some(measurement_key(12.0)));
}

#[test]
fn test_observe_many_in_batches() {
    let mut whole = DistributionSummary::default();
    whole
        .observe_many(&vec![10, 3, 7, 99, 4])
        .unwrap();

    let mut split = DistributionSummary::default();
    split.observe_many(&vec![10, 3]).unwrap();
    split.observe_many(&vec![7, 99, 4]).unwrap();

    assert_eq!(whole.count(), split.count());
    assert_eq!(whole.min(), split.min());
    assert_eq!(whole.max(), split.max());
    assert_eq!(whole.min(), Some(3));
    assert_eq!(whole.max(), Some(99));
}
