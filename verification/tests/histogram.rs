use samplers::histogram::Histogram;
use samplers::summary::Observer;

/// Maps a floating-point measurement to its order key: an unsigned word
/// that compares the way the measurement does under the total order.
fn key(x: f64) -> u64 {
    let b = x.to_bits();
    if b & (1u64 << 63) != 0 {
        !b
    } else {
        b | (1u64 << 63)
    }
}

#[test]
fn test_key_order() {
    assert!(key(-20.0) < key(-6.0));
    assert!(key(-6.0) < key(-5.0));
    assert!(key(-5.0) < key(-1.0));
    assert!(key(-1.0) < key(0.0));
    assert!(key(0.0) < key(1.0));
    assert!(key(1.0) < key(2.0));
    assert!(key(5.0) < key(120.0));
    assert_eq!(key(5.0), key(5.0));
}

#[test]
fn test_histogram() {
    let mut histogram = Histogram::with_boundaries(vec![key(-5.0), key(0.0), key(5.0)]);
    assert_eq!(histogram.counts(), &vec![0, 0, 0, 0]);
    histogram.observe(key(1.0)).unwrap();
    assert_eq!(histogram.counts(), &vec![0, 0, 1, 0]);
    histogram.observe(key(1.0)).unwrap();
    assert_eq!(histogram.counts(), &vec![0, 0, 2, 0]);
    histogram.observe(key(-1.0)).unwrap();
    assert_eq!(histogram.counts(), &vec![0, 1, 2, 0]);
    histogram.observe(key(-6.0)).unwrap();
    assert_eq!(histogram.counts(), &vec![1, 1, 2, 0]);
    histogram
        .observe_many(&vec![key(-20.0), key(120.0), key(2.0)])
        .unwrap();
    assert_eq!(histogram.counts(), &vec![2, 1, 3, 1]);

    let mut histogram = Histogram::with_boundaries(vec![key(0.0)]);
    assert_eq!(histogram.counts(), &vec![0, 0]);
    histogram
        .observe_many(&vec![key(-20.0), key(120.0), key(2.0)])
        .unwrap();
    assert_eq!(histogram.counts(), &vec![1, 2]);
}

#[test]
fn test_boundary_tie_break() {
    // A value exactly on a boundary lands in the bucket above it.
    let mut histogram = Histogram::with_boundaries(vec![key(0.0), key(5.0)]);
    histogram.observe(key(0.0)).unwrap();
    assert_eq!(histogram.counts(), &vec![0, 1, 0]);
    histogram.observe(key(5.0)).unwrap();
    assert_eq!(histogram.counts(), &vec![0, 1, 1]);
}

#[test]
fn test_empty_boundaries() {
    // No boundaries means one unbounded bucket that takes everything.
    let mut histogram = Histogram::with_boundaries(vec![]);
    assert_eq!(histogram.counts(), &vec![0]);
    histogram.observe(key(7.5)).unwrap();
    histogram.observe(key(-7.5)).unwrap();
    assert_eq!(histogram.counts(), &vec![2]);
}

#[test]
fn test_counts_sum_matches_observed() {
    let mut histogram = Histogram::with_boundaries(vec![key(1.0), key(2.0), key(3.5)]);
    let values = vec![
        key(0.5),
        key(1.0),
        key(1.5),
        key(2.0),
        key(3.5),
        key(100.0),
        key(-100.0),
        key(2.25),
    ];
    histogram.observe_many(&values).unwrap();
    let total: u64 = histogram.counts().iter().sum();
    assert_eq!(total, values.len() as u64);
}

#[test]
fn test_collect() {
    let mut histogram = Histogram::with_boundaries(vec![key(-5.0), key(0.0), key(5.0)]);
    histogram
        .observe_many(&vec![key(1.0), key(1.0), key(-1.0), key(-6.0)])
        .unwrap();
    let buckets = histogram.collect();
    assert_eq!(buckets.len(), 4);
    assert_eq!(buckets[0].lower(), None);
    assert_eq!(buckets[0].upper(), Some(key(-5.0)));
    assert_eq!(buckets[0].count(), 1);
    assert_eq!(buckets[1].lower(), Some(key(-5.0)));
    assert_eq!(buckets[1].upper(), Some(key(0.0)));
    assert_eq!(buckets[1].count(), 1);
    assert_eq!(buckets[2].lower(), Some(key(0.0)));
    assert_eq!(buckets[2].upper(), Some(key(5.0)));
    assert_eq!(buckets[2].count(), 2);
    assert_eq!(buckets[3].lower(), Some(key(5.0)));
    assert_eq!(buckets[3].upper(), None);
    assert_eq!(buckets[3].count(), 0);
}
