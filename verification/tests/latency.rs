use archive_viewer::latency::{bucket_of, bucket_range, Latencies, BUCKETS};

fn mean_ms(l: &Latencies) -> f64 {
    l.total_ms() as f64 / l.count() as f64
}

#[test]
fn buckets_partition_the_millisecond_range() {
    assert_eq!(bucket_of(0), 0);
    assert_eq!(bucket_of(1), 1);
    assert_eq!(bucket_of(2), 1);
    assert_eq!(bucket_of(3), 2);
    assert_eq!(bucket_of(1000), 9);
    // Everything past the last edge lands in the overflow bucket.
    assert_eq!(bucket_of(1 << 19), BUCKETS - 1);
    assert_eq!(bucket_of(u64::MAX), BUCKETS - 1);

    // Every bucket's range starts where the previous one ends.
    for index in 1..BUCKETS {
        let (low, _) = bucket_range(index);
        let (_, previous_high) = bucket_range(index - 1);
        assert_eq!(Some(low), previous_high);
    }
}

#[test]
fn reports_exact_counts_and_extremes() {
    let mut l = Latencies::default();
    assert!(l.is_empty());
    assert_eq!(l.percentile_ms(50), None);

    for ms in [5, 100, 7, 3000, 0] {
        l.add(ms);
    }
    assert_eq!(l.count(), 5);
    assert_eq!(l.min_ms(), 0);
    assert_eq!(l.max_ms(), 3000);
    assert_eq!(mean_ms(&l), 3112.0 / 5.0);
}

#[test]
fn a_percentile_never_escapes_what_was_observed() {
    let mut l = Latencies::default();
    for _ in 0..100 {
        l.add(40);
    }
    // One bucket, one value: every percentile is that value.
    assert_eq!(l.percentile_ms(50), Some(40));
    assert_eq!(l.percentile_ms(99), Some(40));
    assert_eq!(l.percentile_ms(0), Some(40));
}

#[test]
fn a_median_lands_in_the_right_bucket() {
    let mut l = Latencies::default();
    for _ in 0..90 {
        l.add(2);
    }
    for _ in 0..10 {
        l.add(5000);
    }
    let median = l.percentile_ms(50).unwrap();
    assert!(
        (1..4).contains(&median),
        "median {median} should be near 2 ms"
    );
    let p95 = l.percentile_ms(95).unwrap();
    assert!(p95 >= 4095, "p95 {p95} should be up in the slow bucket");
}

#[test]
fn merging_preserves_the_totals() {
    let mut a = Latencies::default();
    let mut b = Latencies::default();
    for ms in [1, 2, 3] {
        a.add(ms);
    }
    for ms in [400, 500] {
        b.add(ms);
    }
    let mut merged = a.clone();
    merged.merge(&b);
    assert_eq!(merged.count(), 5);
    assert_eq!(merged.min_ms(), 1);
    assert_eq!(merged.max_ms(), 500);
    assert_eq!(mean_ms(&merged), 906.0 / 5.0);

    // Merging an empty distribution changes nothing.
    let mut untouched = a.clone();
    untouched.merge(&Latencies::default());
    assert_eq!(untouched, a);
}

#[test]
fn the_buckets_add_up_to_the_count() {
    let mut l = Latencies::default();
    for ms in [0, 1, 2, 3, 1000, 1 << 19, u64::MAX] {
        l.add(ms);
    }
    let buckets = l.buckets();
    assert_eq!(buckets.iter().map(|n| *n as u64).sum::<u64>(), l.count());
    assert_eq!(buckets[0], 1);
    assert_eq!(buckets[1], 2);
    assert_eq!(buckets[2], 1);
    assert_eq!(buckets[9], 1);
    assert_eq!(buckets[BUCKETS - 1], 2);
    assert_eq!(l.total_ms(), u64::MAX, "the sum saturates");
}

#[test]
fn a_percentile_interpolates_within_its_bucket() {
    // Four values in 63..127: the second of them sits half way up.
    let mut l = Latencies::default();
    for ms in [64, 70, 80, 126] {
        l.add(ms);
    }
    assert_eq!(l.percentile_ms(50), Some(95));
    assert_eq!(l.percentile_ms(100), Some(126));
}

/// Recording into one of two distributions and merging them is the same as merging
/// first.
#[test]
fn recording_and_merging_commute() {
    let mut a = Latencies::default();
    let mut b = Latencies::default();
    a.add(12);
    b.add(7);
    let mut merged_first = a;
    merged_first.merge(&b);
    merged_first.add(900);
    b.add(900);
    let mut merged_last = a;
    merged_last.merge(&b);
    assert_eq!(merged_first, merged_last);
    assert_eq!(merged_last.count(), 3);
}

#[test]
fn the_order_of_samples_does_not_matter() {
    let samples = [40u64, 3, 0, 90_000, 3, 700];
    let mut forwards = Latencies::default();
    for ms in samples {
        forwards.add(ms);
    }
    let mut backwards = Latencies::default();
    for ms in samples.iter().rev() {
        backwards.add(*ms);
    }
    assert_eq!(forwards, backwards);
    assert_eq!((forwards.count(), forwards.total_ms()), (6, 90_746));
}
