use archive_viewer::histogram::{Histogram, MAX_BINS, MIN_BIN_MS};

/// No test here adds a kind past this one.
const KINDS: u16 = 32;

fn total_of(histogram: &Histogram) -> u64 {
    (0..KINDS)
        .map(|k| histogram.series(k).iter().sum::<u64>())
        .sum()
}

#[test]
fn counts_land_in_the_right_bin() {
    let mut histogram = Histogram::new();
    histogram.add(1_000, 0);
    histogram.add(1_050, 0);
    histogram.add(1_100, 1);

    assert_eq!(histogram.bin_ms(), MIN_BIN_MS);
    assert_eq!(histogram.series(0)[0], 2);
    assert_eq!(histogram.series(1)[1], 1);
    assert_eq!(total_of(&histogram), 3);
}

#[test]
fn an_unseen_kind_has_an_empty_series() {
    let mut histogram = Histogram::new();
    histogram.add(1_000, 3);
    assert_eq!(histogram.series(9), &[] as &[u64]);
    // Kinds below the highest seen exist but are all zero.
    assert_eq!(histogram.series(0).iter().sum::<u64>(), 0);
    assert_eq!(histogram.series(0).len(), histogram.bins());
}

/// Coarsening must never lose or duplicate an event.
#[test]
fn coarsening_preserves_every_count() {
    let mut histogram = Histogram::new();
    let count = 200_000u64;
    for i in 0..count {
        histogram.add(1_700_000_000_000 + i * 3, (i % 8) as u16);
    }

    assert!(histogram.bin_ms() > MIN_BIN_MS, "must have coarsened");
    assert!(histogram.bins() <= MAX_BINS);
    assert_eq!(total_of(&histogram), count);
    assert_eq!(histogram.total(), count);
    for kind in 0..8u16 {
        assert_eq!(histogram.series(kind).iter().sum::<u64>(), count / 8);
    }
}

/// Every event must remain findable in the bin its timestamp maps to. This
/// is what the coarsening alignment gets wrong if `start_ms` is re-aligned.
#[test]
fn events_stay_in_the_bin_their_timestamp_maps_to() {
    let mut histogram = Histogram::new();
    let times: Vec<u64> = (0..50_000u64).map(|i| 1_700_000_000_000 + i * 37).collect();
    for (i, t) in times.iter().enumerate() {
        histogram.add(*t, (i % 3) as u16);
    }
    assert!(histogram.bin_ms() > MIN_BIN_MS, "must have coarsened");

    // Recount independently and compare bin for bin.
    let mut expected = vec![vec![0u64; histogram.bins()]; 3];
    for (i, t) in times.iter().enumerate() {
        let bin = ((t - histogram.start_ms()) / histogram.bin_ms()) as usize;
        assert!(
            bin < histogram.bins(),
            "timestamp {t} maps outside the histogram"
        );
        expected[i % 3][bin] += 1;
    }
    for kind in 0..3u16 {
        assert_eq!(histogram.series(kind), expected[kind as usize].as_slice());
    }
}

/// Extractors are independent, so a later event can carry an earlier
/// timestamp. Those must extend the range, not be dropped or misplaced.
#[test]
fn out_of_order_timestamps_extend_backwards() {
    let mut histogram = Histogram::new();
    histogram.add(10_000, 0);
    histogram.add(5_000, 1);
    histogram.add(10_000, 0);

    assert_eq!(total_of(&histogram), 3);
    assert!(histogram.start_ms() <= 5_000);
    let bin = ((5_000 - histogram.start_ms()) / histogram.bin_ms()) as usize;
    assert_eq!(histogram.series(1)[bin], 1);
    let bin = ((10_000 - histogram.start_ms()) / histogram.bin_ms()) as usize;
    assert_eq!(histogram.series(0)[bin], 2);
}

/// A single event far in the past forces repeated coarsening; it must still
/// land in the right bin afterwards.
#[test]
fn a_very_wide_range_stays_bounded_and_correct() {
    let mut histogram = Histogram::new();
    histogram.add(30_000_000_000, 0);
    histogram.add(0, 1);

    assert!(histogram.bins() <= MAX_BINS);
    assert_eq!(total_of(&histogram), 2);
    let bin = ((30_000_000_000 - histogram.start_ms()) / histogram.bin_ms()) as usize;
    assert_eq!(histogram.series(0)[bin], 1);
    assert_eq!(histogram.series(1)[0], 1);
}

/// A malformed event can carry a timestamp at the epoch while the rest of
/// the archive is recent. That must not underflow `start_ms`: in a release
/// wasm build the wrap becomes an enormous allocation and aborts the module.
#[test]
fn an_epoch_timestamp_among_recent_ones_is_counted_not_fatal() {
    let mut histogram = Histogram::new();
    for i in 0..1_000u64 {
        histogram.add(1_788_000_000_000 + i * 250, 0);
    }
    histogram.add(0, 1);
    histogram.add(1, 1);

    assert_eq!(histogram.total(), 1_002);
    assert_eq!(total_of(&histogram), 1_002, "no event is lost");
    assert!(histogram.bins() <= MAX_BINS);
    assert_eq!(histogram.series(1).iter().sum::<u64>(), 2);
}

#[test]
fn every_series_has_the_same_length() {
    let mut histogram = Histogram::new();
    for i in 0..20_000u64 {
        histogram.add(1_700_000_000_000 + i * 11, (i % 17) as u16);
    }
    for kind in 0..17u16 {
        assert_eq!(
            histogram.series(kind).len(),
            histogram.bins(),
            "kind {kind}"
        );
    }
}

#[test]
fn a_histogram_starts_empty() {
    let histogram = Histogram::new();
    assert!(histogram.is_empty());
    assert_eq!(histogram.total(), 0);
    assert_eq!(histogram.bins(), 0);
    assert_eq!(histogram.bin_ms(), MIN_BIN_MS);
}

#[test]
fn the_whole_range_of_timestamps_fits() {
    let mut histogram = Histogram::new();
    histogram.add(u64::MAX, 0);
    histogram.add(0, 0);
    histogram.add(u64::MAX, 1);
    assert_eq!(histogram.total(), 3);
    assert_eq!(total_of(&histogram), 3);
    assert!(histogram.bins() <= MAX_BINS);
}

/// The last millisecond that the bins reach at their finest, and the next bin.
#[test]
fn bins_double_only_when_the_events_outgrow_them() {
    let mut histogram = Histogram::new();
    histogram.add(1_000, 0);
    histogram.add(1_000 + 409_500, 0);
    assert_eq!(histogram.bin_ms(), MIN_BIN_MS);
    assert_eq!(histogram.bins(), MAX_BINS);

    histogram.add(1_000 + 409_600, 0);
    assert_eq!(histogram.bin_ms(), 2 * MIN_BIN_MS);
    histogram.add(1_500, 1);
    assert_eq!(histogram.bin_ms(), 2 * MIN_BIN_MS, "it never shrinks");
    assert_eq!(total_of(&histogram), 4);
}
