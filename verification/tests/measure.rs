use mkvhdr10plus::measure::{
    chroma_bilinear_x4, chroma_taps_fit, percentile_from_hist, sample10, FrameMeasurement, HistogramAccum, COARSE_BINS,
    FINE_BINS, MAX_VALUE,
};

#[test]
fn percentile_nearest_rank() {
    // Histogram: 100 samples uniformly spread across indices 0..100.
    let mut hist = vec![0u64; 200];
    for v in hist.iter_mut().take(100) {
        *v = 1;
    }
    let total = 100;
    // Percentiles are given in hundredths of a percent.
    assert_eq!(percentile_from_hist(&hist, total, 5000), 49);
    assert_eq!(percentile_from_hist(&hist, total, 9900), 98);
    assert_eq!(percentile_from_hist(&hist, total, 100), 0);
    // 99.98th of 100 samples -> rank ceil(99.98) = 100 -> last filled bin.
    assert_eq!(percentile_from_hist(&hist, total, 9998), 99);
}

#[test]
fn percentile_empty() {
    let hist = vec![0u64; 10];
    assert_eq!(percentile_from_hist(&hist, 0, 5000), 0);
}

#[test]
fn percentile_unreached_rank_gives_last_bin() {
    // The histogram holds fewer samples than `total` claims.
    let hist = vec![1u64, 1, 0, 0];
    assert_eq!(percentile_from_hist(&hist, 10, 5000), 3);
}

#[test]
fn percentile_above_hundred_counts_as_hundred() {
    let hist = vec![2u64, 0, 3, 0];
    assert_eq!(percentile_from_hist(&hist, 5, 20000), 2);
    assert_eq!(percentile_from_hist(&hist, 5, 10000), 2);
    // Rank is at least 1 even for the 0th percentile.
    assert_eq!(percentile_from_hist(&hist, 5, 0), 0);
}

#[test]
fn percentile_is_monotonic_in_pct() {
    let hist = vec![3u64, 0, 5, 1, 0, 7, 2];
    let total = 18;
    let mut prev = 0;
    for pct in (0..=10000u32).step_by(37) {
        let r = percentile_from_hist(&hist, total, pct);
        assert!(r >= prev);
        prev = r;
    }
}

#[test]
fn sample10_reads_little_endian_ten_bits() {
    let plane = [0x34u8, 0x02, 0xFF, 0xFF];
    assert_eq!(sample10(&plane, 0), 0x234);
    // Only the low ten bits are kept.
    assert_eq!(sample10(&plane, 2), 0x3FF);
    assert_eq!(sample10(&plane, 1), 0x302);
}

fn plane_from_codes(codes: &[u16]) -> Vec<u8> {
    codes.iter().flat_map(|c| c.to_le_bytes()).collect()
}

#[test]
fn chroma_bilinear_even_and_odd_positions() {
    // 2x2 chroma plane, stride 4 bytes.
    let plane = plane_from_codes(&[100, 200, 300, 500]);
    // Even luma coordinates read one chroma sample exactly.
    assert_eq!(chroma_bilinear_x4(&plane, 4, 2, 2, 0, 0), 400);
    assert_eq!(chroma_bilinear_x4(&plane, 4, 2, 2, 2, 2), 2000);
    // Odd x averages horizontally.
    assert_eq!(chroma_bilinear_x4(&plane, 4, 2, 2, 1, 0), 600);
    // Odd x and y average all four neighbours.
    assert_eq!(chroma_bilinear_x4(&plane, 4, 2, 2, 1, 1), 1100);
    // Past the last column the tap is clamped.
    assert_eq!(chroma_bilinear_x4(&plane, 4, 2, 2, 3, 0), 800);
}

#[test]
fn accumulator_records_into_clamped_bins() {
    let mut a = HistogramAccum::new();
    a.record(5, 1);
    a.record(FINE_BINS + 10, COARSE_BINS + 3);
    assert_eq!(a.count(), 2);
    assert_eq!(a.coarse()[1], 1);
    assert_eq!(a.coarse()[COARSE_BINS - 1], 1);
    assert_eq!(a.coarse().iter().sum::<u64>(), 2);
    let d = a.distribution();
    // Two samples: bin 5 and the last fine bin (MAX_VALUE).
    assert_eq!(d[0], 5);
    assert_eq!(d[1], MAX_VALUE);
    assert_eq!(d[4], 5);
    assert_eq!(d[8], MAX_VALUE);
}

#[test]
fn accumulator_merge_is_commutative_and_has_identity() {
    let mut a = HistogramAccum::new();
    a.record(10, 2);
    a.record(20, 3);
    let mut b = HistogramAccum::new();
    b.record(30, 3);

    let mut a2 = HistogramAccum::new();
    a2.record(10, 2);
    a2.record(20, 3);
    let mut b2 = HistogramAccum::new();
    b2.record(30, 3);

    let ab = a.merge(b);
    let ba = b2.merge(a2);
    assert_eq!(ab.count(), 3);
    assert_eq!(ab.count(), ba.count());
    assert_eq!(ab.coarse(), ba.coarse());
    assert_eq!(ab.distribution(), ba.distribution());

    let with_empty = HistogramAccum::new().merge(ab);
    assert_eq!(with_empty.count(), 3);
    assert_eq!(with_empty.coarse()[3], 2);
    assert_eq!(with_empty.distribution(), ba.distribution());
}

#[test]
fn empty_accumulator_has_zero_distribution() {
    let a = HistogramAccum::new();
    assert_eq!(a.count(), 0);
    assert_eq!(a.distribution(), [0; 9]);
}

#[test]
fn empty_measurement_is_all_zero() {
    let m = FrameMeasurement::empty();
    assert_eq!(m.max_scl, [0, 0, 0]);
    assert_eq!(m.average_rgb, 0);
    assert_eq!(m.distribution, [0; 9]);
}

#[test]
fn chroma_taps_fit_checks_all_four_taps() {
    // 2x2 chroma plane of 2-byte samples, stride 4: 8 bytes.
    assert!(chroma_taps_fit(8, 4, 2, 2, 1, 1));
    assert!(chroma_taps_fit(8, 4, 2, 2, 3, 3));
    // One byte short of the last sample.
    assert!(!chroma_taps_fit(7, 4, 2, 2, 1, 1));
    // A stride that overflows the offset never fits.
    assert!(!chroma_taps_fit(8, usize::MAX, 2, 2, 2, 2));
    assert!(!chroma_taps_fit(0, 4, 0, 0, 0, 0));
}
