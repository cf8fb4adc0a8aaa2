//! Histogram binning over the observed range, in fixed-point millionths.

use ips_core::histogram::Histogram;

#[test]
fn histogram_test() {
    let mut histogram = Histogram::default();

    histogram.add(100_000); // 0.1
    histogram.add(600_000); // 0.6
    histogram.add(700_000); // 0.7
    histogram.add(17_200_000); // 17.2
    histogram.add(117_300_000); // 117.3
    histogram.add(117_400_000); // 117.4
    histogram.add(117_500_000); // 117.5
    histogram.add(255_500_000); // 255.5
    histogram.add(255_600_000); // 255.6
    histogram.add(255_700_000); // 255.7
    histogram.add(255_800_000); // 255.8
    let (counts, max_count) = histogram.compute(256);
    assert_eq!(counts.len(), 256);
    assert_eq!(max_count, 4);
    assert_eq!(counts[16], 0);
    assert_eq!(counts[17], 1);
    assert_eq!(counts[18], 0);
    assert_eq!(counts[116], 0);
    assert_eq!(counts[117], 3);
}

#[test]
fn histogram_zero_delta_test() {
    let mut histogram = Histogram::default();
    let (counts, max_count) = histogram.compute(256);
    assert_eq!(counts.len(), 256);
    assert_eq!(max_count, 0);

    histogram.add(4_600_000); // 4.6
    histogram.add(4_600_000);
    histogram.add(4_600_000);
    histogram.add(4_600_000);
    let (counts, max_count) = histogram.compute(256);
    assert_eq!(counts.len(), 256);
    assert_eq!(max_count, 0);
    assert_eq!(counts[16], 0);
    assert_eq!(counts[116], 0);
    assert_eq!(counts[216], 0);
}
