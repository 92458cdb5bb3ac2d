use baseline_llm_os::kcmm::metrics::{bucket_of, LatencyHistogram};

fn avg_us(h: &LatencyHistogram) -> f64 {
    if h.count == 0 {
        0.0
    } else {
        h.sum_us as f64 / h.count as f64
    }
}

#[test]
fn test_latency_histogram_default() {
    let h = LatencyHistogram::default();
    assert_eq!(h.count, 0);
    assert_eq!(h.sum_us, 0);
    assert_eq!(h.min_us, 0);
    assert_eq!(h.max_us, 0);
    assert_eq!(avg_us(&h), 0.0);
    for b in &h.buckets {
        assert_eq!(*b, 0);
    }
}

#[test]
fn test_latency_histogram_single_record() {
    let mut h = LatencyHistogram::default();
    h.record(150);
    assert_eq!(h.count, 1);
    assert_eq!(h.min_us, 150);
    assert_eq!(h.max_us, 150);
    assert_eq!(avg_us(&h), 150.0);
    // 150 falls in bucket [100, 250)
    assert_eq!(h.buckets[1], 1);
    assert_eq!(h.buckets[0], 0);
    assert_eq!(h.buckets[2], 0);
}

#[test]
fn test_latency_histogram_multiple_records() {
    let mut h = LatencyHistogram::default();
    h.record(50); // bucket 0
    h.record(200); // bucket 1
    h.record(400); // bucket 2
    h.record(800); // bucket 3
    h.record(2000); // bucket 4
    h.record(4000); // bucket 5
    h.record(8000); // bucket 6
    h.record(15000); // bucket 7

    assert_eq!(h.count, 8);
    assert_eq!(h.min_us, 50);
    assert_eq!(h.max_us, 15000);
    assert_eq!(h.buckets[0], 1);
    assert_eq!(h.buckets[1], 1);
    assert_eq!(h.buckets[2], 1);
    assert_eq!(h.buckets[3], 1);
    assert_eq!(h.buckets[4], 1);
    assert_eq!(h.buckets[5], 1);
    assert_eq!(h.buckets[6], 1);
    assert_eq!(h.buckets[7], 1);
    assert_eq!(h.buckets[8], 0);
}

#[test]
fn test_latency_histogram_avg() {
    let mut h = LatencyHistogram::default();
    h.record(100);
    h.record(200);
    h.record(300);
    assert_eq!(h.count, 3);
    assert_eq!(h.sum_us, 600);
    assert!((avg_us(&h) - 200.0).abs() < 0.001);
}

#[test]
fn test_latency_histogram_min_max() {
    let mut h = LatencyHistogram::default();
    h.record(500);
    h.record(100);
    h.record(1000);
    assert_eq!(h.min_us, 100);
    assert_eq!(h.max_us, 1000);
}

#[test]
fn test_latency_histogram_boundary() {
    let mut h = LatencyHistogram::default();
    h.record(99); // bucket 0
    h.record(100); // bucket 1 (boundary: 100 is in [100, 250))
    h.record(249); // bucket 1
    h.record(250); // bucket 2
    assert_eq!(h.buckets[0], 1);
    assert_eq!(h.buckets[1], 2);
    assert_eq!(h.buckets[2], 1);
}

#[test]
fn the_longest_latency_overflows() {
    assert_eq!(bucket_of(u64::MAX), 8);
    assert_eq!(bucket_of(u64::MAX - 1), 7);
    assert_eq!(bucket_of(0), 0);
}

#[test]
fn the_order_of_samples_does_not_matter() {
    let mut a = LatencyHistogram::default();
    let mut b = LatencyHistogram::default();
    for x in [700, 20, 20000, 20, 300] {
        a.record(x);
    }
    for x in [20, 300, 20000, 700, 20] {
        b.record(x);
    }
    for h in [&a, &b] {
        assert_eq!((h.count, h.sum_us, h.min_us, h.max_us), (5, 21040, 20, 20000));
        assert_eq!(h.buckets, [2, 0, 1, 1, 0, 0, 0, 1, 0]);
        assert_eq!(h.buckets.iter().sum::<u64>(), h.count);
    }
}
