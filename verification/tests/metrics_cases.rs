use rust_http_proxy::metrics::{benchmark_url, format_latency, BenchmarkStats, RequestRecord};

#[test]
fn test_average_latency() {
    let mut stats = BenchmarkStats::default();
    stats.record_success(10);
    stats.record_success(20);
    stats.record_success(30);
    let average = stats.total_latency().unwrap() as f64 / stats.latencies_ms.len() as f64;
    assert_eq!(average, 20.0);
}

#[test]
fn test_p95_latency() {
    let mut stats = BenchmarkStats::default();
    for i in 1..=100 {
        stats.record_success(i as u128);
    }
    assert_eq!(stats.p95_latency(), 95);
}

#[test]
fn test_failed_requests() {
    let mut stats = BenchmarkStats::default();
    stats.record_success(50);
    stats.record_failure();
    assert_eq!(stats.total_requests, 2);
    assert_eq!(stats.failed, 1);
}

#[test]
fn p95_of_unsorted_latencies() {
    let mut stats = BenchmarkStats::default();
    for v in [30, 10, 20] {
        stats.record_success(v);
    }
    assert_eq!(stats.p95_latency(), 30);
    let mut stats = BenchmarkStats::default();
    for v in (1..=20).rev() {
        stats.record_success(v);
    }
    assert_eq!(stats.p95_latency(), 19);
    let mut stats = BenchmarkStats::default();
    stats.record_success(7);
    assert_eq!(stats.p95_latency(), 7);
}

#[test]
fn p95_of_no_latency_is_zero() {
    assert_eq!(BenchmarkStats::default().p95_latency(), 0);
}

#[test]
fn p95_lies_between_min_and_max() {
    let mut stats = BenchmarkStats::default();
    for v in [500, 3, 77, 77, 12, 9000, 41] {
        stats.record_success(v);
    }
    let p95 = stats.p95_latency();
    assert!(stats.min_latency() <= p95 && p95 <= stats.max_latency());
    assert!(stats.latencies_ms.contains(&p95));
    assert_eq!(p95, 9000);
}

#[test]
fn counters_stay_consistent() {
    let mut stats = BenchmarkStats::default();
    stats.record_failure();
    stats.record_success(5);
    stats.record_failure();
    assert_eq!(stats.total_requests, stats.successful + stats.failed);
    assert_eq!(stats.successful, stats.latencies_ms.len());
    assert_eq!(stats.latencies_ms, vec![5]);
}

#[test]
fn total_latency_reports_overflow() {
    let mut stats = BenchmarkStats::default();
    stats.record_success(u128::MAX);
    assert_eq!(stats.total_latency(), Some(u128::MAX));
    stats.record_success(1);
    assert_eq!(stats.total_latency(), None);
    assert_eq!(BenchmarkStats::default().total_latency(), Some(0));
}

#[test]
fn latency_labels() {
    assert_eq!(format_latency(0), "0ms ✅ fast");
    assert_eq!(format_latency(49), "49ms ✅ fast");
    assert_eq!(format_latency(50), "50ms ⚡ ok");
    assert_eq!(format_latency(199), "199ms ⚡ ok");
    assert_eq!(format_latency(200), "200ms ⚠️  slow");
    assert_eq!(format_latency(1234567), "1234567ms ⚠️  slow");
}

#[test]
fn log_line_text() {
    let record = RequestRecord {
        method: "GET".into(),
        path: "/test".into(),
        latency_ms: 15,
        timestamp: "2024-01-01T00:00:00".into(),
    };
    assert_eq!(record.log_line(), "  ↳ GET /test — 15ms ✅ fast [2024-01-01T00:00:00]");
}

#[test]
fn benchmark_url_drops_trailing_slashes() {
    assert_eq!(benchmark_url("https://httpbin.org"), "https://httpbin.org/get");
    assert_eq!(benchmark_url("https://httpbin.org//"), "https://httpbin.org/get");
}

#[test]
fn p95_ignores_recording_order_and_covers_95_percent() {
    let values: Vec<u128> = (0..57).map(|i| (i * 37 % 101) as u128).collect();
    let mut forward = BenchmarkStats::default();
    let mut backward = BenchmarkStats::default();
    for v in &values {
        forward.record_success(*v);
    }
    for v in values.iter().rev() {
        backward.record_success(*v);
    }
    let p = forward.p95_latency();
    assert_eq!(p, backward.p95_latency());
    let covered = values.iter().filter(|&&x| x <= p).count();
    assert!(100 * covered >= 95 * values.len());
}
