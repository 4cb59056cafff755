use hyper::Uri;
use loadbench::benchmark::BenchmarkResult;
use loadbench::stats::{calculate_statistic, process_result};
use loadbench::worker::RequestSummary;

#[test]
fn identical_latencies_have_no_spread() {
    for k in [1usize, 2, 10, 101] {
        let s = calculate_statistic(200, &vec![7u64; k]);
        assert_eq!(s.requests, k);
        assert_eq!(s.min, 7);
        assert_eq!(s.max, 7);
        assert_eq!(s.sum, 7 * k as u128);
        assert_eq!(s.variance_numerator, Some(0));
        assert_eq!(s.p90, 7);
        assert_eq!(s.p99, 7);
    }
}

#[test]
fn percentiles_use_nearest_rank_on_sorted_data() {
    let mut xs: Vec<u64> = (1..=100).rev().collect();
    xs.swap(3, 70);
    let s = calculate_statistic(500, &xs);
    assert_eq!(s.p90, 91);
    assert_eq!(s.p99, 100);
    assert_eq!(s.min, 1);
    assert_eq!(s.max, 100);
    assert!(s.p90 <= s.p99);

    let s = calculate_statistic(500, &vec![100, 10, 90, 20, 80, 30, 70, 40, 60, 50]);
    assert_eq!(s.p90, 100);
    assert_eq!(s.p99, 100);

    let s = calculate_statistic(500, &vec![40, 10, 30, 20]);
    assert_eq!(s.p90, 40);
    assert_eq!(s.p99, 40);
}

#[test]
fn single_observation_is_every_percentile() {
    let s = calculate_statistic(404, &vec![123]);
    assert_eq!((s.min, s.max, s.p90, s.p99), (123, 123, 123, 123));
    assert_eq!(s.variance_numerator, Some(0));
}

#[test]
fn variance_numerator_is_exact() {
    let s = calculate_statistic(200, &vec![1, 2, 3, 4]);
    assert_eq!(s.sum, 10);
    assert_eq!(s.variance_numerator, Some(20));
    let std = (s.variance_numerator.unwrap() as f64).sqrt() / s.requests as f64;
    assert!((std - 1.118033988749895).abs() < 1e-12);
}

#[test]
fn variance_numerator_absent_when_too_large() {
    let s = calculate_statistic(200, &vec![u64::MAX, u64::MAX, 0]);
    assert_eq!(s.variance_numerator, None);
    assert_eq!(s.sum, 2 * (u64::MAX as u128));
    assert_eq!(s.max, u64::MAX);
    assert_eq!(s.min, 0);
}

#[test]
fn outcomes_are_grouped_by_status() {
    let mut result = BenchmarkResult::new(Uri::from_static("http://h/"));
    let outcomes = [(200u16, 5u64), (500, 9), (200, 1), (404, 4), (200, 3)];
    for (code, latency) in outcomes {
        result.request_summaries.push(RequestSummary { latency_micros: latency, status_code: code });
    }
    let groups = process_result(result);
    let codes: Vec<u16> = groups.iter().map(|g| g.status).collect();
    assert_eq!(codes, vec![200, 500, 404]);
    assert_eq!(groups[0].requests, 3);
    assert_eq!(groups[0].min, 1);
    assert_eq!(groups[0].max, 5);
    assert_eq!(groups[0].sum, 9);
    assert_eq!(groups[1].requests, 1);
    assert_eq!(groups[2].p99, 4);
}

#[test]
fn no_outcomes_no_groups() {
    let result = BenchmarkResult::new(Uri::from_static("http://h/"));
    assert!(process_result(result).is_empty());
}
