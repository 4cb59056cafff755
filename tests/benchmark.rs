use hyper::Uri;
use loadbench::benchmark::{plan_connections, run, BenchmarkError, BenchmarkResult};
use loadbench::progress::{BenchmarkStats, ProgressTracker, RecordedStats};
use loadbench::settings::BenchmarkSettings;
use loadbench::stats::process_result;
use loadbench::worker::{
    ConnectionSummary, RecordedRequester, RequestSummary, Requester, TransportError, WORKER_DONE,
};
use std::cell::{Cell, RefCell};

struct CountingStats {
    updates: RefCell<Vec<u64>>,
    finished: Cell<u32>,
}

impl CountingStats {
    fn new() -> Self {
        CountingStats { updates: RefCell::new(Vec::new()), finished: Cell::new(0) }
    }
}

impl BenchmarkStats for CountingStats {
    fn update(&self, n: u64) {
        self.updates.borrow_mut().push(n);
    }

    fn finish(&self) {
        self.finished.set(self.finished.get() + 1);
    }
}

/// Answers 200, 200, 200, 500, then again from the start.
struct CyclingRequester {
    calls: u64,
}

impl Requester for CyclingRequester {
    fn get(&mut self, _uri: &Uri) -> Result<u16, TransportError> {
        let code = if self.calls % 4 == 3 { 500 } else { 200 };
        self.calls += 1;
        Ok(code)
    }
}

struct FixedRequester(Option<u16>);

impl Requester for FixedRequester {
    fn get(&mut self, _uri: &Uri) -> Result<u16, TransportError> {
        self.0.ok_or(TransportError { message: String::from("refused") })
    }
}

fn settings(connections: u16, requests: u64) -> BenchmarkSettings {
    BenchmarkSettings { connections, requests, target_uri: Uri::from_static("http://localhost/x") }
}

#[test]
fn issued_requests_are_the_rounded_down_share() {
    for (c, t) in [(1u16, 0u64), (1, 7), (3, 10), (4, 40), (7, 6), (5, 1000)] {
        let mut stats = RecordedStats::new(CountingStats::new());
        let result = run(&mut stats, &mut RecordedRequester::new(FixedRequester(Some(200))), settings(c, t)).unwrap();
        let expected = (c as u64) * (t / c as u64);
        assert_eq!(result.request_summaries.len() as u64, expected);
        assert!(expected <= t);
    }
}

#[test]
fn zero_connections_are_invalid() {
    let mut stats = RecordedStats::new(CountingStats::new());
    let r = run(&mut stats, &mut RecordedRequester::new(FixedRequester(Some(200))), settings(0, 10));
    assert_eq!(r.unwrap_err(), BenchmarkError::InvalidSettings);
    assert_eq!(stats.inner.finished.get(), 0);
    assert!(plan_connections(&settings(0, 10)).is_err());
    assert_eq!(plan_connections(&settings(3, 10)).unwrap().requests, 3);
}

#[test]
fn transport_error_ends_the_run() {
    let mut stats = RecordedStats::new(CountingStats::new());
    let r = run(&mut stats, &mut RecordedRequester::new(FixedRequester(None)), settings(2, 10));
    assert_eq!(
        r.unwrap_err(),
        BenchmarkError::Transport(TransportError { message: String::from("refused") })
    );
    assert_eq!(stats.inner.finished.get(), 0);
}

#[test]
fn four_connections_cycling_statuses() {
    let mut stats = RecordedStats::new(CountingStats::new());
    let result = run(&mut stats, &mut RecordedRequester::new(CyclingRequester { calls: 0 }), settings(4, 40)).unwrap();
    assert_eq!(result.request_summaries.len(), 40);
    assert_eq!(stats.inner.finished.get(), 1);
    let groups = process_result(result);
    assert_eq!(groups.len(), 2);
    let ok = groups.iter().find(|g| g.status == 200).unwrap();
    let failed = groups.iter().find(|g| g.status == 500).unwrap();
    assert_eq!(ok.requests, 30);
    assert_eq!(failed.requests, 10);
    assert!(failed.min <= failed.max);
    assert!(failed.variance_numerator.is_some());
    let mean = failed.sum as f64 / failed.requests as f64;
    assert!(mean >= failed.min as f64 && mean <= failed.max as f64);
}

#[test]
fn progress_reports_every_request_and_each_done_connection() {
    for (c, t) in [(1u16, 0u64), (3, 10), (4, 40), (2, 1000), (5, 999)] {
        let mut stats = RecordedStats::new(CountingStats::new());
        run(&mut stats, &mut RecordedRequester::new(FixedRequester(Some(200))), settings(c, t)).unwrap();
        let reported: u64 = stats.inner.updates.borrow().iter().sum();
        assert_eq!(reported, (c as u64) * (t / c as u64));
        assert!(stats.inner.updates.borrow().iter().all(|n| *n > 0));
        assert_eq!(stats.inner.finished.get(), 1);
    }
}

#[test]
fn fewer_requests_than_connections_succeed_without_requests() {
    let mut stats = RecordedStats::new(CountingStats::new());
    let result = run(&mut stats, &mut RecordedRequester::new(FixedRequester(None)), settings(5, 4)).unwrap();
    assert!(result.request_summaries.is_empty());
    assert!(stats.inner.updates.borrow().is_empty());
    assert_eq!(stats.inner.finished.get(), 1);
}

#[test]
fn every_request_goes_to_the_target() {
    struct Checking(u32);
    impl Requester for Checking {
        fn get(&mut self, uri: &Uri) -> Result<u16, TransportError> {
            assert_eq!(uri, &Uri::from_static("http://localhost/x"));
            self.0 += 1;
            Ok(200)
        }
    }
    let mut stats = RecordedStats::new(CountingStats::new());
    let mut client = RecordedRequester::new(Checking(0));
    run(&mut stats, &mut client, settings(3, 11)).unwrap();
    assert_eq!(client.inner.0, 9);
}

#[test]
fn tracker_counts_done_sentinels_in_any_order() {
    let mut tracker = ProgressTracker::new(2);
    assert!(!tracker.is_done());
    assert_eq!(tracker.receive(5), Some(5));
    assert_eq!(tracker.receive(WORKER_DONE), None);
    assert!(!tracker.is_done());
    assert_eq!(tracker.receive(3), Some(3));
    assert_eq!(tracker.receive(WORKER_DONE), None);
    assert!(tracker.is_done());
    assert_eq!(tracker.finished, 2);
}

#[test]
fn combined_outcomes_keep_connection_order() {
    let mut result = BenchmarkResult::new(Uri::from_static("http://h/p"));
    assert_eq!(result.total_time_micros, 0);
    let mut a = ConnectionSummary::new();
    a.push(RequestSummary { latency_micros: 1, status_code: 200 });
    a.push(RequestSummary { latency_micros: 2, status_code: 500 });
    let mut b = ConnectionSummary::new();
    b.push(RequestSummary { latency_micros: 3, status_code: 404 });
    result.combine_conn_summaries(vec![a, ConnectionSummary::new(), b]);
    let latencies: Vec<u64> = result.request_summaries.iter().map(|r| r.latency_micros).collect();
    assert_eq!(latencies, vec![1, 2, 3]);
    assert_eq!(result.target_uri, Uri::from_static("http://h/p"));
}
