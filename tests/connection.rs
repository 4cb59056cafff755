use hyper::Uri;
use loadbench::settings::ConnectionSettings;
use loadbench::worker::{
    connection_task, ConnectionSummary, ConnectionWorker, RecordedRequester, Requester,
    TransportError,
    PROGRESS_BATCH, WORKER_DONE,
};

struct MockHttpClient {
    status: Option<u16>,
}

impl MockHttpClient {
    fn with_status(status: Option<u16>) -> Self {
        Self { status }
    }
}

impl Requester for MockHttpClient {
    fn get(&mut self, _uri: &Uri) -> Result<u16, TransportError> {
        match self.status {
            Some(status) => Ok(status),
            None => Err(TransportError { message: String::from("Test") }),
        }
    }
}

fn mock_conn_settings() -> ConnectionSettings {
    ConnectionSettings { requests: 10, target_uri: Uri::from_static("abc") }
}

fn settings_with(requests: u64) -> ConnectionSettings {
    ConnectionSettings { requests, target_uri: Uri::from_static("abc") }
}

#[test]
fn lib_connection_task_success() {
    let mut progress = Vec::new();
    let result = connection_task(
        &mut RecordedRequester::new(MockHttpClient::with_status(Some(200))),
        &mut progress,
        &mock_conn_settings(),
    )
    .expect("No error");

    assert_eq!(result.total_requests, 10);
    assert_eq!(result.success_requests, 10);
}

#[test]
fn lib_connection_task_fail() {
    let mut progress = Vec::new();
    let result = connection_task(
        &mut RecordedRequester::new(MockHttpClient::with_status(Some(500))),
        &mut progress,
        &mock_conn_settings(),
    )
    .expect("No error");

    assert_eq!(result.total_requests, 10);
    assert_eq!(result.success_requests, 0);
}

#[test]
fn lib_connection_task_error() {
    let mut progress = Vec::new();
    let result = connection_task(
        &mut RecordedRequester::new(MockHttpClient::with_status(None)),
        &mut progress,
        &mock_conn_settings(),
    );
    assert!(result.is_err());
}

#[test]
fn all_success_worker_counts_every_request() {
    let mut progress = Vec::new();
    let s = connection_task(&mut RecordedRequester::new(MockHttpClient::with_status(Some(200))), &mut progress, &settings_with(25))
        .unwrap();
    assert_eq!(s.success_requests, 25);
    assert_eq!(s.fail_requests, 0);
    assert_eq!(s.request_summaries.len(), 25);
    assert!(s.request_summaries.iter().all(|r| r.status_code == 200));
}

#[test]
fn all_failure_worker_counts_every_request_failed() {
    let mut progress = Vec::new();
    let s = connection_task(&mut RecordedRequester::new(MockHttpClient::with_status(Some(500))), &mut progress, &settings_with(25))
        .unwrap();
    assert_eq!(s.success_requests, 0);
    assert_eq!(s.fail_requests, 25);
    assert_eq!(s.request_summaries.len(), 25);
}

#[test]
fn redirect_status_counts_as_success_and_not_found_as_failure() {
    let mut progress = Vec::new();
    let s = connection_task(&mut RecordedRequester::new(MockHttpClient::with_status(Some(399))), &mut progress, &settings_with(3))
        .unwrap();
    assert_eq!(s.success_requests, 3);
    let s = connection_task(&mut RecordedRequester::new(MockHttpClient::with_status(Some(404))), &mut progress, &settings_with(3))
        .unwrap();
    assert_eq!(s.fail_requests, 3);
}

#[test]
fn failing_worker_sends_no_done_sentinel() {
    let mut progress = Vec::new();
    let result = connection_task(&mut RecordedRequester::new(MockHttpClient::with_status(None)), &mut progress, &settings_with(5));
    assert_eq!(result.unwrap_err(), TransportError { message: String::from("Test") });
    assert!(progress.is_empty());
}

struct FailsAfter {
    ok_answers: u64,
    calls: u64,
}

impl Requester for FailsAfter {
    fn get(&mut self, _uri: &Uri) -> Result<u16, TransportError> {
        self.calls += 1;
        if self.calls > self.ok_answers {
            Err(TransportError { message: format!("call {}", self.calls) })
        } else {
            Ok(200)
        }
    }
}

#[test]
fn first_failure_stops_the_connection() {
    let mut progress = Vec::new();
    let mut client = RecordedRequester::new(FailsAfter { ok_answers: 450, calls: 0 });
    let r = connection_task(&mut client, &mut progress, &settings_with(1000));
    assert_eq!(r.unwrap_err(), TransportError { message: String::from("call 451") });
    assert_eq!(client.inner.calls, 451);
    assert_eq!(progress, vec![PROGRESS_BATCH, PROGRESS_BATCH]);

    let mut client = RecordedRequester::new(FailsAfter { ok_answers: 0, calls: 0 });
    let r = connection_task(&mut client, &mut progress, &settings_with(10));
    assert!(r.is_err());
    assert_eq!(client.inner.calls, 1);
}

#[test]
fn worker_notifications_are_batched_then_done() {
    let mut progress = Vec::new();
    connection_task(&mut RecordedRequester::new(MockHttpClient::with_status(Some(200))), &mut progress, &settings_with(10)).unwrap();
    assert_eq!(progress, vec![10, WORKER_DONE]);

    let mut progress = Vec::new();
    connection_task(&mut RecordedRequester::new(MockHttpClient::with_status(Some(200))), &mut progress, &settings_with(400)).unwrap();
    assert_eq!(progress, vec![PROGRESS_BATCH, PROGRESS_BATCH, 2, WORKER_DONE]);

    let mut progress = Vec::new();
    connection_task(&mut RecordedRequester::new(MockHttpClient::with_status(Some(200))), &mut progress, &settings_with(398)).unwrap();
    assert_eq!(progress, vec![PROGRESS_BATCH, PROGRESS_BATCH, WORKER_DONE]);
}

#[test]
fn worker_with_no_requests_only_reports_done() {
    let mut progress = vec![7];
    let s = connection_task(&mut RecordedRequester::new(MockHttpClient::with_status(Some(200))), &mut progress, &settings_with(0)).unwrap();
    assert_eq!(s.total_requests, 0);
    assert_eq!(progress, vec![7, WORKER_DONE]);
}

#[test]
fn worker_state_machine_notifies_on_full_batch() {
    let mut worker = ConnectionWorker::new(&settings_with(200));
    for i in 0..198u64 {
        assert!(worker.wants_request());
        assert_eq!(worker.record(200, i), None);
    }
    assert_eq!(worker.record(503, 5), Some(PROGRESS_BATCH));
    assert!(worker.wants_request());
    assert_eq!(worker.record(200, 1), None);
    assert!(!worker.wants_request());
    let (tail, summary) = worker.finish();
    assert_eq!(tail, vec![1, WORKER_DONE]);
    assert_eq!(summary.total_requests, 200);
    assert_eq!(summary.success_requests, 199);
    assert_eq!(summary.fail_requests, 1);
    assert_eq!(summary.request_summaries[198].status_code, 503);
    assert_eq!(summary.request_summaries[198].latency_micros, 5);
}

#[test]
fn new_summary_is_empty() {
    let s = ConnectionSummary::new();
    assert_eq!(s.total_requests, 0);
    assert_eq!(s.success_requests, 0);
    assert_eq!(s.fail_requests, 0);
    assert!(s.request_summaries.is_empty());
}
