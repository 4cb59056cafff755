//! One logical connection: its outcomes, its counters, and the batched
//! progress notifications it emits.
use vstd::prelude::*;

use crate::clock::micros_since;
use crate::settings::ConnectionSettings;
use hyper::Uri;
use std::time::Instant;

verus! {

/// Completions a worker gathers before it notifies the progress consumer.
pub const PROGRESS_BATCH: u64 = 199;

/// The notification that a worker has finished; every other notification is
/// a positive count of completed requests.
pub const WORKER_DONE: u64 = 0;

/// Statuses below this value count as successes.
pub const FIRST_FAILURE_STATUS: u16 = 400;

/// One completed request.
#[derive(Debug, Clone, Copy, PartialEq, Eq, Structural)]
pub struct RequestSummary {
    pub latency_micros: u64,
    pub status_code: u16,
}

pub open spec fn is_success(status_code: u16) -> bool {
    status_code < FIRST_FAILURE_STATUS
}

/// Requests of `s` whose status counts as a success.
pub open spec fn success_count(s: Seq<RequestSummary>) -> nat
    decreases s.len(),
{
    if s.len() == 0 {
        0
    } else {
        success_count(s.drop_last()) + if is_success(s.last().status_code) {
            1nat
        } else {
            0nat
        }
    }
}

/// Requests of `s` whose status counts as a failure.
pub open spec fn fail_count(s: Seq<RequestSummary>) -> nat
    decreases s.len(),
{
    if s.len() == 0 {
        0
    } else {
        fail_count(s.drop_last()) + if is_success(s.last().status_code) {
            0nat
        } else {
            1nat
        }
    }
}

pub proof fn lemma_counts_split(s: Seq<RequestSummary>)
    ensures
        success_count(s) + fail_count(s) == s.len(),
    decreases s.len(),
{
    if s.len() > 0 {
        lemma_counts_split(s.drop_last());
    }
}

proof fn lemma_uniform_statuses(s: Seq<RequestSummary>)
    ensures
        (forall|i: int| 0 <= i < s.len() ==> is_success(#[trigger] s[i].status_code)) ==> (
        success_count(s) == s.len() && fail_count(s) == 0),
        (forall|i: int| 0 <= i < s.len() ==> !is_success(#[trigger] s[i].status_code)) ==> (
        success_count(s) == 0 && fail_count(s) == s.len()),
    decreases s.len(),
{
    if s.len() > 0 {
        let t = s.drop_last();
        lemma_uniform_statuses(t);
        if forall|i: int| 0 <= i < s.len() ==> is_success(#[trigger] s[i].status_code) {
            assert forall|i: int| 0 <= i < t.len() implies is_success(#[trigger] t[i].status_code) by {
                assert(t[i] == s[i]);
            }
            assert(is_success(s[s.len() - 1].status_code));
        }
        if forall|i: int| 0 <= i < s.len() ==> !is_success(#[trigger] s[i].status_code) {
            assert forall|i: int| 0 <= i < t.len() implies !is_success(#[trigger] t[i].status_code) by {
                assert(t[i] == s[i]);
            }
            assert(!is_success(s[s.len() - 1].status_code));
        }
    }
}

/// A connection whose every request got a success status counts all of
/// them as successes and none as failures; one whose every request got a
/// failure status counts all of them as failures and none as successes.
pub proof fn lemma_uniform_summary(s: ConnectionSummary)
    requires
        s.wf(),
    ensures
        (forall|i: int|
            0 <= i < s.request_summaries@.len() ==> is_success(
                #[trigger] s.request_summaries@[i].status_code,
            )) ==> s.success_requests == s.total_requests && s.fail_requests == 0,
        (forall|i: int|
            0 <= i < s.request_summaries@.len() ==> !is_success(
                #[trigger] s.request_summaries@[i].status_code,
            )) ==> s.fail_requests == s.total_requests && s.success_requests == 0,
{
    lemma_uniform_statuses(s.request_summaries@);
}

/// What one connection did: every completed request in completion order, and
/// how many of them succeeded or failed.
#[derive(Debug)]
pub struct ConnectionSummary {
    pub total_requests: u64,
    pub success_requests: u64,
    pub fail_requests: u64,
    pub request_summaries: Vec<RequestSummary>,
}

impl ConnectionSummary {
    /// The counters agree with the recorded requests.
    pub open spec fn wf(&self) -> bool {
        &&& self.total_requests == self.request_summaries@.len()
        &&& self.success_requests == success_count(self.request_summaries@)
        &&& self.fail_requests == fail_count(self.request_summaries@)
    }

    /// A summary of no requests.
    pub fn new() -> (r: ConnectionSummary)
        ensures
            r.wf(),
            r.request_summaries@.len() == 0,
    {
        ConnectionSummary {
            total_requests: 0,
            success_requests: 0,
            fail_requests: 0,
            request_summaries: Vec::new(),
        }
    }

    /// Appends one completed request and counts it.
    pub fn push(&mut self, outcome: RequestSummary)
        requires
            old(self).wf(),
            old(self).total_requests < u64::MAX,
        ensures
            final(self).wf(),
            final(self).request_summaries@ == old(self).request_summaries@.push(outcome),
    {
        let ghost before = self.request_summaries@;
        proof {
            lemma_counts_split(before);
        }
        self.request_summaries.push(outcome);
        assert(self.request_summaries@.drop_last() =~= before);
        self.total_requests = self.total_requests + 1;
        if outcome.status_code < FIRST_FAILURE_STATUS {
            self.success_requests = self.success_requests + 1;
        } else {
            self.fail_requests = self.fail_requests + 1;
        }
    }
}

/// `k` full batches.
pub open spec fn full_batches(k: nat) -> Seq<u64> {
    Seq::new(k, |i: int| PROGRESS_BATCH)
}

/// The notifications of a worker that completes `n` requests, in the order it
/// sends them: full batches, then what is left over if anything is, then the
/// done sentinel.
pub open spec fn progress_messages(n: nat) -> Seq<u64> {
    full_batches(n / PROGRESS_BATCH as nat) + (if n % PROGRESS_BATCH as nat == 0 {
        Seq::<u64>::empty()
    } else {
        seq![(n % PROGRESS_BATCH as nat) as u64]
    }) + seq![WORKER_DONE]
}

/// The decisions of one connection, driven by whoever performs its requests:
/// it records each completed request and says when a progress notification
/// is due.
pub struct ConnectionWorker {
    pub request_count: u64,
    pub pending: u64,
    pub summary: ConnectionSummary,
    /// The notifications handed out so far.
    pub sent: Ghost<Seq<u64>>,
}

impl ConnectionWorker {
    pub open spec fn wf(&self) -> bool {
        &&& self.summary.wf()
        &&& self.summary.total_requests <= self.request_count
        &&& self.pending == self.summary.total_requests % PROGRESS_BATCH
        &&& self.sent@ == full_batches(self.summary.total_requests as nat / PROGRESS_BATCH as nat)
    }

    /// Whether another request is owed.
    pub open spec fn spec_wants_request(&self) -> bool {
        self.summary.total_requests < self.request_count
    }

    /// A worker that owes `settings.requests` requests and has done none.
    pub fn new(settings: &ConnectionSettings) -> (r: ConnectionWorker)
        ensures
            r.wf(),
            r.request_count == settings.requests,
            r.summary.request_summaries@.len() == 0,
    {
        let r = ConnectionWorker {
            request_count: settings.requests,
            pending: 0,
            summary: ConnectionSummary::new(),
            sent: Ghost(Seq::empty()),
        };
        assert(r.sent@ =~= full_batches(0));
        r
    }

    pub fn wants_request(&self) -> (r: bool)
        ensures
            r == self.spec_wants_request(),
    {
        self.summary.total_requests < self.request_count
    }

    /// Records a completed request. Returns the count to notify when a batch
    /// is full.
    pub fn record(&mut self, status_code: u16, latency_micros: u64) -> (msg: Option<u64>)
        requires
            old(self).wf(),
            old(self).spec_wants_request(),
        ensures
            final(self).wf(),
            final(self).request_count == old(self).request_count,
            final(self).summary.request_summaries@ == old(self).summary.request_summaries@.push(
                RequestSummary { latency_micros, status_code },
            ),
            msg == (if (old(self).summary.total_requests + 1) % PROGRESS_BATCH as int == 0 {
                Some(PROGRESS_BATCH)
            } else {
                None::<u64>
            }),
    {
        let ghost k = self.summary.total_requests as nat;
        self.summary.push(RequestSummary { latency_micros, status_code });
        self.pending = self.pending + 1;
        if self.pending >= PROGRESS_BATCH {
            let n = self.pending;
            self.pending = 0;
            proof {
                assert((k + 1) / PROGRESS_BATCH as nat == k / PROGRESS_BATCH as nat + 1);
                self.sent@ = self.sent@.push(n);
                assert(self.sent@ =~= full_batches((k + 1) / PROGRESS_BATCH as nat));
            }
            Some(n)
        } else {
            proof {
                assert((k + 1) / PROGRESS_BATCH as nat == k / PROGRESS_BATCH as nat);
            }
            None
        }
    }

    /// Ends the connection once every owed request is done: returns the last
    /// notifications to send (what is pending, then the done sentinel) and
    /// the summary.
    pub fn finish(self) -> (r: (Vec<u64>, ConnectionSummary))
        requires
            self.wf(),
            !self.spec_wants_request(),
        ensures
            self.sent@ + r.0@ == progress_messages(self.request_count as nat),
            r.1 == self.summary,
            r.1.wf(),
    {
        let mut tail: Vec<u64> = Vec::new();
        if self.pending > 0 {
            tail.push(self.pending);
        }
        tail.push(WORKER_DONE);
        assert(self.sent@ + tail@ =~= progress_messages(self.request_count as nat));
        (tail, self.summary)
    }
}

/// A request could not complete (connection refused, timeout, protocol
/// error).
#[derive(Debug, PartialEq, Eq)]
pub struct TransportError {
    pub message: String,
}

/// Performs one request against a target and reports its status.
pub trait Requester {
    fn get(&mut self, uri: &Uri) -> Result<u16, TransportError>;
}

/// One call made through a requester: where it went and what came back.
pub struct RequestCall {
    pub uri: Uri,
    pub answer: Result<u16, TransportError>,
}

/// A requester together with the record of every call made through it.
pub struct RecordedRequester<R> {
    pub inner: R,
    pub calls: Ghost<Seq<RequestCall>>,
}

impl<R: Requester> RecordedRequester<R> {
    /// Wraps `inner`, with no call recorded yet.
    pub fn new(inner: R) -> (r: RecordedRequester<R>)
        ensures
            r.inner == inner,
            r.calls@ == Seq::<RequestCall>::empty(),
    {
        RecordedRequester { inner, calls: Ghost(Seq::empty()) }
    }

    /// Makes one request through the wrapped requester and records it.
    pub fn get(&mut self, uri: &Uri) -> (r: Result<u16, TransportError>)
        ensures
            final(self).calls@ == old(self).calls@.push(RequestCall { uri: *uri, answer: r }),
    {
        let r = self.inner.get(uri);
        proof {
            self.calls@ = self.calls@.push(RequestCall { uri: *uri, answer: r });
        }
        r
    }
}

/// The calls recorded after the first `from` ones.
pub open spec fn calls_after(calls: Seq<RequestCall>, from: int) -> Seq<RequestCall> {
    calls.subrange(from, calls.len() as int)
}

/// `after` extends the record `before`.
pub open spec fn extends(before: Seq<RequestCall>, after: Seq<RequestCall>) -> bool {
    before.len() <= after.len() && after.subrange(0, before.len() as int) == before
}

/// Every call went to `uri`.
pub open spec fn all_to(calls: Seq<RequestCall>, uri: Uri) -> bool {
    forall|i: int| 0 <= i < calls.len() ==> (#[trigger] calls[i]).uri == uri
}

/// The calls were answered, in order, with the statuses of `outcomes`.
pub open spec fn answered_with(calls: Seq<RequestCall>, outcomes: Seq<RequestSummary>) -> bool {
    &&& calls.len() == outcomes.len()
    &&& forall|i: int|
        0 <= i < calls.len() ==> (#[trigger] calls[i]).answer == Ok::<u16, TransportError>(
            outcomes[i].status_code,
        )
}

/// Every call but the last was answered with a status, and the last failed
/// with `e`.
pub open spec fn failed_last_with(calls: Seq<RequestCall>, e: TransportError) -> bool {
    &&& calls.len() >= 1
    &&& calls.last().answer == Err::<u16, TransportError>(e)
    &&& forall|i: int| 0 <= i < calls.len() - 1 ==> (#[trigger] calls[i]).answer is Ok
}

/// What a connection that owed `requests` requests returned, given the
/// calls `made` it made: either a summary of every request, whose statuses
/// are the answers in order, or the error with which the last call failed,
/// every earlier call having been answered.
pub open spec fn connection_result(
    made: Seq<RequestCall>,
    requests: nat,
    r: Result<ConnectionSummary, TransportError>,
) -> bool {
    match r {
        Ok(s) => {
            &&& s.wf()
            &&& s.request_summaries@.len() == requests
            &&& answered_with(made, s.request_summaries@)
        },
        Err(e) => failed_last_with(made, e) && made.len() <= requests,
    }
}

/// A connection whose requester answered every call with a success status
/// succeeds and counts each of its requests a success and none a failure;
/// one whose requester answered every call with a failure status succeeds
/// and counts each request a failure and none a success.
pub proof fn lemma_connection_uniform_answers(
    made: Seq<RequestCall>,
    requests: nat,
    r: Result<ConnectionSummary, TransportError>,
    success: bool,
)
    requires
        connection_result(made, requests, r),
        forall|i: int|
            0 <= i < made.len() ==> ((#[trigger] made[i]).answer matches Ok(code) && is_success(code)
                == success),
    ensures
        r matches Ok(s) && s.total_requests == requests && if success {
            s.success_requests == requests && s.fail_requests == 0
        } else {
            s.fail_requests == requests && s.success_requests == 0
        },
{
    match r {
        Ok(s) => {
            let o = s.request_summaries@;
            assert forall|i: int| 0 <= i < o.len() implies is_success(#[trigger] o[i].status_code)
                == success by {
                assert(made[i].answer == Ok::<u16, TransportError>(o[i].status_code));
            }
            lemma_uniform_summary(s);
        },
        Err(e) => {
            assert(made[made.len() - 1].answer matches Ok(_));
        },
    }
}

/// A connection whose requester fails every call, and which owes at least one
/// request, makes exactly one call and fails with that call's error.
pub proof fn lemma_connection_failing_requester(
    made: Seq<RequestCall>,
    requests: nat,
    r: Result<ConnectionSummary, TransportError>,
)
    requires
        requests >= 1,
        connection_result(made, requests, r),
        forall|i: int| 0 <= i < made.len() ==> (#[trigger] made[i]).answer is Err,
    ensures
        made.len() == 1,
        r == Err::<ConnectionSummary, TransportError>(made[0].answer->Err_0),
{
    match r {
        Ok(s) => {
            assert(made[0].answer is Err);
        },
        Err(e) => {
            if made.len() > 1 {
                assert(made[0].answer is Ok);
            }
        },
    }
}

/// Runs one connection to completion on the calling thread: issues its
/// requests to the target one after another, timing each, and appends its
/// notifications to `progress`. The first failed request ends the connection
/// with that error, without a done sentinel; the notifications sent until
/// then count only the requests that completed.
pub fn connection_task<R: Requester>(
    client: &mut RecordedRequester<R>,
    progress: &mut Vec<u64>,
    settings: &ConnectionSettings,
) -> (r: Result<ConnectionSummary, TransportError>)
    ensures
        extends(old(client).calls@, final(client).calls@),
        all_to(calls_after(final(client).calls@, old(client).calls@.len() as int), settings.target_uri),
        calls_after(final(client).calls@, old(client).calls@.len() as int).len() <= settings.requests,
        settings.requests == 0 ==> r is Ok,
        connection_result(
            calls_after(final(client).calls@, old(client).calls@.len() as int),
            settings.requests as nat,
            r,
        ),
        r is Ok ==> final(progress)@ == old(progress)@ + progress_messages(
            settings.requests as nat,
        ),
        r is Err ==> final(progress)@ == old(progress)@ + full_batches(
            (calls_after(final(client).calls@, old(client).calls@.len() as int).len() - 1) as nat
                / PROGRESS_BATCH as nat,
        ),
{
    let mut worker = ConnectionWorker::new(settings);
    let ghost start = progress@;
    let ghost before = client.calls@;
    assert(client.calls@.subrange(0, before.len() as int) =~= before);
    assert(calls_after(client.calls@, before.len() as int) =~= Seq::<RequestCall>::empty());
    while worker.wants_request()
        invariant
            worker.wf(),
            worker.request_count == settings.requests,
            progress@ == start + worker.sent@,
            start == old(progress)@,
            before == old(client).calls@,
            extends(before, client.calls@),
            all_to(calls_after(client.calls@, before.len() as int), settings.target_uri),
            answered_with(
                calls_after(client.calls@, before.len() as int),
                worker.summary.request_summaries@,
            ),
        decreases worker.request_count - worker.summary.total_requests,
    {
        let now = Instant::now();
        let ghost calls_before = client.calls@;
        let answer = client.get(&settings.target_uri);
        assert(calls_after(client.calls@, before.len() as int) =~= calls_after(
            calls_before,
            before.len() as int,
        ).push(RequestCall { uri: settings.target_uri, answer }));
        assert(client.calls@.subrange(0, before.len() as int) =~= calls_before.subrange(
            0,
            before.len() as int,
        ));
        let status_code = match answer {
            Ok(code) => code,
            Err(e) => {
                assert(progress@ == start + full_batches(
                    worker.summary.total_requests as nat / PROGRESS_BATCH as nat,
                ));
                return Err(e);
            },
        };
        let latency = micros_since(&now);
        let ghost sent_before = worker.sent@;
        match worker.record(status_code, latency) {
            Some(n) => {
                progress.push(n);
                assert(progress@ =~= start + worker.sent@);
            },
            None => {
                assert(worker.sent@ == sent_before);
            },
        }
    }
    let (tail, summary) = worker.finish();
    let mut i: usize = 0;
    let ghost before_tail = progress@;
    while i < tail.len()
        invariant
            0 <= i <= tail@.len(),
            progress@ == before_tail + tail@.subrange(0, i as int),
        decreases tail@.len() - i,
    {
        progress.push(tail[i]);
        i = i + 1;
        assert(progress@ =~= before_tail + tail@.subrange(0, i as int));
    }
    assert(tail@.subrange(0, tail@.len() as int) =~= tail@);
    assert(progress@ =~= start + progress_messages(settings.requests as nat));
    Ok(summary)
}

} // verus!
