//! The coordinator: splits the work, runs the connections, drains their
//! progress notifications, and gathers every outcome of a run.
use vstd::prelude::*;

use crate::clock::micros_since;
use crate::progress::{
    lemma_run_messages, lemma_run_messages_prefix, positive_updates, reported_total,
    reports_after, run_messages, updated_total, BenchmarkStats, ProgressReport, ProgressTracker,
    RecordedStats,
};
use crate::settings::{issued_total, share_of, BenchmarkSettings, ConnectionSettings};
use crate::worker::{
    all_to, answered_with, calls_after, connection_task, extends, failed_last_with,
    ConnectionSummary, RecordedRequester, RequestCall, RequestSummary, Requester, TransportError,
};
use hyper::Uri;
use std::time::Instant;

verus! {

/// Every outcome of the summaries of `s`, connection after connection.
pub open spec fn all_outcomes(s: Seq<ConnectionSummary>) -> Seq<RequestSummary>
    decreases s.len(),
{
    if s.len() == 0 {
        Seq::empty()
    } else {
        all_outcomes(s.drop_last()) + s.last().request_summaries@
    }
}

/// What a run produced: its target, the wall time it took in microseconds,
/// and the outcome of every request it issued.
#[derive(Debug)]
pub struct BenchmarkResult {
    pub target_uri: Uri,
    pub total_time_micros: u64,
    pub request_summaries: Vec<RequestSummary>,
}

impl BenchmarkResult {
    /// A result for `target_uri` with no time and no outcomes yet.
    pub fn new(target_uri: Uri) -> (r: BenchmarkResult)
        ensures
            r.target_uri == target_uri,
            r.total_time_micros == 0,
            r.request_summaries@.len() == 0,
    {
        BenchmarkResult { target_uri, total_time_micros: 0, request_summaries: Vec::new() }
    }

    /// Appends the outcomes of each connection, in the order given.
    pub fn combine_conn_summaries(&mut self, conn_summaries: Vec<ConnectionSummary>)
        ensures
            final(self).request_summaries@ == old(self).request_summaries@ + all_outcomes(
                conn_summaries@,
            ),
            final(self).target_uri == old(self).target_uri,
            final(self).total_time_micros == old(self).total_time_micros,
    {
        let ghost start = self.request_summaries@;
        let mut i: usize = 0;
        while i < conn_summaries.len()
            invariant
                0 <= i <= conn_summaries@.len(),
                self.request_summaries@ == start + all_outcomes(conn_summaries@.subrange(0, i as int)),
                self.target_uri == old(self).target_uri,
                self.total_time_micros == old(self).total_time_micros,
            decreases conn_summaries@.len() - i,
        {
            let outcomes = &conn_summaries[i].request_summaries;
            let ghost before = self.request_summaries@;
            let mut j: usize = 0;
            while j < outcomes.len()
                invariant
                    0 <= j <= outcomes@.len(),
                    self.request_summaries@ == before + outcomes@.subrange(0, j as int),
                    self.target_uri == old(self).target_uri,
                    self.total_time_micros == old(self).total_time_micros,
                decreases outcomes@.len() - j,
            {
                self.request_summaries.push(outcomes[j]);
                j = j + 1;
                assert(self.request_summaries@ =~= before + outcomes@.subrange(0, j as int));
            }
            assert(outcomes@.subrange(0, j as int) =~= outcomes@);
            assert(conn_summaries@.subrange(0, i + 1).drop_last() =~= conn_summaries@.subrange(
                0,
                i as int,
            ));
            i = i + 1;
            assert(self.request_summaries@ =~= start + all_outcomes(
                conn_summaries@.subrange(0, i as int),
            ));
        }
        assert(conn_summaries@.subrange(0, i as int) =~= conn_summaries@);
    }
}

/// Why a run ended without a result.
#[derive(Debug, PartialEq, Eq)]
pub enum BenchmarkError {
    /// The settings ask for no connection.
    InvalidSettings,
    /// A request could not complete.
    Transport(TransportError),
    /// The runtime could not run a connection.
    TaskFailure(String),
}

/// Outcomes of summaries that each hold `n` of them.
pub proof fn lemma_all_outcomes_len(s: Seq<ConnectionSummary>, n: nat)
    requires
        forall|i: int| 0 <= i < s.len() ==> (#[trigger] s[i]).request_summaries@.len() == n,
    ensures
        all_outcomes(s).len() == s.len() * n,
    decreases s.len(),
{
    if s.len() > 0 {
        let t = s.drop_last();
        assert forall|i: int| 0 <= i < t.len() implies (#[trigger] t[i]).request_summaries@.len()
            == n by {
            assert(t[i] == s[i]);
        }
        lemma_all_outcomes_len(t, n);
        assert(s.len() * n == t.len() * n + n) by (nonlinear_arith)
            requires
                s.len() == t.len() + 1,
        ;
    }
}

/// The share of each connection, or `InvalidSettings` where there is no
/// connection to share the work.
pub fn plan_connections(settings: &BenchmarkSettings) -> (r: Result<
    ConnectionSettings,
    BenchmarkError,
>)
    ensures
        settings.connections == 0 <==> r == Err::<ConnectionSettings, BenchmarkError>(
            BenchmarkError::InvalidSettings,
        ),
        r is Ok || settings.connections == 0,
        r matches Ok(c) ==> c.requests == share_of(
            settings.requests as nat,
            settings.connections as nat,
        ) && c.target_uri == settings.target_uri,
{
    if settings.connections == 0 {
        Err(BenchmarkError::InvalidSettings)
    } else {
        Ok(ConnectionSettings::from(settings))
    }
}

proof fn lemma_answered_concat(
    a: Seq<RequestCall>,
    x: Seq<RequestSummary>,
    b: Seq<RequestCall>,
    y: Seq<RequestSummary>,
)
    requires
        answered_with(a, x),
        answered_with(b, y),
    ensures
        answered_with(a + b, x + y),
{
    assert forall|i: int| 0 <= i < (a + b).len() implies (#[trigger] (a + b)[i]).answer == Ok::<
        u16,
        TransportError,
    >((x + y)[i].status_code) by {
        if i >= a.len() {
            assert(b[i - a.len()].answer == Ok::<u16, TransportError>(y[i - a.len()].status_code));
        }
    }
}

/// What a run that owed `issued` requests returned, given the calls `made`
/// through its requester: either every outcome, whose statuses are the
/// answers in order, or a transport error with which the last call failed,
/// every earlier call having been answered.
pub open spec fn run_result(
    made: Seq<RequestCall>,
    issued: nat,
    r: Result<BenchmarkResult, BenchmarkError>,
) -> bool {
    match r {
        Ok(res) => res.request_summaries@.len() == issued && answered_with(
            made,
            res.request_summaries@,
        ),
        Err(BenchmarkError::Transport(e)) => failed_last_with(made, e),
        Err(BenchmarkError::InvalidSettings) => made.len() == 0,
        Err(BenchmarkError::TaskFailure(_)) => false,
    }
}

/// A run with at least one connection, whose requester answered every call
/// with a status, succeeds; it holds `connections * (requests /
/// connections)` outcomes, never more than `requests`, whose statuses are the
/// answers in order.
pub proof fn lemma_run_all_answered(
    made: Seq<RequestCall>,
    connections: nat,
    requests: nat,
    r: Result<BenchmarkResult, BenchmarkError>,
)
    requires
        connections >= 1,
        run_result(made, issued_total(requests, connections), r),
        r != Err::<BenchmarkResult, BenchmarkError>(BenchmarkError::InvalidSettings),
        forall|i: int| 0 <= i < made.len() ==> (#[trigger] made[i]).answer is Ok,
    ensures
        r matches Ok(res) && res.request_summaries@.len() == connections * (requests / connections)
            && res.request_summaries@.len() <= requests,
        r matches Ok(res) ==> forall|i: int|
            0 <= i < made.len() ==> (#[trigger] made[i]).answer == Ok::<u16, TransportError>(
                res.request_summaries@[i].status_code,
            ),
{
    crate::settings::lemma_issued_within_budget(requests, connections);
    match r {
        Err(BenchmarkError::Transport(e)) => {
            assert(made[made.len() - 1].answer is Ok);
        },
        _ => {},
    }
}

/// Runs a whole benchmark on the calling thread, one connection after
/// another, all of them issuing their requests to the target through
/// `client`. Then drains the notifications into `process`, gathers the
/// outcomes and calls `finish`. The first failed request ends the run with
/// its error, no result, and no call to `process`.
pub fn run<R: Requester, S: BenchmarkStats>(
    process: &mut RecordedStats<S>,
    client: &mut RecordedRequester<R>,
    benchmark_settings: BenchmarkSettings,
) -> (r: Result<BenchmarkResult, BenchmarkError>)
    ensures
        benchmark_settings.connections == 0 <==> r == Err::<BenchmarkResult, BenchmarkError>(
            BenchmarkError::InvalidSettings,
        ),
        benchmark_settings.connections >= 1 && (benchmark_settings.requests as nat) < (
        benchmark_settings.connections as nat) ==> r is Ok,
        extends(old(client).calls@, final(client).calls@),
        all_to(
            calls_after(final(client).calls@, old(client).calls@.len() as int),
            benchmark_settings.target_uri,
        ),
        calls_after(final(client).calls@, old(client).calls@.len() as int).len() <= issued_total(
            benchmark_settings.requests as nat,
            benchmark_settings.connections as nat,
        ),
        run_result(
            calls_after(final(client).calls@, old(client).calls@.len() as int),
            issued_total(benchmark_settings.requests as nat, benchmark_settings.connections as nat),
            r,
        ),
        r matches Ok(res) ==> {
            let reports = reports_after(final(process).reports@, old(process).reports@.len() as int);
            &&& res.target_uri == benchmark_settings.target_uri
            &&& final(process).reports@.subrange(0, old(process).reports@.len() as int)
                == old(process).reports@
            &&& reports.len() >= 1
            &&& reports.last() == ProgressReport::Finish
            &&& positive_updates(reports.drop_last())
            &&& updated_total(reports) == issued_total(
                benchmark_settings.requests as nat,
                benchmark_settings.connections as nat,
            )
        },
        r matches Err(e) ==> final(process).reports@ == old(process).reports@,
{
    let ghost before = client.calls@;
    let ghost target = benchmark_settings.target_uri;
    let ghost total = benchmark_settings.requests as nat;
    let conn_settings = match plan_connections(&benchmark_settings) {
        Ok(c) => c,
        Err(e) => {
            assert(calls_after(client.calls@, before.len() as int) =~= Seq::<RequestCall>::empty());
            assert(client.calls@.subrange(0, before.len() as int) =~= before);
            return Err(e);
        },
    };
    let ghost share = conn_settings.requests as nat;
    let connections = benchmark_settings.connections;
    proof {
        if total < connections as nat {
            vstd::arithmetic::div_mod::lemma_basic_div(total as int, connections as int);
        }
    }
    let mut result = BenchmarkResult::new(benchmark_settings.target_uri);
    let now = Instant::now();
    let mut progress: Vec<u64> = Vec::new();
    let mut conn_summaries: Vec<ConnectionSummary> = Vec::new();
    let mut c: u16 = 0;
    assert(calls_after(client.calls@, before.len() as int) =~= Seq::<RequestCall>::empty());
    assert(client.calls@.subrange(0, before.len() as int) =~= before);
    assert(all_outcomes(conn_summaries@) =~= Seq::<RequestSummary>::empty());
    while c < connections
        invariant
            0 <= c <= connections,
            connections >= 1,
            connections == benchmark_settings.connections,
            conn_settings.requests == share,
            conn_settings.target_uri == target,
            target == benchmark_settings.target_uri,
            total == benchmark_settings.requests,
            share == share_of(total, connections as nat),
            total < connections ==> share == 0,
            result.target_uri == target,
            progress@ == run_messages(c as nat, share),
            conn_summaries@.len() == c,
            forall|i: int|
                0 <= i < c ==> (#[trigger] conn_summaries@[i]).request_summaries@.len() == share,
            before == old(client).calls@,
            extends(before, client.calls@),
            all_to(calls_after(client.calls@, before.len() as int), target),
            answered_with(calls_after(client.calls@, before.len() as int), all_outcomes(conn_summaries@)),
            calls_after(client.calls@, before.len() as int).len() == c * share,
            process.reports@ == old(process).reports@,
        decreases connections - c,
    {
        let ghost mid = client.calls@;
        proof {
            lemma_all_outcomes_len(conn_summaries@, share);
            assert(c * share <= (connections - 1) * share) by (nonlinear_arith)
                requires
                    c <= connections - 1,
            ;
            assert(c * share + share == (c + 1) * share) by (nonlinear_arith);
            assert((connections - 1) * share + share == connections * share) by (nonlinear_arith);
        }
        let task = connection_task(client, &mut progress, &conn_settings);
        let ghost made_before = calls_after(mid, before.len() as int);
        let ghost made_now = calls_after(client.calls@, mid.len() as int);
        assert(calls_after(client.calls@, before.len() as int) =~= made_before + made_now);
        assert(client.calls@.subrange(0, before.len() as int) =~= mid.subrange(0, before.len() as int));
        assert(all_to(calls_after(client.calls@, before.len() as int), target)) by {
            let all = calls_after(client.calls@, before.len() as int);
            assert forall|i: int| 0 <= i < all.len() implies (#[trigger] all[i]).uri == target by {
                if i >= made_before.len() {
                    assert(all[i] == made_now[i - made_before.len()]);
                } else {
                    assert(all[i] == made_before[i]);
                }
            }
        }
        match task {
            Ok(summary) => {
                let ghost prev = conn_summaries@;
                proof {
                    lemma_answered_concat(
                        made_before,
                        all_outcomes(prev),
                        made_now,
                        summary.request_summaries@,
                    );
                }
                conn_summaries.push(summary);
                assert(conn_summaries@.drop_last() =~= prev);
            },
            Err(e) => {
                proof {
                    let all = calls_after(client.calls@, before.len() as int);
                    assert forall|i: int| 0 <= i < all.len() - 1 implies (#[trigger] all[i]).answer is Ok by {
                        if i >= made_before.len() {
                            assert(all[i] == made_now[i - made_before.len()]);
                        } else {
                            assert(all[i] == made_before[i]);
                        }
                    }
                    assert(all.last() == made_now.last());
                }
                return Err(BenchmarkError::Transport(e));
            },
        }
        c = c + 1;
    }
    let mut tracker = ProgressTracker::new(connections as u64);
    let ghost rep0 = process.reports@;
    let mut i: usize = 0;
    assert(progress@.subrange(0, 0) =~= Seq::<u64>::empty());
    assert(reports_after(process.reports@, rep0.len() as int) =~= Seq::<ProgressReport>::empty());
    assert(process.reports@.subrange(0, rep0.len() as int) =~= rep0);
    while i < progress.len()
        invariant
            0 <= i <= progress@.len(),
            connections >= 1,
            progress@ == run_messages(connections as nat, share),
            tracker.wf(),
            tracker.connections == connections,
            tracker.received@ == progress@.subrange(0, i as int),
            rep0 == old(process).reports@,
            rep0.len() <= process.reports@.len(),
            process.reports@.subrange(0, rep0.len() as int) == rep0,
            positive_updates(reports_after(process.reports@, rep0.len() as int)),
            updated_total(reports_after(process.reports@, rep0.len() as int)) == reported_total(
                progress@.subrange(0, i as int),
            ),
        decreases progress@.len() - i,
    {
        proof {
            lemma_run_messages_prefix(connections as nat, share, i as int);
        }
        let m = progress[i];
        let ghost reps = process.reports@;
        assert(progress@.subrange(0, i + 1).drop_last() =~= progress@.subrange(0, i as int));
        match tracker.receive(m) {
            Some(n) => {
                process.update(n);
                assert(reports_after(process.reports@, rep0.len() as int) =~= reports_after(
                    reps,
                    rep0.len() as int,
                ).push(ProgressReport::Update(n)));
                assert(reports_after(process.reports@, rep0.len() as int).drop_last()
                    =~= reports_after(reps, rep0.len() as int));
                assert(process.reports@.subrange(0, rep0.len() as int) =~= reps.subrange(
                    0,
                    rep0.len() as int,
                ));
            },
            None => {},
        }
        i = i + 1;
        assert(tracker.received@ =~= progress@.subrange(0, i as int));
    }
    assert(progress@.subrange(0, i as int) =~= progress@);
    result.total_time_micros = micros_since(&now);
    proof {
        lemma_all_outcomes_len(conn_summaries@, share);
        lemma_run_messages(connections as nat, share);
    }
    result.combine_conn_summaries(conn_summaries);
    let ghost reps = process.reports@;
    process.finish();
    assert(reports_after(process.reports@, rep0.len() as int) =~= reports_after(
        reps,
        rep0.len() as int,
    ).push(ProgressReport::Finish));
    assert(reports_after(process.reports@, rep0.len() as int).drop_last() =~= reports_after(
        reps,
        rep0.len() as int,
    ));
    assert(process.reports@.subrange(0, rep0.len() as int) =~= reps.subrange(0, rep0.len() as int));
    assert(result.request_summaries@ =~= all_outcomes(conn_summaries@));
    Ok(result)
}

} // verus!
