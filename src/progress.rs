//! The progress channel's messages and the consumer's side of it.
use vstd::prelude::*;

use crate::settings::{issued_total, share_of};
use crate::worker::{full_batches, progress_messages, PROGRESS_BATCH, WORKER_DONE};

verus! {

/// The progress callback that the coordinator feeds: `update` with each
/// reported batch of completions, `finish` once at the end of a run.
pub trait BenchmarkStats {
    fn update(&self, n: u64);

    fn finish(&self);
}

/// One call made to a progress callback.
pub enum ProgressReport {
    Update(u64),
    Finish,
}

/// A progress callback together with the record of every call made to it.
pub struct RecordedStats<S> {
    pub inner: S,
    pub reports: Ghost<Seq<ProgressReport>>,
}

impl<S: BenchmarkStats> RecordedStats<S> {
    /// Wraps `inner`, with no call recorded yet.
    pub fn new(inner: S) -> (r: RecordedStats<S>)
        ensures
            r.inner == inner,
            r.reports@ == Seq::<ProgressReport>::empty(),
    {
        RecordedStats { inner, reports: Ghost(Seq::empty()) }
    }

    /// Hands `n` completions to the wrapped callback and records it.
    pub fn update(&mut self, n: u64)
        ensures
            final(self).reports@ == old(self).reports@.push(ProgressReport::Update(n)),
    {
        self.inner.update(n);
        proof {
            self.reports@ = self.reports@.push(ProgressReport::Update(n));
        }
    }

    /// Tells the wrapped callback that the run is over and records it.
    pub fn finish(&mut self)
        ensures
            final(self).reports@ == old(self).reports@.push(ProgressReport::Finish),
    {
        self.inner.finish();
        proof {
            self.reports@ = self.reports@.push(ProgressReport::Finish);
        }
    }
}

/// Completions handed to `update` in the calls of `r`.
pub open spec fn updated_total(r: Seq<ProgressReport>) -> nat
    decreases r.len(),
{
    if r.len() == 0 {
        0
    } else {
        updated_total(r.drop_last()) + match r.last() {
            ProgressReport::Update(n) => n as nat,
            ProgressReport::Finish => 0nat,
        }
    }
}

/// The calls recorded after the first `from` ones.
pub open spec fn reports_after(r: Seq<ProgressReport>, from: int) -> Seq<ProgressReport> {
    r.subrange(from, r.len() as int)
}

/// Every call of `r` is an `update` with a positive count.
pub open spec fn positive_updates(r: Seq<ProgressReport>) -> bool {
    forall|i: int| 0 <= i < r.len() ==> ((#[trigger] r[i]) matches ProgressReport::Update(n) && n > 0)
}

/// Completions reported by the messages of `s` (the done sentinel adds
/// nothing).
pub open spec fn reported_total(s: Seq<u64>) -> nat
    decreases s.len(),
{
    if s.len() == 0 {
        0
    } else {
        reported_total(s.drop_last()) + s.last() as nat
    }
}

/// Done sentinels among the messages of `s`.
pub open spec fn done_count(s: Seq<u64>) -> nat
    decreases s.len(),
{
    if s.len() == 0 {
        0
    } else {
        done_count(s.drop_last()) + if s.last() == WORKER_DONE {
            1nat
        } else {
            0nat
        }
    }
}

/// The messages of `c` workers that each complete `n` requests, one worker
/// after another.
pub open spec fn run_messages(c: nat, n: nat) -> Seq<u64>
    decreases c,
{
    if c == 0 {
        Seq::empty()
    } else {
        run_messages((c - 1) as nat, n) + progress_messages(n)
    }
}

pub proof fn lemma_totals_concat(a: Seq<u64>, b: Seq<u64>)
    ensures
        reported_total(a + b) == reported_total(a) + reported_total(b),
        done_count(a + b) == done_count(a) + done_count(b),
    decreases b.len(),
{
    if b.len() == 0 {
        assert(a + b =~= a);
    } else {
        lemma_totals_concat(a, b.drop_last());
        assert((a + b).drop_last() =~= a + b.drop_last());
    }
}

proof fn lemma_totals_single(x: u64)
    ensures
        reported_total(seq![x]) == x as nat,
        done_count(seq![x]) == if x == WORKER_DONE {
            1nat
        } else {
            0nat
        },
{
    let s = seq![x];
    assert(s.drop_last() =~= Seq::<u64>::empty());
    assert(reported_total(Seq::<u64>::empty()) == 0);
    assert(done_count(Seq::<u64>::empty()) == 0);
    assert(s.last() == x);
}

proof fn lemma_full_batches_totals(k: nat)
    ensures
        reported_total(full_batches(k)) == k * PROGRESS_BATCH,
        done_count(full_batches(k)) == 0,
    decreases k,
{
    if k > 0 {
        lemma_full_batches_totals((k - 1) as nat);
        assert(full_batches(k).drop_last() =~= full_batches((k - 1) as nat));
        assert(k * PROGRESS_BATCH == (k - 1) * PROGRESS_BATCH + PROGRESS_BATCH) by (nonlinear_arith);
    }
}

/// A worker that completes `n` requests reports exactly `n` completions and
/// one done sentinel, which is its last message.
pub proof fn lemma_worker_messages(n: nat)
    ensures
        reported_total(progress_messages(n)) == n,
        done_count(progress_messages(n)) == 1,
        progress_messages(n).last() == WORKER_DONE,
        forall|i: int|
            0 <= i < progress_messages(n).len() - 1 ==> #[trigger] progress_messages(n)[i] > 0,
{
    let b = PROGRESS_BATCH as nat;
    let head = full_batches(n / b);
    let rest: Seq<u64> = if n % b == 0 {
        Seq::empty()
    } else {
        seq![(n % b) as u64]
    };
    let done = seq![WORKER_DONE];
    lemma_full_batches_totals(n / b);
    lemma_totals_concat(head, rest);
    lemma_totals_concat(head + rest, done);
    lemma_totals_single(WORKER_DONE);
    if n % b != 0 {
        lemma_totals_single((n % b) as u64);
    } else {
        assert(reported_total(rest) == 0);
        assert(done_count(rest) == 0);
    }
    vstd::arithmetic::div_mod::lemma_fundamental_div_mod(n as int, b as int);
    assert(n == b * (n / b) + n % b);
    assert(b * (n / b) == (n / b) * b) by (nonlinear_arith);
}

pub proof fn lemma_run_messages(c: nat, n: nat)
    ensures
        reported_total(run_messages(c, n)) == c * n,
        done_count(run_messages(c, n)) == c,
    decreases c,
{
    if c > 0 {
        lemma_run_messages((c - 1) as nat, n);
        lemma_worker_messages(n);
        lemma_totals_concat(run_messages((c - 1) as nat, n), progress_messages(n));
        assert(c * n == (c - 1) * n + n) by (nonlinear_arith);
    }
}

proof fn lemma_totals_remove(s: Seq<u64>, j: int)
    requires
        0 <= j < s.len(),
    ensures
        reported_total(s) == reported_total(s.remove(j)) + s[j] as nat,
        done_count(s) == done_count(s.remove(j)) + if s[j] == WORKER_DONE {
            1nat
        } else {
            0nat
        },
{
    let front = s.subrange(0, j);
    let back = s.subrange(j + 1, s.len() as int);
    let mid = seq![s[j]];
    assert(s =~= front + mid + back);
    assert(s.remove(j) =~= front + back);
    lemma_totals_concat(front + mid, back);
    lemma_totals_concat(front, mid);
    lemma_totals_concat(front, back);
    lemma_totals_single(s[j]);
}

/// The totals do not depend on the order in which messages arrive.
pub proof fn lemma_totals_permutation(s1: Seq<u64>, s2: Seq<u64>)
    requires
        s1.to_multiset() == s2.to_multiset(),
    ensures
        reported_total(s1) == reported_total(s2),
        done_count(s1) == done_count(s2),
    decreases s1.len(),
{
    broadcast use vstd::seq_lib::group_to_multiset_ensures;

    if s1.len() == 0 {
        assert(s2.to_multiset().len() == 0);
        assert(s2 =~= Seq::<u64>::empty());
    } else {
        let x = s1.last();
        let t1 = s1.drop_last();
        assert(s1 =~= t1.push(x));
        assert(s1.to_multiset().count(x) > 0);
        assert(s2.to_multiset().count(x) > 0);
        assert(s2.contains(x));
        let j = choose|j: int| 0 <= j < s2.len() && s2[j] == x;
        let t2 = s2.remove(j);
        assert(t1.to_multiset() =~= s1.to_multiset().remove(x));
        assert(t2.to_multiset() =~= s2.to_multiset().remove(x));
        lemma_totals_permutation(t1, t2);
        lemma_totals_remove(s2, j);
    }
}

/// Over a run that completes without error, the messages the consumer
/// receives, in whatever interleaving, report the requests actually issued
/// plus one done sentinel per connection.
pub proof fn lemma_run_progress(connections: nat, total: nat, received: Seq<u64>)
    requires
        connections >= 1,
        received.to_multiset() == run_messages(connections, share_of(total, connections)).to_multiset(),
    ensures
        reported_total(received) == issued_total(total, connections),
        done_count(received) == connections,
        reported_total(received) + done_count(received) == issued_total(total, connections)
            + connections,
{
    lemma_run_messages(connections, share_of(total, connections));
    lemma_totals_permutation(received, run_messages(connections, share_of(total, connections)));
}

proof fn lemma_done_count_prefix(s: Seq<u64>, i: int)
    requires
        0 <= i <= s.len(),
    ensures
        done_count(s.subrange(0, i)) <= done_count(s),
    decreases s.len() - i,
{
    if i < s.len() {
        lemma_done_count_prefix(s, i + 1);
        assert(s.subrange(0, i + 1).drop_last() =~= s.subrange(0, i));
    } else {
        assert(s.subrange(0, i) =~= s);
    }
}

/// Before its last message, the messages of a run hold fewer done sentinels
/// than there are connections; the last one is a done sentinel.
pub proof fn lemma_run_messages_prefix(c: nat, n: nat, i: int)
    requires
        c >= 1,
        0 <= i < run_messages(c, n).len(),
    ensures
        done_count(run_messages(c, n).subrange(0, i)) < c,
        run_messages(c, n).last() == WORKER_DONE,
{
    let s = run_messages(c, n);
    lemma_run_messages(c, n);
    lemma_worker_messages(n);
    let prev = run_messages((c - 1) as nat, n);
    assert(s == prev + progress_messages(n));
    assert(s.last() == progress_messages(n).last());
    let t = s.drop_last();
    assert(done_count(s) == done_count(t) + 1);
    assert(s.subrange(0, i) =~= t.subrange(0, i));
    lemma_done_count_prefix(t, i);
}

/// The consumer's state: how many workers have reported done, out of how
/// many.
pub struct ProgressTracker {
    pub connections: u64,
    pub finished: u64,
    /// Every message received so far, in arrival order.
    pub received: Ghost<Seq<u64>>,
}

impl ProgressTracker {
    pub open spec fn wf(&self) -> bool {
        self.finished == done_count(self.received@)
    }

    pub open spec fn spec_is_done(&self) -> bool {
        self.finished >= self.connections
    }

    pub fn new(connections: u64) -> (r: ProgressTracker)
        ensures
            r.wf(),
            r.connections == connections,
            r.received@ == Seq::<u64>::empty(),
    {
        ProgressTracker { connections, finished: 0, received: Ghost(Seq::empty()) }
    }

    /// Whether every worker has reported done.
    pub fn is_done(&self) -> (r: bool)
        ensures
            r == self.spec_is_done(),
    {
        self.finished >= self.connections
    }

    /// Takes one message. A done sentinel counts a finished worker; any other
    /// message is a count to hand to the progress callback.
    pub fn receive(&mut self, n: u64) -> (update: Option<u64>)
        requires
            old(self).wf(),
            !old(self).spec_is_done(),
        ensures
            final(self).wf(),
            final(self).connections == old(self).connections,
            final(self).received@ == old(self).received@.push(n),
            final(self).finished == old(self).finished + if n == WORKER_DONE {
                1int
            } else {
                0int
            },
            update == (if n == WORKER_DONE {
                None
            } else {
                Some(n)
            }),
    {
        proof {
            self.received@ = self.received@.push(n);
            assert(self.received@.drop_last() =~= old(self).received@);
        }
        if n == WORKER_DONE {
            self.finished = self.finished + 1;
            None
        } else {
            Some(n)
        }
    }
}

} // verus!
