//! Per-status latency statistics: grouping the outcomes of a run by status
//! code, and the order statistics of each group.
use vstd::prelude::*;

use crate::benchmark::BenchmarkResult;
use crate::worker::RequestSummary;
use vstd::relations::{sorted_by, total_ordering};

verus! {

/// The order of latencies.
pub open spec fn ascending(a: u64, b: u64) -> bool {
    a <= b
}

/// The latencies of `xs` in ascending order.
pub open spec fn sorted_latencies(xs: Seq<u64>) -> Seq<u64> {
    xs.sort_by(|a: u64, b: u64| ascending(a, b))
}

/// The smallest latency of a non-empty sequence.
pub open spec fn seq_min(xs: Seq<u64>) -> u64
    decreases xs.len(),
{
    if xs.len() <= 1 {
        xs[0]
    } else if xs.last() < seq_min(xs.drop_last()) {
        xs.last()
    } else {
        seq_min(xs.drop_last())
    }
}

/// The largest latency of a non-empty sequence.
pub open spec fn seq_max(xs: Seq<u64>) -> u64
    decreases xs.len(),
{
    if xs.len() <= 1 {
        xs[0]
    } else if xs.last() > seq_max(xs.drop_last()) {
        xs.last()
    } else {
        seq_max(xs.drop_last())
    }
}

pub open spec fn seq_sum(xs: Seq<u64>) -> nat
    decreases xs.len(),
{
    if xs.len() == 0 {
        0
    } else {
        seq_sum(xs.drop_last()) + xs.last() as nat
    }
}

pub open spec fn sum_squares(xs: Seq<u64>) -> nat
    decreases xs.len(),
{
    if xs.len() == 0 {
        0
    } else {
        sum_squares(xs.drop_last()) + (xs.last() as nat) * (xs.last() as nat)
    }
}

/// `n` times the sum of squared deviations from the mean, that is `n * n`
/// times the population variance: `n * sum(x^2) - sum(x)^2`.
pub open spec fn variance_numerator(xs: Seq<u64>) -> int {
    xs.len() * sum_squares(xs) - seq_sum(xs) * seq_sum(xs)
}

/// The nearest-rank position of percentile `p` among `n` sorted values:
/// `floor(p * n / 100)`, clamped to the last position.
pub open spec fn percentile_index(p: nat, n: nat) -> nat {
    if p * n / 100 < n {
        p * n / 100
    } else {
        (n - 1) as nat
    }
}

/// The nearest-rank percentile `p` of a non-empty group.
pub open spec fn percentile(xs: Seq<u64>, p: nat) -> u64 {
    sorted_latencies(xs)[percentile_index(p, xs.len()) as int]
}

/// Statistics of the latencies (in microseconds) of one status code.
#[derive(Debug, Clone, Copy, PartialEq, Eq, Structural)]
pub struct StatusStatistics {
    pub status: u16,
    pub requests: usize,
    pub min: u64,
    pub max: u64,
    /// The sum of the latencies; the mean is `sum / requests`.
    pub sum: u128,
    /// `requests * sum(x^2) - sum^2`, so that the population standard deviation is
    /// `sqrt(variance_numerator) / requests`; `None` where `requests * sum(x^2)`
    /// exceeds the `u128` range.
    pub variance_numerator: Option<u128>,
    pub p90: u64,
    pub p99: u64,
}

/// What the statistics of latencies `xs` of status `status` are.
pub open spec fn status_statistics(status: u16, xs: Seq<u64>) -> StatusStatistics {
    StatusStatistics {
        status,
        requests: xs.len() as usize,
        min: seq_min(xs),
        max: seq_max(xs),
        sum: seq_sum(xs) as u128,
        variance_numerator: if xs.len() * sum_squares(xs) <= u128::MAX {
            Some(variance_numerator(xs) as u128)
        } else {
            None
        },
        p90: percentile(xs, 90),
        p99: percentile(xs, 99),
    }
}

proof fn lemma_ascending_total()
    ensures
        total_ordering(|a: u64, b: u64| ascending(a, b)),
{
}

proof fn lemma_square_fits(x: u64)
    ensures
        (x as nat) * (x as nat) <= u128::MAX,
{
    assert((x as nat) * (x as nat) <= (u64::MAX as nat) * (u64::MAX as nat)) by (nonlinear_arith)
        requires
            x <= u64::MAX,
    ;
}

proof fn lemma_sum_bound(xs: Seq<u64>)
    ensures
        seq_sum(xs) <= xs.len() * (u64::MAX as nat),
    decreases xs.len(),
{
    if xs.len() > 0 {
        lemma_sum_bound(xs.drop_last());
        assert(xs.len() * (u64::MAX as nat) == (xs.len() - 1) * (u64::MAX as nat) + u64::MAX)
            by (nonlinear_arith)
            requires
                xs.len() >= 1,
        ;
    }
}

/// `sum(x)^2 <= n * sum(x^2)`, so the variance numerator is never negative.
proof fn lemma_variance_nonnegative(xs: Seq<u64>)
    ensures
        seq_sum(xs) * seq_sum(xs) <= xs.len() * sum_squares(xs),
    decreases xs.len(),
{
    if xs.len() > 0 {
        let t = xs.drop_last();
        lemma_variance_nonnegative(t);
        let n = t.len() as int;
        let s = seq_sum(t) as int;
        let q = sum_squares(t) as int;
        let x = xs.last() as int;
        assert(n * (q + n * x * x - 2 * s * x) >= (s - n * x) * (s - n * x)) by (nonlinear_arith)
            requires
                s * s <= n * q,
        ;
        assert(q + n * x * x - 2 * s * x >= 0) by (nonlinear_arith)
            requires
                n * (q + n * x * x - 2 * s * x) >= (s - n * x) * (s - n * x),
                n >= 0,
                q >= 0,
                n == 0 ==> s == 0,
        ;
        assert((s + x) * (s + x) <= (n + 1) * (q + x * x)) by (nonlinear_arith)
            requires
                s * s <= n * q,
                q + n * x * x - 2 * s * x >= 0,
        ;
    }
}

proof fn lemma_min_max_bounds(xs: Seq<u64>)
    requires
        xs.len() >= 1,
    ensures
        forall|i: int| 0 <= i < xs.len() ==> seq_min(xs) <= #[trigger] xs[i] <= seq_max(xs),
    decreases xs.len(),
{
    if xs.len() > 1 {
        let t = xs.drop_last();
        lemma_min_max_bounds(t);
        assert forall|i: int| 0 <= i < xs.len() implies seq_min(xs) <= #[trigger] xs[i] <= seq_max(
            xs,
        ) by {
            if i < t.len() {
                assert(t[i] == xs[i]);
            }
        }
    }
}

proof fn lemma_percentile_index_monotone(p1: nat, p2: nat, n: nat)
    requires
        p1 <= p2,
        n >= 1,
    ensures
        percentile_index(p1, n) <= percentile_index(p2, n) < n,
{
    assert(p1 * n <= p2 * n) by (nonlinear_arith)
        requires
            p1 <= p2,
    ;
    vstd::arithmetic::div_mod::lemma_div_is_ordered((p1 * n) as int, (p2 * n) as int, 100);
}

/// For fixed data the percentiles are ordered: the smallest latency, then
/// the 90th percentile, then the 99th, then the largest latency.
pub proof fn lemma_percentiles_in_range(xs: Seq<u64>)
    requires
        xs.len() >= 1,
    ensures
        seq_min(xs) <= percentile(xs, 90),
        percentile(xs, 90) <= percentile(xs, 99),
        percentile(xs, 99) <= seq_max(xs),
{
    broadcast use vstd::seq_lib::group_to_multiset_ensures;

    let leq = |a: u64, b: u64| ascending(a, b);
    lemma_ascending_total();
    xs.lemma_sort_by_ensures(leq);
    let s = sorted_latencies(xs);
    assert(s.len() == xs.len()) by {
        assert(s.to_multiset().len() == xs.to_multiset().len());
    }
    let n = xs.len();
    lemma_percentile_index_monotone(90, 99, n);
    let i90 = percentile_index(90, n) as int;
    let i99 = percentile_index(99, n) as int;
    if i90 < i99 {
        assert(leq(s[i90], s[i99]));
    }
    lemma_min_max_bounds(xs);
    assert(s.to_multiset().count(s[i90]) > 0);
    assert(xs.contains(s[i90]));
    assert(s.to_multiset().count(s[i99]) > 0);
    assert(xs.contains(s[i99]));
}

proof fn lemma_constant_sums(xs: Seq<u64>, l: u64)
    requires
        forall|i: int| 0 <= i < xs.len() ==> #[trigger] xs[i] == l,
    ensures
        seq_sum(xs) == xs.len() * l,
        sum_squares(xs) == xs.len() * (l * l),
        xs.len() >= 1 ==> seq_min(xs) == l && seq_max(xs) == l,
    decreases xs.len(),
{
    if xs.len() > 0 {
        let t = xs.drop_last();
        assert forall|i: int| 0 <= i < t.len() implies #[trigger] t[i] == l by {
            assert(t[i] == xs[i]);
        }
        lemma_constant_sums(t, l);
        assert(xs.last() == l);
        let n = t.len();
        assert(xs.len() * l == n * l + l) by (nonlinear_arith)
            requires
                xs.len() == n + 1,
        ;
        assert(xs.len() * (l * l) == n * (l * l) + l * l) by (nonlinear_arith)
            requires
                xs.len() == n + 1,
        ;
    }
}

/// A group whose latencies are all `l` has `l` as its minimum, maximum,
/// mean (its sum is `l` times its size) and every percentile, and no
/// deviation: its variance numerator, hence its standard deviation, is zero.
pub proof fn lemma_identical_latencies(xs: Seq<u64>, l: u64)
    requires
        xs.len() >= 1,
        forall|i: int| 0 <= i < xs.len() ==> #[trigger] xs[i] == l,
    ensures
        seq_min(xs) == l,
        seq_max(xs) == l,
        seq_sum(xs) == xs.len() * l,
        variance_numerator(xs) == 0,
        percentile(xs, 90) == l,
        percentile(xs, 99) == l,
{
    broadcast use vstd::seq_lib::group_to_multiset_ensures;

    lemma_constant_sums(xs, l);
    let k = xs.len() as int;
    assert(k * (k * (l * l)) - (k * l) * (k * l) == 0) by (nonlinear_arith);
    let leq = |a: u64, b: u64| ascending(a, b);
    lemma_ascending_total();
    xs.lemma_sort_by_ensures(leq);
    let s = sorted_latencies(xs);
    assert(s.len() == xs.len()) by {
        assert(s.to_multiset().len() == xs.to_multiset().len());
    }
    lemma_percentile_index_monotone(90, 99, xs.len());
    let i90 = percentile_index(90, xs.len()) as int;
    let i99 = percentile_index(99, xs.len()) as int;
    assert(s.to_multiset().count(s[i90]) > 0);
    assert(xs.contains(s[i90]));
    assert(s.to_multiset().count(s[i99]) > 0);
    assert(xs.contains(s[i99]));
}

/// Relies on `slice::sort_unstable`: afterwards the same latencies stand in
/// ascending order.
#[verifier::external_body]
fn sort_ascending(v: &mut Vec<u64>)
    ensures
        final(v)@.to_multiset() == old(v)@.to_multiset(),
        sorted_by(final(v)@, |a: u64, b: u64| ascending(a, b)),
{
    v.sort_unstable();
}

/// A copy of `xs` in ascending order.
fn sorted_copy(xs: &Vec<u64>) -> (r: Vec<u64>)
    ensures
        r@ == sorted_latencies(xs@),
        r@.len() == xs@.len(),
{
    let mut r: Vec<u64> = Vec::new();
    let mut i: usize = 0;
    while i < xs.len()
        invariant
            0 <= i <= xs@.len(),
            r@ == xs@.subrange(0, i as int),
        decreases xs@.len() - i,
    {
        r.push(xs[i]);
        i = i + 1;
        assert(r@ =~= xs@.subrange(0, i as int));
    }
    assert(xs@.subrange(0, i as int) =~= xs@);
    sort_ascending(&mut r);
    proof {
        let leq = |a: u64, b: u64| ascending(a, b);
        lemma_ascending_total();
        xs@.lemma_sort_by_ensures(leq);
        vstd::seq_lib::lemma_sorted_unique(r@, xs@.sort_by(leq), leq);
        assert(r@.len() == xs@.len()) by {
            broadcast use vstd::seq_lib::group_to_multiset_ensures;

            assert(r@.to_multiset().len() == xs@.to_multiset().len());
        }
    }
    r
}

/// The value at the nearest-rank position of percentile `p` in `sorted`.
fn percentile_of_sorted(sorted: &Vec<u64>, p: u64) -> (r: u64)
    requires
        sorted@.len() >= 1,
        p <= 100,
    ensures
        r == sorted@[percentile_index(p as nat, sorted@.len()) as int],
{
    let n = sorted.len();
    assert((p as u128) * (n as u128) <= 100 * (usize::MAX as u128)) by (nonlinear_arith)
        requires
            p <= 100,
            n <= usize::MAX,
    ;
    let rank = (p as u128) * (n as u128) / 100;
    let idx: usize = if rank < n as u128 {
        rank as usize
    } else {
        n - 1
    };
    sorted[idx]
}

/// The statistics of one status code's latencies: count, min, max, sum,
/// variance numerator and the nearest-rank 90th and 99th percentiles.
pub fn calculate_statistic(status: u16, latencies: &Vec<u64>) -> (r: StatusStatistics)
    requires
        latencies@.len() >= 1,
    ensures
        r == status_statistics(status, latencies@),
        r.min <= r.p90 <= r.p99 <= r.max,
{
    let ghost xs = latencies@;
    let n = latencies.len();
    let mut min: u64 = latencies[0];
    let mut max: u64 = latencies[0];
    let mut sum: u128 = latencies[0] as u128;
    proof {
        lemma_square_fits(latencies[0]);
    }
    let mut squares: Option<u128> = Some((latencies[0] as u128) * (latencies[0] as u128));
    let mut i: usize = 1;
    assert(xs.subrange(0, 1).drop_last() =~= Seq::<u64>::empty());
    assert(seq_sum(Seq::<u64>::empty()) == 0);
    assert(sum_squares(Seq::<u64>::empty()) == 0);
    while i < n
        invariant
            1 <= i <= n,
            n == xs.len(),
            xs == latencies@,
            min == seq_min(xs.subrange(0, i as int)),
            max == seq_max(xs.subrange(0, i as int)),
            sum == seq_sum(xs.subrange(0, i as int)),
            squares matches Some(q) ==> q == sum_squares(xs.subrange(0, i as int)),
            squares is None ==> sum_squares(xs.subrange(0, i as int)) > u128::MAX,
        decreases n - i,
    {
        let x = latencies[i];
        let ghost prefix = xs.subrange(0, i as int);
        let ghost next = xs.subrange(0, i + 1);
        assert(next.drop_last() =~= prefix);
        assert(next.last() == x);
        proof {
            lemma_sum_bound(next);
            assert(next.len() * (u64::MAX as nat) <= u128::MAX) by (nonlinear_arith)
                requires
                    next.len() <= usize::MAX,
            ;
        }
        if x < min {
            min = x;
        }
        if x > max {
            max = x;
        }
        sum = sum + x as u128;
        proof {
            lemma_square_fits(x);
        }
        let sq = (x as u128) * (x as u128);
        squares = match squares {
            Some(q) => q.checked_add(sq),
            None => None,
        };
        i = i + 1;
    }
    assert(xs.subrange(0, n as int) =~= xs);
    let variance = match squares {
        Some(q) => match (n as u128).checked_mul(q) {
            Some(nq) => {
                proof {
                    lemma_variance_nonnegative(xs);
                }
                Some(nq - sum * sum)
            },
            None => None,
        },
        None => {
            proof {
                assert(xs.len() * sum_squares(xs) >= sum_squares(xs)) by (nonlinear_arith)
                    requires
                        xs.len() >= 1,
                ;
            }
            None
        },
    };
    let sorted = sorted_copy(latencies);
    let p90 = percentile_of_sorted(&sorted, 90);
    let p99 = percentile_of_sorted(&sorted, 99);
    proof {
        lemma_percentiles_in_range(xs);
    }
    StatusStatistics {
        status,
        requests: n,
        min,
        max,
        sum,
        variance_numerator: variance,
        p90,
        p99,
    }
}

/// The latencies of the outcomes with status `code`, in completion order.
pub open spec fn latencies_of(outcomes: Seq<RequestSummary>, code: u16) -> Seq<u64>
    decreases outcomes.len(),
{
    if outcomes.len() == 0 {
        Seq::empty()
    } else {
        let rest = latencies_of(outcomes.drop_last(), code);
        if outcomes.last().status_code == code {
            rest.push(outcomes.last().latency_micros)
        } else {
            rest
        }
    }
}

/// Whether some outcome has status `code`.
pub open spec fn has_status(outcomes: Seq<RequestSummary>, code: u16) -> bool {
    exists|k: int| 0 <= k < outcomes.len() && (#[trigger] outcomes[k]).status_code == code
}

proof fn lemma_latencies_of_nonempty(outcomes: Seq<RequestSummary>, code: u16)
    requires
        has_status(outcomes, code),
    ensures
        latencies_of(outcomes, code).len() >= 1,
    decreases outcomes.len(),
{
    let t = outcomes.drop_last();
    if outcomes.last().status_code != code {
        let k = choose|k: int| 0 <= k < outcomes.len() && (#[trigger] outcomes[k]).status_code == code;
        assert(t[k] == outcomes[k]);
        lemma_latencies_of_nonempty(t, code);
    }
}

/// Whether `codes` holds `code`.
fn contains_code(codes: &Vec<u16>, code: u16) -> (r: bool)
    ensures
        r == codes@.contains(code),
{
    let mut i: usize = 0;
    while i < codes.len()
        invariant
            0 <= i <= codes@.len(),
            forall|j: int| 0 <= j < i ==> codes@[j] != code,
        decreases codes@.len() - i,
    {
        if codes[i] == code {
            return true;
        }
        i = i + 1;
    }
    false
}

/// The distinct status codes of `outcomes`, in order of first appearance.
fn status_codes(outcomes: &Vec<RequestSummary>) -> (r: Vec<u16>)
    ensures
        r@.no_duplicates(),
        forall|i: int| 0 <= i < r@.len() ==> has_status(outcomes@, #[trigger] r@[i]),
        forall|k: int| 0 <= k < outcomes@.len() ==> r@.contains(#[trigger] outcomes@[k].status_code),
{
    let mut r: Vec<u16> = Vec::new();
    let mut k: usize = 0;
    while k < outcomes.len()
        invariant
            0 <= k <= outcomes@.len(),
            r@.no_duplicates(),
            forall|i: int| 0 <= i < r@.len() ==> has_status(outcomes@, #[trigger] r@[i]),
            forall|j: int| 0 <= j < k ==> r@.contains(#[trigger] outcomes@[j].status_code),
        decreases outcomes@.len() - k,
    {
        let code = outcomes[k].status_code;
        if !contains_code(&r, code) {
            let ghost before = r@;
            r.push(code);
            assert(r@[r@.len() - 1] == code);
            assert forall|j: int| 0 <= j < k implies r@.contains(#[trigger] outcomes@[j].status_code) by {
                let x = outcomes@[j].status_code;
                let m = choose|m: int| 0 <= m < before.len() && before[m] == x;
                assert(r@[m] == x);
            }
            assert(r@.contains(code));
        }
        k = k + 1;
    }
    r
}

/// The latencies of the outcomes with status `code`, in completion order.
fn latencies_with_status(outcomes: &Vec<RequestSummary>, code: u16) -> (r: Vec<u64>)
    ensures
        r@ == latencies_of(outcomes@, code),
{
    let mut r: Vec<u64> = Vec::new();
    let mut k: usize = 0;
    while k < outcomes.len()
        invariant
            0 <= k <= outcomes@.len(),
            r@ == latencies_of(outcomes@.subrange(0, k as int), code),
        decreases outcomes@.len() - k,
    {
        assert(outcomes@.subrange(0, k + 1).drop_last() =~= outcomes@.subrange(0, k as int));
        if outcomes[k].status_code == code {
            r.push(outcomes[k].latency_micros);
        }
        k = k + 1;
    }
    assert(outcomes@.subrange(0, k as int) =~= outcomes@);
    r
}

/// Partitions the outcomes of a run by status code and computes the
/// statistics of each group: one entry per distinct status code, in order of
/// first appearance.
pub fn process_result(summary: BenchmarkResult) -> (r: Vec<StatusStatistics>)
    ensures
        forall|i: int, j: int| 0 <= i < j < r@.len() ==> r@[i].status != r@[j].status,
        forall|i: int|
            0 <= i < r@.len() ==> {
                &&& has_status(summary.request_summaries@, #[trigger] r@[i].status)
                &&& r@[i] == status_statistics(
                    r@[i].status,
                    latencies_of(summary.request_summaries@, r@[i].status),
                )
            },
        forall|k: int|
            0 <= k < summary.request_summaries@.len() ==> exists|i: int|
                0 <= i < r@.len() && (#[trigger] r@[i]).status
                    == (#[trigger] summary.request_summaries@[k]).status_code,
{
    let outcomes = &summary.request_summaries;
    let codes = status_codes(outcomes);
    let mut statistics: Vec<StatusStatistics> = Vec::new();
    let mut i: usize = 0;
    while i < codes.len()
        invariant
            0 <= i <= codes@.len(),
            outcomes == &summary.request_summaries,
            codes@.no_duplicates(),
            forall|j: int| 0 <= j < codes@.len() ==> has_status(outcomes@, #[trigger] codes@[j]),
            forall|k: int|
                0 <= k < outcomes@.len() ==> codes@.contains(#[trigger] outcomes@[k].status_code),
            statistics@.len() == i,
            forall|j: int| 0 <= j < i ==> (#[trigger] statistics@[j]).status == codes@[j],
            forall|j: int|
                0 <= j < i ==> (#[trigger] statistics@[j]) == status_statistics(
                    codes@[j],
                    latencies_of(outcomes@, codes@[j]),
                ),
        decreases codes@.len() - i,
    {
        let code = codes[i];
        let latencies = latencies_with_status(outcomes, code);
        proof {
            lemma_latencies_of_nonempty(outcomes@, code);
        }
        statistics.push(calculate_statistic(code, &latencies));
        i = i + 1;
    }
    assert forall|k: int| 0 <= k < summary.request_summaries@.len() implies exists|i: int|
        0 <= i < statistics@.len() && (#[trigger] statistics@[i]).status
            == (#[trigger] summary.request_summaries@[k]).status_code by {
        assert(codes@.contains(outcomes@[k].status_code));
        let m = choose|m: int| 0 <= m < codes@.len() && codes@[m] == outcomes@[k].status_code;
        assert(statistics@[m].status == codes@[m]);
    }
    statistics
}

} // verus!
