//! Benchmark settings and the share of requests each connection issues.
use vstd::prelude::*;

use hyper::Uri;

verus! {

/// What the operator asks for: how many logical connections to open, how many
/// requests to issue in total, and against which target.
pub struct BenchmarkSettings {
    pub connections: u16,
    pub requests: u64,
    pub target_uri: Uri,
}

/// One connection's share of the work.
pub struct ConnectionSettings {
    pub requests: u64,
    pub target_uri: Uri,
}

/// Requests issued by each of `connections` connections out of a budget of
/// `total`: the integer quotient (a remainder is never issued).
pub open spec fn share_of(total: nat, connections: nat) -> nat
    recommends
        connections >= 1,
{
    total / connections
}

/// Requests issued by the whole run.
pub open spec fn issued_total(total: nat, connections: nat) -> nat {
    connections * share_of(total, connections)
}

impl ConnectionSettings {
    /// The share of one connection. A budget that is not a multiple of the
    /// connection count loses its remainder.
    pub fn from(value: &BenchmarkSettings) -> (r: ConnectionSettings)
        requires
            value.connections >= 1,
        ensures
            r.requests == share_of(value.requests as nat, value.connections as nat),
            r.target_uri == value.target_uri,
    {
        ConnectionSettings {
            requests: value.requests / (value.connections as u64),
            target_uri: value.target_uri.clone(),
        }
    }
}

/// The requests of a run never exceed its budget, and fall short of it by
/// less than one request per connection.
pub proof fn lemma_issued_within_budget(total: nat, connections: nat)
    requires
        connections >= 1,
    ensures
        issued_total(total, connections) <= total,
        total < issued_total(total, connections) + connections,
        issued_total(total, connections) == total - total % connections,
{
    vstd::arithmetic::div_mod::lemma_fundamental_div_mod(total as int, connections as int);
}

} // verus!
