//! What to test: the endpoints and what is expected of each.

use vstd::prelude::*;
use crate::headers::Headers;
use crate::lookup::{all_distinct, first_named, is_first, lemma_first_named};

verus! {

/// The tolerance, in milliseconds, of an endpoint that names none.
pub const DEFAULT_THRESHOLD: u128 = 250;

/// An HTTP verb.
#[derive(Clone, Copy, Debug, PartialEq, Eq, Structural)]
pub enum Method {
    Get,
    Post,
    Put,
    Delete,
    Patch,
    Options,
}

impl Method {
    /// The verb as it is written on the wire.
    pub open spec fn text(self) -> Seq<char> {
        match self {
            Method::Get => "GET"@,
            Method::Post => "POST"@,
            Method::Put => "PUT"@,
            Method::Delete => "DELETE"@,
            Method::Patch => "PATCH"@,
            Method::Options => "OPTIONS"@,
        }
    }

    /// Whether the executor can send a request with this verb.
    pub open spec fn sendable(self) -> bool {
        self != Method::Options
    }

    /// The verb in capitals.
    pub fn as_str(&self) -> (text: &'static str)
        ensures
            text@ == self.text(),
    {
        match self {
            Method::Get => "GET",
            Method::Post => "POST",
            Method::Put => "PUT",
            Method::Delete => "DELETE",
            Method::Patch => "PATCH",
            Method::Options => "OPTIONS",
        }
    }

    /// Whether the executor can send a request with this verb: every verb but
    /// `OPTIONS`.
    pub fn is_sendable(&self) -> (yes: bool)
        ensures
            yes == self.sendable(),
    {
        match self {
            Method::Options => false,
            _ => true,
        }
    }
}

/// One configured target and what is expected of its responses.
#[derive(Clone, Debug)]
pub struct EndpointConfig {
    /// The key by which runs, verdicts and snapshots find this endpoint.
    pub name: String,
    pub url: String,
    pub method: Method,
    /// Calls fired together in one cycle.
    pub concurrent_requests: u64,
    /// Measured cycles per run.
    pub cycles: u64,
    pub headers: Option<Headers>,
    pub body: Option<serde_json::Value>,
    pub expected_status: Option<u16>,
    pub expected_body: Option<serde_json::Value>,
    pub expected_headers: Option<Headers>,
    /// Allowed rise of the average latency over the last snapshot, in milliseconds.
    pub threshold: Option<u128>,
    /// `Some(false)` switches the warm-up off.
    pub ramp: Option<bool>,
}

impl EndpointConfig {
    /// At least one cycle of at least one call, and no more calls in a run
    /// than a `u64` can count.
    pub open spec fn well_formed(self) -> bool {
        &&& self.cycles >= 1
        &&& self.concurrent_requests >= 1
        &&& self.cycles * self.concurrent_requests <= u64::MAX
    }

    /// The latency tolerance in milliseconds: the configured one, else 250.
    pub open spec fn tolerance(self) -> u128 {
        match self.threshold {
            Some(threshold) => threshold,
            None => DEFAULT_THRESHOLD,
        }
    }

    /// Whether a run of this endpoint starts with a warm-up.
    pub open spec fn warms_up(self) -> bool {
        self.ramp != Some(false)
    }

    /// The latency tolerance in milliseconds: the configured one, else 250.
    pub fn threshold_or_default(&self) -> (tolerance: u128)
        ensures
            tolerance == self.tolerance(),
    {
        match self.threshold {
            Some(threshold) => threshold,
            None => DEFAULT_THRESHOLD,
        }
    }

    /// Whether a run of this endpoint starts with a warm-up: always, unless
    /// `ramp` is set to false.
    pub fn should_ramp(&self) -> (yes: bool)
        ensures
            yes == self.warms_up(),
    {
        match self.ramp {
            Some(false) => false,
            _ => true,
        }
    }
}

/// The endpoints of one invocation, in the order in which they run.
#[derive(Clone, Debug)]
pub struct Config {
    pub endpoints: Vec<EndpointConfig>,
}

impl Config {
    /// The endpoints' names, in order.
    pub open spec fn names(self) -> Seq<Seq<char>> {
        Seq::new(self.endpoints@.len(), |i: int| self.endpoints@[i].name@)
    }

    /// Every endpoint is well formed and no two share a name.
    pub open spec fn well_formed(self) -> bool {
        &&& forall|i: int| 0 <= i < self.endpoints@.len() ==> self.endpoints@[i].well_formed()
        &&& all_distinct(self.names())
    }

    /// The endpoint called `name`: the first one, should several carry it.
    pub open spec fn named(self, name: Seq<char>) -> Option<EndpointConfig> {
        match first_named(self.names(), name) {
            Some(at) => Some(self.endpoints@[at]),
            None => None,
        }
    }

    /// Looks an endpoint up by its name.
    pub fn find(&self, name: &String) -> (found: Option<&EndpointConfig>)
        ensures
            match found {
                Some(endpoint) => self.named(name@) == Some(*endpoint),
                None => self.named(name@) is None,
            },
    {
        let mut i: usize = 0;
        while i < self.endpoints.len()
            invariant
                i <= self.endpoints@.len(),
                forall|j: int| 0 <= j < i ==> self.names()[j] != name@,
            decreases self.endpoints@.len() - i,
        {
            if self.endpoints[i].name == *name {
                proof {
                    assert(is_first(self.names(), name@, i as int));
                    lemma_first_named(self.names(), name@);
                }
                return Some(&self.endpoints[i]);
            }
            i += 1;
        }
        proof {
            lemma_first_named(self.names(), name@);
        }
        None
    }

    /// Whether the name of endpoint `at` comes again after it.
    fn repeats(&self, at: usize) -> (again: bool)
        requires
            at < self.endpoints@.len(),
        ensures
            again == exists|j: int| at < j < self.endpoints@.len() && self.names()[j] == self.names()[at as int],
    {
        let count = self.endpoints.len();
        let mut j: usize = at + 1;
        while j < count
            invariant
                count == self.endpoints@.len(),
                at < j <= count,
                forall|k: int| at < k < j ==> self.names()[k] != self.names()[at as int],
            decreases count - j,
        {
            if self.endpoints[j].name == self.endpoints[at].name {
                assert(self.names()[j as int] == self.names()[at as int]);
                return true;
            }
            j += 1;
        }
        false
    }

    /// Checks what the rest of the engine takes for granted: every endpoint
    /// has at least one cycle of at least one call and no more calls in a run
    /// than a `u64` can count, and no two endpoints share a name.
    pub fn is_valid(&self) -> (valid: bool)
        ensures
            valid == self.well_formed(),
    {
        let mut i: usize = 0;
        while i < self.endpoints.len()
            invariant
                i <= self.endpoints@.len(),
                forall|k: int| 0 <= k < i ==> self.endpoints@[k].well_formed(),
                forall|k: int, j: int|
                    0 <= k < i && k < j < self.endpoints@.len() ==> self.names()[k]
                        != self.names()[j],
            decreases self.endpoints@.len() - i,
        {
            let endpoint = &self.endpoints[i];
            if endpoint.cycles < 1 || endpoint.concurrent_requests < 1 {
                assert(!self.endpoints@[i as int].well_formed());
                return false;
            }
            proof {
                assert(endpoint.cycles * endpoint.concurrent_requests <= u64::MAX * u64::MAX)
                    by (nonlinear_arith)
                    requires
                        endpoint.cycles <= u64::MAX,
                        endpoint.concurrent_requests <= u64::MAX,
                ;
            }
            if (endpoint.cycles as u128) * (endpoint.concurrent_requests as u128)
                > u64::MAX as u128 {
                assert(!self.endpoints@[i as int].well_formed());
                return false;
            }
            if self.repeats(i) {
                proof {
                    let j = choose|j: int|
                        i < j < self.endpoints@.len() && self.names()[j] == self.names()[i as int];
                    assert(self.names()[i as int] == self.names()[j]);
                }
                return false;
            }
            i += 1;
        }
        true
    }
}

} // verus!
