//! Statistics and expectation verdicts for finished runs.

use vstd::prelude::*;
use vstd::arithmetic::div_mod::{lemma_fundamental_div_mod, lemma_mod_bound};
use crate::config::{Config, EndpointConfig};
use crate::error::Error;
use crate::json::{json_equal, json_matches};
use crate::request::RequestOutput;
use crate::runner::{cycle_durations, Loads, SingleCycle, SingleLoad};
use crate::snapshot::Snapshot;
use crate::average::Average;
use crate::stats::{
    common,
    is_greatest,
    is_least,
    is_max,
    is_min,
    lemma_common_divides,
    lemma_common_grows,
    lemma_common_positive,
    lemma_scaled_is_sum_of_means,
    lemma_sum_of_means_positive,
    lemma_sum_push,
    mean_of_means,
    none_empty,
    scaled,
    sum,
    sum_of_means,
    Ratio,
};

verus! {

/// Latency figures of one run, in milliseconds.
#[derive(Clone, Copy, Debug)]
pub struct LoadStats {
    /// The mean of the per-cycle means, exactly.
    pub average_response_time: Average,
    pub min_response_time: u64,
    pub max_response_time: u64,
}

/// Outcome of the three optional correctness checks of an endpoint.
///
/// A field is `None` when the endpoint did not configure that check.
#[derive(Clone, Copy, Debug, PartialEq, Eq, Structural)]
pub struct Expected {
    pub body: Option<bool>,
    pub status_code: Option<bool>,
    pub headers: Option<bool>,
}

/// A check is met when the endpoint did not configure it or it came out true.
pub open spec fn met(check: Option<bool>) -> bool {
    check is None || check == Some(true)
}

impl Expected {
    /// Every check that is not `None` is `Some(true)`.
    pub open spec fn passing(self) -> bool {
        met(self.body) && met(self.status_code) && met(self.headers)
    }

    /// Whether every configured check came out true. With no check
    /// configured this holds.
    pub fn passes(&self) -> (ok: bool)
        ensures
            ok == self.passing(),
    {
        let body = match self.body {
            Some(b) => b,
            None => true,
        };
        let status = match self.status_code {
            Some(b) => b,
            None => true,
        };
        let headers = match self.headers {
            Some(b) => b,
            None => true,
        };
        body && status && headers
    }
}

/// The part of an endpoint's configuration that a verdict carries along.
#[derive(Clone, Debug)]
pub struct SimpleConfig {
    pub num_cycles: u64,
    pub num_concurrent_requests: u64,
    pub endpoint_name: String,
    pub endpoint_url: String,
}

/// The verdict on one endpoint in one run.
#[derive(Clone, Debug)]
pub struct Test {
    /// The expectations pass and the latency is within the threshold.
    pub success: bool,
    pub within_threshold: bool,
    pub expected: Expected,
    pub stats: LoadStats,
    pub config: SimpleConfig,
}

/// One of the three checks that an endpoint may configure.
#[derive(Clone, Copy, Debug, PartialEq, Eq, Structural)]
pub enum Check {
    Body,
    StatusCode,
    Headers,
}

impl Expected {
    /// The outcome of one of the three checks.
    pub open spec fn check(self, which: Check) -> Option<bool> {
        match which {
            Check::Body => self.body,
            Check::StatusCode => self.status_code,
            Check::Headers => self.headers,
        }
    }
}

/// Whether the endpoint configured a check.
pub open spec fn configured(endpoint: EndpointConfig, which: Check) -> bool {
    match which {
        Check::Body => endpoint.expected_body is Some,
        Check::StatusCode => endpoint.expected_status is Some,
        Check::Headers => endpoint.expected_headers is Some,
    }
}

/// Every outcome in the list has the check at `Some(true)`.
pub open spec fn all_pass(outcomes: Seq<Expected>, which: Check) -> bool {
    forall|i: int| 0 <= i < outcomes.len() ==> (#[trigger] outcomes[i]).check(which) == Some(true)
}

/// What one check reduces to over a list of outcomes: absent where the
/// endpoint did not configure it, and else true exactly when it is true in
/// every outcome of the list.
pub open spec fn reduced_check(outcomes: Seq<Expected>, endpoint: EndpointConfig, which: Check)
    -> Option<bool> {
    if configured(endpoint, which) {
        Some(all_pass(outcomes, which))
    } else {
        None
    }
}

/// The one outcome that a list of outcomes reduces to for an endpoint, check
/// by check.
pub open spec fn reduced(outcomes: Seq<Expected>, endpoint: EndpointConfig) -> Expected {
    Expected {
        body: reduced_check(outcomes, endpoint, Check::Body),
        status_code: reduced_check(outcomes, endpoint, Check::StatusCode),
        headers: reduced_check(outcomes, endpoint, Check::Headers),
    }
}

/// A list passes a check exactly when its front does and its last outcome does.
proof fn lemma_all_pass_push(outcomes: Seq<Expected>, next: Expected, which: Check)
    ensures
        all_pass(outcomes.push(next), which) == (all_pass(outcomes, which) && next.check(which)
            == Some(true)),
{
    let longer = outcomes.push(next);
    assert(longer[outcomes.len() as int] == next);
    if all_pass(longer, which) {
        assert forall|i: int| 0 <= i < outcomes.len() implies (#[trigger] outcomes[i]).check(which)
            == Some(true) by {
            assert(longer[i] == outcomes[i]);
        }
    }
    if all_pass(outcomes, which) && next.check(which) == Some(true) {
        assert forall|i: int| 0 <= i < longer.len() implies (#[trigger] longer[i]).check(which)
            == Some(true) by {
            if i < outcomes.len() {
                assert(longer[i] == outcomes[i]);
            }
        }
    }
}

/// Two lists joined pass a check exactly when each of them does.
proof fn lemma_all_pass_joined(left: Seq<Expected>, right: Seq<Expected>, which: Check)
    ensures
        all_pass(left + right, which) == (all_pass(left, which) && all_pass(right, which)),
{
    let joined = left + right;
    if all_pass(joined, which) {
        assert forall|i: int| 0 <= i < left.len() implies (#[trigger] left[i]).check(which)
            == Some(true) by {
            assert(joined[i] == left[i]);
        }
        assert forall|i: int| 0 <= i < right.len() implies (#[trigger] right[i]).check(which)
            == Some(true) by {
            assert(joined[left.len() + i] == right[i]);
        }
    }
    if all_pass(left, which) && all_pass(right, which) {
        assert forall|i: int| 0 <= i < joined.len() implies (#[trigger] joined[i]).check(which)
            == Some(true) by {
            if i < left.len() {
                assert(joined[i] == left[i]);
            } else {
                assert(joined[i] == right[i - left.len()]);
            }
        }
    }
}

/// Two outcomes pass a check, as a list, exactly when each of them does.
proof fn lemma_all_pass_pair(first: Expected, second: Expected, which: Check)
    ensures
        all_pass(seq![first, second], which) == (first.check(which) == Some(true) && second.check(
            which,
        ) == Some(true)),
{
    let pair = seq![first, second];
    assert(pair[0] == first);
    assert(pair[1] == second);
}

/// A list passes a check if every outcome of it occurs in a list that does.
proof fn lemma_all_pass_among(outcomes: Seq<Expected>, others: Seq<Expected>, which: Check)
    requires
        all_pass(others, which),
        forall|i: int| 0 <= i < outcomes.len() ==> others.contains(#[trigger] outcomes[i]),
    ensures
        all_pass(outcomes, which),
{
    assert forall|i: int| 0 <= i < outcomes.len() implies (#[trigger] outcomes[i]).check(which)
        == Some(true) by {
        let k = choose|k: int| 0 <= k < others.len() && others[k] == outcomes[i];
        assert(others[k].check(which) == Some(true));
    }
}

/// Reducing in parts: the reduced outcomes of two lists reduce to what the
/// two lists, joined, reduce to.
pub proof fn lemma_reduce_in_parts(
    left: Seq<Expected>,
    right: Seq<Expected>,
    endpoint: EndpointConfig,
)
    ensures
        reduced(seq![reduced(left, endpoint), reduced(right, endpoint)], endpoint) == reduced(
            left + right,
            endpoint,
        ),
{
    let first = reduced(left, endpoint);
    let second = reduced(right, endpoint);
    lemma_all_pass_pair(first, second, Check::Body);
    lemma_all_pass_pair(first, second, Check::StatusCode);
    lemma_all_pass_pair(first, second, Check::Headers);
    lemma_all_pass_joined(left, right, Check::Body);
    lemma_all_pass_joined(left, right, Check::StatusCode);
    lemma_all_pass_joined(left, right, Check::Headers);
}

/// Reducing a list and then merging the result with one more outcome yields
/// what reducing the longer list yields.
pub proof fn lemma_reduce_then_merge(
    outcomes: Seq<Expected>,
    next: Expected,
    endpoint: EndpointConfig,
)
    ensures
        reduced(seq![reduced(outcomes, endpoint), next], endpoint) == reduced(
            outcomes.push(next),
            endpoint,
        ),
{
    let first = reduced(outcomes, endpoint);
    lemma_all_pass_pair(first, next, Check::Body);
    lemma_all_pass_pair(first, next, Check::StatusCode);
    lemma_all_pass_pair(first, next, Check::Headers);
    lemma_all_pass_push(outcomes, next, Check::Body);
    lemma_all_pass_push(outcomes, next, Check::StatusCode);
    lemma_all_pass_push(outcomes, next, Check::Headers);
}

/// Reduction does not depend on order: two lists that hold the same outcomes
/// the same number of times reduce to the same outcome.
pub proof fn lemma_reduce_any_order(
    first: Seq<Expected>,
    second: Seq<Expected>,
    endpoint: EndpointConfig,
)
    requires
        first.to_multiset() == second.to_multiset(),
    ensures
        reduced(first, endpoint) == reduced(second, endpoint),
{
    first.to_multiset_ensures();
    second.to_multiset_ensures();
    assert forall|i: int| 0 <= i < first.len() implies second.contains(#[trigger] first[i]) by {
        assert(first.contains(first[i]));
        assert(first.to_multiset().count(first[i]) > 0);
    }
    assert forall|i: int| 0 <= i < second.len() implies first.contains(#[trigger] second[i]) by {
        assert(second.contains(second[i]));
        assert(second.to_multiset().count(second[i]) > 0);
    }
    assert forall|which: Check| all_pass(first, which) == all_pass(second, which) by {
        if all_pass(first, which) {
            lemma_all_pass_among(second, first, which);
        }
        if all_pass(second, which) {
            lemma_all_pass_among(first, second, which);
        }
    }
}

/// Reduces a list of outcomes to one, check by check.
pub fn reduce_expectations(outcomes: &Vec<Expected>, endpoint: &EndpointConfig) -> (outcome:
    Expected)
    ensures
        outcome == reduced(outcomes@, *endpoint),
{
    let mut bodies = true;
    let mut statuses = true;
    let mut headers = true;
    let mut i: usize = 0;
    while i < outcomes.len()
        invariant
            i <= outcomes@.len(),
            bodies == all_pass(outcomes@.take(i as int), Check::Body),
            statuses == all_pass(outcomes@.take(i as int), Check::StatusCode),
            headers == all_pass(outcomes@.take(i as int), Check::Headers),
        decreases outcomes@.len() - i,
    {
        let one = &outcomes[i];
        proof {
            assert(outcomes@.take(i + 1) =~= outcomes@.take(i as int).push(*one));
            lemma_all_pass_push(outcomes@.take(i as int), *one, Check::Body);
            lemma_all_pass_push(outcomes@.take(i as int), *one, Check::StatusCode);
            lemma_all_pass_push(outcomes@.take(i as int), *one, Check::Headers);
        }
        bodies = bodies && match one.body {
            Some(true) => true,
            _ => false,
        };
        statuses = statuses && match one.status_code {
            Some(true) => true,
            _ => false,
        };
        headers = headers && match one.headers {
            Some(true) => true,
            _ => false,
        };
        i += 1;
    }
    proof {
        assert(outcomes@.take(outcomes@.len() as int) =~= outcomes@);
    }
    Expected {
        body: match endpoint.expected_body {
            Some(_) => Some(bodies),
            None => None,
        },
        status_code: match endpoint.expected_status {
            Some(_) => Some(statuses),
            None => None,
        },
        headers: match endpoint.expected_headers {
            Some(_) => Some(headers),
            None => None,
        },
    }
}

/// What one call shows of the endpoint's expectations.
///
/// The status check compares the two codes. The body and the headers checks
/// fail where the response has none, and else hold exactly when the response's
/// equals the expected one: for headers, the same names with the same values,
/// none more and none less. A check that the endpoint did not configure is
/// absent.
pub open spec fn expected_of(endpoint: EndpointConfig, request: RequestOutput) -> Expected {
    Expected {
        body: match endpoint.expected_body {
            None => None,
            Some(expected) => match request.response_body {
                None => Some(false),
                Some(actual) => Some(json_equal(expected, actual)),
            },
        },
        status_code: match endpoint.expected_status {
            None => None,
            Some(expected) => Some(expected == request.status),
        },
        headers: match endpoint.expected_headers {
            None => None,
            Some(expected) => match request.response_headers {
                None => Some(false),
                Some(actual) => Some(expected@ == actual@),
            },
        },
    }
}

/// What each call of a cycle shows.
pub open spec fn cycle_outcomes(endpoint: EndpointConfig, cycle: Seq<RequestOutput>) -> Seq<
    Expected,
> {
    Seq::new(cycle.len(), |j: int| expected_of(endpoint, cycle[j]))
}

/// What a cycle shows: the outcomes of its calls, reduced.
pub open spec fn cycle_expected(endpoint: EndpointConfig, cycle: Seq<RequestOutput>) -> Expected {
    reduced(cycle_outcomes(endpoint, cycle), endpoint)
}

/// What each cycle of a run shows.
pub open spec fn run_outcomes(endpoint: EndpointConfig, cycles: Seq<SingleCycle>) -> Seq<
    Expected,
> {
    Seq::new(cycles.len(), |i: int| cycle_expected(endpoint, cycles[i]@))
}

/// What a run shows: the outcomes of its cycles, reduced.
pub open spec fn run_expected(endpoint: EndpointConfig, cycles: Seq<SingleCycle>) -> Expected {
    reduced(run_outcomes(endpoint, cycles), endpoint)
}

/// The regression check: with no earlier verdict it always holds; with one,
/// it holds exactly when the average stays below the earlier average plus the
/// endpoint's tolerance.
pub open spec fn within(average: Ratio, endpoint: EndpointConfig, previous: Option<Test>) -> bool {
    match previous {
        Some(previous) => average.below(
            previous.stats.average_response_time@.plus(endpoint.tolerance() as int),
        ),
        None => true,
    }
}

/// The figures describe the durations of a run: the average is the mean of
/// the means of the cycles, as a fraction with a positive denominator, and
/// the other two are the shortest and the longest duration.
pub open spec fn describes(stats: LoadStats, durations: Seq<Seq<nat>>) -> bool {
    &&& stats.average_response_time@.den > 0
    &&& stats.average_response_time@.same(mean_of_means(durations))
    &&& is_min(durations, stats.min_response_time as nat)
    &&& is_max(durations, stats.max_response_time as nat)
}

/// `test` is the verdict on a run of `endpoint`, given the earlier verdict on
/// that endpoint if there is one.
pub open spec fn is_verdict(
    test: Test,
    load: SingleLoad,
    endpoint: EndpointConfig,
    previous: Option<Test>,
) -> bool {
    &&& test.expected == run_expected(endpoint, load.cycles@)
    &&& describes(test.stats, load.durations())
    &&& test.within_threshold == within(test.stats.average_response_time@, endpoint, previous)
    &&& test.success == (test.expected.passing() && test.within_threshold)
    &&& test.config.num_cycles == load.cycles@.len()
    &&& test.config.num_concurrent_requests == load.cycles@[0]@.len()
    &&& test.config.endpoint_name == load.endpoint_name
    &&& test.config.endpoint_url == endpoint.url
}

/// The snapshot that was handed in, if one was.
pub open spec fn given(snapshot: Option<&Snapshot>) -> Option<Snapshot> {
    match snapshot {
        Some(snapshot) => Some(*snapshot),
        None => None,
    }
}

/// Why a run cannot be judged, if it cannot: its endpoint is not configured,
/// or there is a snapshot and it holds no verdict on the endpoint.
pub open spec fn load_error(load: SingleLoad, config: Config, snapshot: Option<Snapshot>) -> Option<
    Error,
> {
    if config.named(load.endpoint_name@) is None {
        Some(Error::EndpointNotFound)
    } else if snapshot matches Some(snapshot) && snapshot.named(load.endpoint_name@) is None {
        Some(Error::SnapshotEntryNotFound)
    } else {
        None
    }
}

/// The earlier verdict on the endpoint of a run, where there is a snapshot.
pub open spec fn previous_of(load: SingleLoad, snapshot: Option<Snapshot>) -> Option<Test> {
    match snapshot {
        Some(snapshot) => snapshot.named(load.endpoint_name@),
        None => None,
    }
}

/// A check holds in every call of every cycle of a run.
pub open spec fn every_call_passes(
    endpoint: EndpointConfig,
    cycles: Seq<SingleCycle>,
    which: Check,
) -> bool {
    forall|i: int, j: int|
        0 <= i < cycles.len() && 0 <= j < cycles[i]@.len() ==> (#[trigger] expected_of(
            endpoint,
            cycles[i]@[j],
        )).check(which) == Some(true)
}

/// The two levels of reduction add nothing: a configured check holds for a
/// run exactly when it holds in every call of every cycle, so one failing
/// call fails the endpoint; a check that is not configured stays absent.
pub proof fn lemma_run_expected_by_call(
    endpoint: EndpointConfig,
    cycles: Seq<SingleCycle>,
    which: Check,
)
    ensures
        run_expected(endpoint, cycles).check(which) == if configured(endpoint, which) {
            Some(every_call_passes(endpoint, cycles, which))
        } else {
            None
        },
{
    let per_cycle = run_outcomes(endpoint, cycles);
    if configured(endpoint, which) {
        if all_pass(per_cycle, which) {
            assert forall|i: int, j: int|
                0 <= i < cycles.len() && 0 <= j < cycles[i]@.len() implies (#[trigger] expected_of(
                endpoint,
                cycles[i]@[j],
            )).check(which) == Some(true) by {
                assert(per_cycle[i].check(which) == Some(true));
                let calls = cycle_outcomes(endpoint, cycles[i]@);
                assert(all_pass(calls, which));
                assert(calls[j].check(which) == Some(true));
            }
        }
        if every_call_passes(endpoint, cycles, which) {
            assert forall|i: int| 0 <= i < per_cycle.len() implies (#[trigger] per_cycle[i]).check(
                which,
            ) == Some(true) by {
                let calls = cycle_outcomes(endpoint, cycles[i]@);
                assert forall|j: int| 0 <= j < calls.len() implies (#[trigger] calls[j]).check(
                    which,
                ) == Some(true) by {
                    assert(expected_of(endpoint, cycles[i]@[j]).check(which) == Some(true));
                }
            }
        }
    }
}

/// Judges one call against the endpoint's expectations.
pub fn check_request(endpoint: &EndpointConfig, request: &RequestOutput) -> (outcome: Expected)
    ensures
        outcome == expected_of(*endpoint, *request),
{
    let status_code = match endpoint.expected_status {
        Some(expected) => Some(expected == request.status),
        None => None,
    };
    let body = match &endpoint.expected_body {
        None => None,
        Some(expected) => match &request.response_body {
            None => Some(false),
            Some(actual) => Some(json_matches(expected, actual)),
        },
    };
    let headers = match &endpoint.expected_headers {
        None => None,
        Some(expected) => match &request.response_headers {
            None => Some(false),
            Some(actual) => Some(expected.same_as(actual)),
        },
    };
    Expected { body, status_code, headers }
}

/// Judges the calls of one cycle and reduces their outcomes.
pub fn check_cycle(endpoint: &EndpointConfig, cycle: &SingleCycle) -> (outcome: Expected)
    ensures
        outcome == cycle_expected(*endpoint, cycle@),
{
    let mut outcomes: Vec<Expected> = Vec::new();
    let mut j: usize = 0;
    while j < cycle.len()
        invariant
            j <= cycle@.len(),
            outcomes@ == cycle_outcomes(*endpoint, cycle@).take(j as int),
        decreases cycle@.len() - j,
    {
        outcomes.push(check_request(endpoint, &cycle[j]));
        proof {
            assert(outcomes@ =~= cycle_outcomes(*endpoint, cycle@).take(j + 1));
        }
        j += 1;
    }
    proof {
        assert(outcomes@ =~= cycle_outcomes(*endpoint, cycle@));
    }
    reduce_expectations(&outcomes, endpoint)
}

/// Judges the cycles of a run and reduces their outcomes.
pub fn check_run(endpoint: &EndpointConfig, cycles: &Vec<SingleCycle>) -> (outcome: Expected)
    ensures
        outcome == run_expected(*endpoint, cycles@),
{
    let mut outcomes: Vec<Expected> = Vec::new();
    let mut i: usize = 0;
    while i < cycles.len()
        invariant
            i <= cycles@.len(),
            outcomes@ == run_outcomes(*endpoint, cycles@).take(i as int),
        decreases cycles@.len() - i,
    {
        outcomes.push(check_cycle(endpoint, &cycles[i]));
        proof {
            assert(outcomes@ =~= run_outcomes(*endpoint, cycles@).take(i + 1));
        }
        i += 1;
    }
    proof {
        assert(outcomes@ =~= run_outcomes(*endpoint, cycles@));
    }
    reduce_expectations(&outcomes, endpoint)
}

/// The sum, the least and the greatest duration of one cycle.
fn cycle_stats(cycle: &SingleCycle) -> (stats: (u128, u64, u64))
    requires
        cycle@.len() >= 1,
    ensures
        stats.0 == sum(cycle_durations(cycle@)),
        stats.0 <= cycle@.len() * u64::MAX,
        is_least(cycle_durations(cycle@), stats.1 as nat),
        is_greatest(cycle_durations(cycle@), stats.2 as nat),
{
    let ghost durations = cycle_durations(cycle@);
    let count = cycle.len();
    let mut total: u128 = 0;
    let mut low: u64 = cycle[0].duration;
    let mut high: u64 = cycle[0].duration;
    let ghost mut low_at: int = 0;
    let ghost mut high_at: int = 0;
    let mut j: usize = 0;
    while j < count
        invariant
            count == cycle@.len(),
            durations == cycle_durations(cycle@),
            j <= count,
            total == sum(durations.take(j as int)),
            total <= j * u64::MAX,
            0 <= low_at < count && durations[low_at] == low,
            0 <= high_at < count && durations[high_at] == high,
            forall|k: int| 0 <= k < j ==> low <= #[trigger] durations[k] && durations[k] <= high,
        decreases count - j,
    {
        let duration = cycle[j].duration;
        proof {
            assert(durations[j as int] == duration);
            assert(durations.take(j + 1) =~= durations.take(j as int).push(duration as nat));
            lemma_sum_push(durations.take(j as int), duration as nat);
            assert((j + 1) * u64::MAX <= usize::MAX * u64::MAX) by (nonlinear_arith)
                requires
                    j + 1 <= usize::MAX,
            ;
            assert(usize::MAX * u64::MAX <= u128::MAX) by (nonlinear_arith)
                requires
                    usize::MAX <= u64::MAX,
            ;
            assert(j * u64::MAX + u64::MAX == (j + 1) * u64::MAX) by (nonlinear_arith);
        }
        total = total + duration as u128;
        if duration < low {
            low = duration;
            proof {
                low_at = j as int;
            }
        }
        if duration > high {
            high = duration;
            proof {
                high_at = j as int;
            }
        }
        j += 1;
    }
    proof {
        assert(durations.take(count as int) =~= durations);
    }
    (total, low, high)
}

/// The latency figures of a run: the exact mean of the per-cycle means, and
/// the shortest and the longest call of all.
pub fn load_stats(load: &SingleLoad) -> (stats: LoadStats)
    requires
        load.measurable(),
    ensures
        describes(stats, load.durations()),
{
    let ghost durations = load.durations();
    let count = load.cycles.len();
    proof {
        assert(none_empty(durations)) by {
            assert forall|k: int| 0 <= k < durations.len() implies (#[trigger] durations[k]).len()
                > 0 by {
                assert(load.cycles@[k]@.len() >= 1);
            }
        }
        lemma_common_positive(durations);
        lemma_common_divides(durations);
    }
    let shared: u64 = shared_size(load);
    let ghost scale = shared as int;
    let first = cycle_stats(&load.cycles[0]);
    let mut wholes: u128 = 0;
    let mut parts: u128 = 0;
    let mut low: u64 = first.1;
    let mut high: u64 = first.2;
    let ghost mut low_at: (int, int) = (0, 0);
    let ghost mut high_at: (int, int) = (0, 0);
    proof {
        let row = cycle_durations(load.cycles@[0]@);
        assert(durations[0] == row);
        let l = choose|j: int| 0 <= j < row.len() && row[j] == low;
        let h = choose|j: int| 0 <= j < row.len() && row[j] == high;
        low_at = (0, l);
        high_at = (0, h);
    }
    let mut i: usize = 0;
    while i < count
        invariant
            load.measurable(),
            none_empty(durations),
            count == load.cycles@.len(),
            durations == load.durations(),
            scale == shared == common(durations),
            scale >= 1,
            count * scale <= u64::MAX,
            forall|k: int|
                0 <= k < durations.len() ==> scale % ((#[trigger] durations[k]).len() as int) == 0,
            i <= count,
            wholes * scale + parts == scaled(durations.take(i as int), scale),
            wholes <= i * u64::MAX,
            parts + i <= i * scale,
            0 <= low_at.0 < durations.len() && 0 <= low_at.1 < durations[low_at.0].len()
                && durations[low_at.0][low_at.1] == low,
            0 <= high_at.0 < durations.len() && 0 <= high_at.1 < durations[high_at.0].len()
                && durations[high_at.0][high_at.1] == high,
            forall|k: int, j: int|
                0 <= k < i && 0 <= j < durations[k].len() ==> low <= #[trigger] durations[k][j]
                    && durations[k][j] <= high,
        decreases count - i,
    {
        let one = cycle_stats(&load.cycles[i]);
        let size = load.cycles[i].len() as u128;
        let quotient: u128 = one.0 / size;
        let rest: u128 = one.0 % size;
        let share: u128 = shared as u128 / size;
        proof {
            let row = cycle_durations(load.cycles@[i as int]@);
            assert(durations[i as int] == row);
            assert(row.len() == size);
            assert(durations.take(i + 1).drop_last() =~= durations.take(i as int));
            assert(durations.take(i + 1).last() == row);
            assert(scale % (size as int) == 0);
            let s = one.0 as int;
            let m = size as int;
            let q = quotient as int;
            let r = rest as int;
            let h = share as int;
            assert(s == q * m + r && 0 <= r < m && scale == h * m && q <= u64::MAX && r * h + 1
                <= scale && s * h == q * scale + r * h && r * h >= 0) by (nonlinear_arith)
                requires
                    q == s / m,
                    r == s % m,
                    h == scale / m,
                    scale % m == 0,
                    m >= 1,
                    0 <= s <= m * u64::MAX,
                    scale >= 1,
            ;
            assert((i + 1) * u64::MAX <= usize::MAX * u64::MAX) by (nonlinear_arith)
                requires
                    i + 1 <= usize::MAX,
            ;
            assert(usize::MAX * u64::MAX <= u128::MAX) by (nonlinear_arith)
                requires
                    usize::MAX <= u64::MAX,
            ;
            assert(i * u64::MAX + u64::MAX == (i + 1) * u64::MAX) by (nonlinear_arith);
            assert(i * scale + scale == (i + 1) * scale && (i + 1) * scale <= count * scale)
                by (nonlinear_arith)
                requires
                    i + 1 <= count,
                    scale >= 1,
            ;
            assert((wholes + q) * scale + (parts + r * h) == wholes * scale + parts + s * h)
                by (nonlinear_arith)
                requires
                    s * h == q * scale + r * h,
            ;
            if one.1 < low {
                let l = choose|j: int| 0 <= j < row.len() && row[j] == one.1;
                low_at = (i as int, l);
            }
            if one.2 > high {
                let h = choose|j: int| 0 <= j < row.len() && row[j] == one.2;
                high_at = (i as int, h);
            }
        }
        wholes = wholes + quotient;
        parts = parts + rest * share;
        if one.1 < low {
            low = one.1;
        }
        if one.2 > high {
            high = one.2;
        }
        i += 1;
    }
    proof {
        assert(durations.take(count as int) =~= durations);
    }
    let ghost k = count as int;
    let carry: u128 = parts / (shared as u128);
    let left: u128 = parts % (shared as u128);
    proof {
        let p = parts as int;
        let c = carry as int;
        let l = left as int;
        assert(p == scale * c + l && 0 <= l < scale) by {
            lemma_fundamental_div_mod(p, scale);
            lemma_mod_bound(p, scale);
        }
        assert(0 <= c < k) by (nonlinear_arith)
            requires
                p == scale * c + l,
                0 <= l < scale,
                0 <= p,
                p + k <= k * scale,
                k >= 1,
        ;
        assert(k * u64::MAX + k <= u128::MAX) by (nonlinear_arith)
            requires
                1 <= k <= u64::MAX,
        ;
    }
    let carried: u128 = wholes + carry;
    let whole: u128 = carried / (count as u128);
    let over: u128 = carried % (count as u128);
    proof {
        let t = carried as int;
        let a = whole as int;
        let b = over as int;
        let l = left as int;
        let p = parts as int;
        let w = wholes as int;
        let c = carry as int;
        assert(t == k * a + b && 0 <= b < k) by {
            lemma_fundamental_div_mod(t, k);
            lemma_mod_bound(t, k);
        }
        assert(0 <= a <= u64::MAX) by (nonlinear_arith)
            requires
                t == k * a + b,
                0 <= b < k,
                0 <= t,
                t < k * u64::MAX + k,
                k >= 1,
        ;
        assert(b * scale + scale <= k * scale && b * scale >= 0) by (nonlinear_arith)
            requires
                0 <= b < k,
                scale >= 1,
        ;
        assert(t * scale == w * scale + c * scale) by (nonlinear_arith)
            requires
                t == w + c,
        ;
        assert(c * scale == scale * c) by (nonlinear_arith);
        assert(t * scale == (k * a) * scale + b * scale) by (nonlinear_arith)
            requires
                t == k * a + b,
        ;
        assert((k * a) * scale == a * (k * scale)) by (nonlinear_arith);
        assert(a * (k * scale) + (b * scale + l) == scaled(durations, scale));
        lemma_scaled_is_sum_of_means(durations, scale);
        lemma_sum_of_means_positive(durations);
        let total = scaled(durations, scale);
        let n = sum_of_means(durations).num;
        let d = sum_of_means(durations).den;
        assert(total * (d * k) == (total * d) * k) by (nonlinear_arith);
        assert(n * (k * scale) == (n * scale) * k) by (nonlinear_arith);
        assert(k * scale > 0) by (nonlinear_arith)
            requires
                k >= 1,
                scale >= 1,
        ;
        assert(0 <= low_at.0 < durations.len() && 0 <= low_at.1 < durations[low_at.0].len()
            && durations[low_at.0][low_at.1] == low as nat);
        assert(0 <= high_at.0 < durations.len() && 0 <= high_at.1 < durations[high_at.0].len()
            && durations[high_at.0][high_at.1] == high as nat);
    }
    let numerator: u128 = over * (shared as u128) + left;
    let denominator: u128 = (count as u128) * (shared as u128);
    LoadStats {
        average_response_time: Average::from_parts(
            whole as u64,
            numerator as u64,
            denominator as u64,
        ),
        min_response_time: low,
        max_response_time: high,
    }
}

/// The number that every cycle's size divides and that the average's
/// denominator is built on.
fn shared_size(load: &SingleLoad) -> (shared: u64)
    requires
        load.measurable(),
    ensures
        shared == common(load.durations()),
{
    let ghost durations = load.durations();
    proof {
        assert(none_empty(durations)) by {
            assert forall|k: int| 0 <= k < durations.len() implies (#[trigger] durations[k]).len()
                > 0 by {
                assert(load.cycles@[k]@.len() >= 1);
            }
        }
        lemma_common_positive(durations);
        assert(common(durations) <= load.cycles@.len() * common(durations)) by (nonlinear_arith)
            requires
                load.cycles@.len() >= 1,
                common(durations) >= 1,
        ;
    }
    let mut shared: u64 = 1;
    let mut i: usize = 0;
    while i < load.cycles.len()
        invariant
            load.measurable(),
            none_empty(durations),
            durations == load.durations(),
            common(durations) <= u64::MAX,
            i <= load.cycles@.len(),
            shared == common(durations.take(i as int)),
            shared >= 1,
        decreases load.cycles@.len() - i,
    {
        let size = load.cycles[i].len();
        proof {
            assert(durations.take(i + 1).drop_last() =~= durations.take(i as int));
            assert(durations.take(i + 1).last() == durations[i as int]);
            assert(durations[i as int].len() == size);
            assert(load.cycles@[i as int]@.len() >= 1);
            lemma_common_grows(durations, i + 1);
        }
        if shared % (size as u64) != 0 {
            shared = shared * (size as u64);
        }
        i += 1;
    }
    proof {
        assert(durations.take(load.cycles@.len() as int) =~= durations);
    }
    shared
}

/// The verdict on one run of an endpoint, given the earlier verdict on that
/// endpoint if there is one.
pub fn process_load(load: &SingleLoad, endpoint: &EndpointConfig, previous: Option<&Test>) -> (test:
    Test)
    requires
        load.measurable(),
    ensures
        is_verdict(
            test,
            *load,
            *endpoint,
            match previous {
                Some(previous) => Some(*previous),
                None => None,
            },
        ),
        previous is None ==> test.within_threshold,
        previous matches Some(earlier) ==> test.within_threshold
            == test.stats.average_response_time@.below(
            earlier.stats.average_response_time@.plus(endpoint.tolerance() as int),
        ),
        test.success == (test.expected.passing() && test.within_threshold),
{
    let expected = check_run(endpoint, &load.cycles);
    let stats = load_stats(load);
    let within_threshold = match previous {
        Some(previous) => stats.average_response_time.below_threshold(
            &previous.stats.average_response_time,
            endpoint.threshold_or_default(),
        ),
        None => true,
    };
    Test {
        success: expected.passes() && within_threshold,
        within_threshold,
        expected,
        stats,
        config: SimpleConfig {
            num_cycles: load.cycles.len() as u64,
            num_concurrent_requests: load.cycles[0].len() as u64,
            endpoint_name: load.endpoint_name.clone(),
            endpoint_url: endpoint.url.clone(),
        },
    }
}

/// The verdicts on the runs of an invocation, one per run and in their order.
///
/// Each run is judged against the endpoint of its name and, where there is a
/// snapshot, against the snapshot's verdict on that endpoint. The first run
/// that has no such endpoint, or no such verdict in a snapshot that exists,
/// ends the whole with its error.
pub fn process(loads: &Loads, config: &Config, snapshot: Option<&Snapshot>) -> (verdicts: Result<
    Vec<Test>,
    Error,
>)
    requires
        forall|i: int| 0 <= i < loads@.len() ==> (#[trigger] loads@[i]).measurable(),
    ensures
        match verdicts {
            Ok(tests) => {
                &&& tests@.len() == loads@.len()
                &&& forall|i: int|
                    0 <= i < loads@.len() ==> load_error(
                        #[trigger] loads@[i],
                        *config,
                        given(snapshot),
                    ) is None
                &&& forall|i: int|
                    0 <= i < loads@.len() ==> is_verdict(
                        #[trigger] tests@[i],
                        loads@[i],
                        config.named(loads@[i].endpoint_name@)->0,
                        previous_of(loads@[i], given(snapshot)),
                    )
                &&& snapshot is None ==> forall|i: int|
                    0 <= i < tests@.len() ==> (#[trigger] tests@[i]).within_threshold
            },
            Err(error) => exists|at: int|
                {
                    &&& 0 <= at < loads@.len()
                    &&& load_error(#[trigger] loads@[at], *config, given(snapshot)) == Some(error)
                    &&& forall|i: int|
                        0 <= i < at ==> load_error(#[trigger] loads@[i], *config, given(snapshot))
                            is None
                },
        },
{
    let mut tests: Vec<Test> = Vec::new();
    let mut i: usize = 0;
    while i < loads.len()
        invariant
            i <= loads@.len(),
            forall|k: int| 0 <= k < loads@.len() ==> (#[trigger] loads@[k]).measurable(),
            tests@.len() == i,
            forall|k: int|
                0 <= k < i ==> load_error(#[trigger] loads@[k], *config, given(snapshot)) is None,
            forall|k: int|
                0 <= k < i ==> is_verdict(
                    #[trigger] tests@[k],
                    loads@[k],
                    config.named(loads@[k].endpoint_name@)->0,
                    previous_of(loads@[k], given(snapshot)),
                ),
        decreases loads@.len() - i,
    {
        let load = &loads[i];
        let endpoint = match config.find(&load.endpoint_name) {
            Some(endpoint) => endpoint,
            None => {
                assert(load_error(loads@[i as int], *config, given(snapshot)) == Some(
                    Error::EndpointNotFound,
                ));
                return Err(Error::EndpointNotFound);
            },
        };
        let previous = match snapshot {
            Some(taken) => match taken.find(&load.endpoint_name) {
                Some(previous) => Some(previous),
                None => {
                    assert(load_error(loads@[i as int], *config, given(snapshot)) == Some(
                        Error::SnapshotEntryNotFound,
                    ));
                    return Err(Error::SnapshotEntryNotFound);
                },
            },
            None => None,
        };
        let test = process_load(load, endpoint, previous);
        tests.push(test);
        i += 1;
    }
    Ok(tests)
}

} // verus!
