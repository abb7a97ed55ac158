//! What there is to say of a run against the latest snapshot.

use vstd::prelude::*;
use crate::average::{Average, Delta};
use crate::config::{Config, EndpointConfig};
use crate::error::Error;
use crate::process::{given, Test};
use crate::snapshot::Snapshot;

verus! {

/// An average latency that went over what the last snapshot allows.
#[derive(Clone, Copy, Debug)]
pub struct Breach {
    /// The average of this run, in milliseconds.
    pub actual: Average,
    /// The average of the last snapshot.
    pub expected: Average,
    /// The endpoint's tolerance.
    pub tolerance: u128,
}

/// Why an endpoint failed.
#[derive(Clone, Copy, Debug)]
pub struct Reasons {
    pub threshold: Option<Breach>,
    /// Some response had another status than expected.
    pub status: bool,
    /// Some response had another body than expected, or none.
    pub body: bool,
    /// Some response had other headers than expected, or none.
    pub headers: bool,
}

/// Whether an endpoint passed, and why not if it did not.
#[derive(Clone, Copy, Debug)]
pub enum Outcome {
    Pass,
    Fail(Reasons),
}

/// One latency figure and how it moved since the last snapshot.
#[derive(Clone, Copy, Debug, PartialEq, Eq, Structural)]
pub struct Stat {
    pub value: u64,
    /// This run's figure less the snapshot's; absent without a snapshot's.
    pub delta: Option<i128>,
}

/// The average latency and how it moved since the last snapshot.
#[derive(Clone, Copy, Debug)]
pub struct AverageStat {
    pub value: Average,
    /// This run's average less the snapshot's, exactly; absent without a
    /// snapshot's.
    pub delta: Option<Delta>,
}

/// The report on one endpoint.
#[derive(Clone, Debug)]
pub struct Comparison {
    pub endpoint_name: String,
    pub endpoint_url: String,
    pub outcome: Outcome,
    pub average: AverageStat,
    pub max: Stat,
    pub min: Stat,
}

/// A figure of this run beside the snapshot's.
pub open spec fn stat_of(value: u64, earlier: Option<u64>) -> Stat {
    Stat {
        value,
        delta: match earlier {
            Some(earlier) => Some((value - earlier) as i128),
            None => None,
        },
    }
}

/// `stat` holds an average beside the snapshot's: the average itself and,
/// where there is an earlier one, the exact difference of the two.
pub open spec fn is_average_stat(stat: AverageStat, value: Average, earlier: Option<Average>)
    -> bool {
    &&& stat.value == value
    &&& match earlier {
        Some(earlier) => {
            &&& stat.delta matches Some(delta)
            &&& delta@.den == value@.den * earlier@.den
            &&& delta@.den > 0
            &&& delta@.num == value@.num * earlier@.den - earlier@.num * value@.den
        },
        None => stat.delta is None,
    }
}

/// The reasons that a failed verdict gives. The threshold counts only where
/// there is an earlier verdict to hold the average against; a check counts
/// where it was configured and came out false.
pub open spec fn reasons_of(test: Test, endpoint: EndpointConfig, other: Option<Test>) -> Reasons {
    Reasons {
        threshold: match other {
            Some(other) if !test.within_threshold => Some(
                Breach {
                    actual: test.stats.average_response_time,
                    expected: other.stats.average_response_time,
                    tolerance: endpoint.tolerance(),
                },
            ),
            _ => None,
        },
        status: test.expected.status_code == Some(false),
        body: test.expected.body == Some(false),
        headers: test.expected.headers == Some(false),
    }
}

/// `report` is the report on a verdict, given the endpoint's configuration
/// and the snapshot's verdict on the endpoint, if there is one.
pub open spec fn reports(
    report: Comparison,
    test: Test,
    endpoint: EndpointConfig,
    other: Option<Test>,
) -> bool {
    &&& report.endpoint_name == test.config.endpoint_name
    &&& report.endpoint_url == test.config.endpoint_url
    &&& report.outcome == if test.success {
        Outcome::Pass
    } else {
        Outcome::Fail(reasons_of(test, endpoint, other))
    }
    &&& is_average_stat(
        report.average,
        test.stats.average_response_time,
        match other {
            Some(other) => Some(other.stats.average_response_time),
            None => None,
        },
    )
    &&& report.max == stat_of(
        test.stats.max_response_time,
        match other {
            Some(other) => Some(other.stats.max_response_time),
            None => None,
        },
    )
    &&& report.min == stat_of(
        test.stats.min_response_time,
        match other {
            Some(other) => Some(other.stats.min_response_time),
            None => None,
        },
    )
}

/// The snapshot's verdict on the endpoint of a verdict, if there is a
/// snapshot and it has one.
pub open spec fn other_of(test: Test, latest: Option<Snapshot>) -> Option<Test> {
    match latest {
        Some(latest) => latest.named(test.config.endpoint_name@),
        None => None,
    }
}

/// A figure of this run beside the snapshot's.
fn stat(value: u64, earlier: Option<u64>) -> (stat: Stat)
    ensures
        stat == stat_of(value, earlier),
{
    Stat {
        value,
        delta: match earlier {
            Some(earlier) => Some(value as i128 - earlier as i128),
            None => None,
        },
    }
}

/// Compares one endpoint's result with the snapshot's: whether it passed,
/// the reasons if it did not, and the three latency figures, each with its
/// move since the snapshot where there is one.
pub fn compare_test(test: &Test, endpoint: &EndpointConfig, other: Option<&Test>) -> (report:
    Comparison)
    ensures
        reports(
            report,
            *test,
            *endpoint,
            match other {
                Some(other) => Some(*other),
                None => None,
            },
        ),
{
    let outcome = if test.success {
        Outcome::Pass
    } else {
        let threshold = match other {
            Some(other) => {
                if !test.within_threshold {
                    Some(
                        Breach {
                            actual: test.stats.average_response_time,
                            expected: other.stats.average_response_time,
                            tolerance: endpoint.threshold_or_default(),
                        },
                    )
                } else {
                    None
                }
            },
            None => None,
        };
        Outcome::Fail(
            Reasons {
                threshold,
                status: matches!(test.expected.status_code, Some(false)),
                body: matches!(test.expected.body, Some(false)),
                headers: matches!(test.expected.headers, Some(false)),
            },
        )
    };
    let (delta, max, min) = match other {
        Some(other) => (
            Some(test.stats.average_response_time.minus(&other.stats.average_response_time)),
            Some(other.stats.max_response_time),
            Some(other.stats.min_response_time),
        ),
        None => (None, None, None),
    };
    Comparison {
        endpoint_name: test.config.endpoint_name.clone(),
        endpoint_url: test.config.endpoint_url.clone(),
        outcome,
        average: AverageStat { value: test.stats.average_response_time, delta },
        max: stat(test.stats.max_response_time, max),
        min: stat(test.stats.min_response_time, min),
    }
}

/// The number of verdicts in a list that are successes.
pub open spec fn successes(tests: Seq<Test>) -> nat
    decreases tests.len(),
{
    if tests.len() == 0 {
        0
    } else {
        successes(tests.drop_last()) + if tests.last().success {
            1nat
        } else {
            0nat
        }
    }
}

/// How many endpoints passed and how many failed.
pub fn tally(tests: &Vec<Test>) -> (counts: (usize, usize))
    ensures
        counts.0 == successes(tests@),
        counts.0 + counts.1 == tests@.len(),
{
    let mut passed: usize = 0;
    let mut i: usize = 0;
    while i < tests.len()
        invariant
            i <= tests@.len(),
            passed <= i,
            passed == successes(tests@.take(i as int)),
        decreases tests@.len() - i,
    {
        proof {
            assert(tests@.take(i + 1).drop_last() =~= tests@.take(i as int));
        }
        if tests[i].success {
            passed += 1;
        }
        i += 1;
    }
    proof {
        assert(tests@.take(tests@.len() as int) =~= tests@);
    }
    (passed, tests.len() - passed)
}

/// The reports on the verdicts of a run, one per verdict and in their order.
///
/// A verdict is held against the latest snapshot's verdict on the same
/// endpoint, where there is one. Nothing is changed, here or in the history.
/// The first verdict whose endpoint the configuration lacks ends the whole
/// with `EndpointNotFound`.
pub fn compare_tests(tests: &Vec<Test>, config: &Config, latest: Option<&Snapshot>) -> (compared:
    Result<Vec<Comparison>, Error>)
    ensures
        match compared {
            Ok(list) => {
                &&& list@.len() == tests@.len()
                &&& forall|i: int|
                    0 <= i < tests@.len() ==> config.named(
                        (#[trigger] tests@[i]).config.endpoint_name@,
                    ) is Some
                &&& forall|i: int|
                    0 <= i < tests@.len() ==> reports(
                        #[trigger] list@[i],
                        tests@[i],
                        config.named(tests@[i].config.endpoint_name@)->0,
                        other_of(tests@[i], given(latest)),
                    )
            },
            Err(error) => {
                &&& error == Error::EndpointNotFound
                &&& exists|i: int|
                    0 <= i < tests@.len() && config.named(
                        (#[trigger] tests@[i]).config.endpoint_name@,
                    ) is None
            },
        },
{
    let mut list: Vec<Comparison> = Vec::new();
    let mut i: usize = 0;
    while i < tests.len()
        invariant
            i <= tests@.len(),
            list@.len() == i,
            forall|k: int|
                0 <= k < i ==> config.named((#[trigger] tests@[k]).config.endpoint_name@) is Some,
            forall|k: int|
                0 <= k < i ==> reports(
                    #[trigger] list@[k],
                    tests@[k],
                    config.named(tests@[k].config.endpoint_name@)->0,
                    other_of(tests@[k], given(latest)),
                ),
        decreases tests@.len() - i,
    {
        let test = &tests[i];
        let other = match latest {
            Some(snapshot) => snapshot.find(&test.config.endpoint_name),
            None => None,
        };
        let endpoint = match config.find(&test.config.endpoint_name) {
            Some(endpoint) => endpoint,
            None => {
                assert(config.named(tests@[i as int].config.endpoint_name@) is None);
                return Err(Error::EndpointNotFound);
            },
        };
        list.push(compare_test(test, endpoint, other));
        i += 1;
    }
    Ok(list)
}

} // verus!
