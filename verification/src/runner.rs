//! The schedule of a run: warm-up bursts, then measured cycles, endpoint by
//! endpoint.

use vstd::prelude::*;
use crate::config::{Config, EndpointConfig};
use crate::request::RequestOutput;
use crate::stats::{
    all_of_size,
    common,
    lemma_common_grows,
    lemma_common_of_equal_cycles,
    none_empty,
};

verus! {

/// The outcomes of the calls fired together in one round.
pub type SingleCycle = Vec<RequestOutput>;

/// Everything measured for one endpoint in one invocation.
#[derive(Clone, Debug)]
pub struct SingleLoad {
    /// The measured cycles in the order in which they ran.
    pub cycles: Vec<SingleCycle>,
    pub num_cycles: u64,
    pub num_concurrent_requests: u64,
    pub endpoint_name: String,
    pub endpoint_url: String,
}

/// The runs of all endpoints, in the order of the configuration.
pub type Loads = Vec<SingleLoad>;

/// The durations of the calls of one cycle, in milliseconds.
pub open spec fn cycle_durations(cycle: Seq<RequestOutput>) -> Seq<nat> {
    Seq::new(cycle.len(), |j: int| cycle[j].duration as nat)
}

/// The durations of the calls of a run, cycle by cycle.
pub open spec fn run_durations(cycles: Seq<SingleCycle>) -> Seq<Seq<nat>> {
    Seq::new(cycles.len(), |i: int| cycle_durations(cycles[i]@))
}

impl SingleLoad {
    /// The durations of all calls, cycle by cycle.
    pub open spec fn durations(self) -> Seq<Seq<nat>> {
        run_durations(self.cycles@)
    }

    /// There is at least one cycle, no cycle is empty, and the average can
    /// be written with a denominator that fits a `u64`: the number of cycles
    /// times a number that every cycle's size divides. For cycles of one size
    /// that is the number of calls in the run.
    pub open spec fn measurable(self) -> bool {
        &&& self.cycles@.len() >= 1
        &&& forall|i: int| 0 <= i < self.cycles@.len() ==> (#[trigger] self.cycles@[i])@.len() >= 1
        &&& self.cycles@.len() * common(self.durations()) <= u64::MAX
    }

    /// There are `cycles` cycles of `calls` calls each, and the counts that
    /// the run carries say so.
    pub open spec fn shaped(self, cycles: u64, calls: u64) -> bool {
        &&& self.num_cycles == cycles
        &&& self.num_concurrent_requests == calls
        &&& self.cycles@.len() == cycles
        &&& forall|i: int| 0 <= i < self.cycles@.len() ==> (#[trigger] self.cycles@[i])@.len() == calls
    }

    /// Whether statistics can be taken: there is at least one cycle, no
    /// cycle is empty, and the average's denominator fits a `u64`.
    pub fn is_measurable(&self) -> (yes: bool)
        ensures
            yes == self.measurable(),
    {
        let ghost durations = self.durations();
        let count = self.cycles.len();
        if count == 0 {
            return false;
        }
        let mut shared: u64 = 1;
        let mut i: usize = 0;
        while i < count
            invariant
                count == self.cycles@.len(),
                durations == self.durations(),
                i <= count,
                forall|k: int| 0 <= k < i ==> (#[trigger] self.cycles@[k])@.len() >= 1,
                shared == common(durations.take(i as int)),
                shared >= 1,
            decreases count - i,
        {
            let size = self.cycles[i].len();
            if size == 0 {
                return false;
            }
            proof {
                assert(durations.take(i + 1).drop_last() =~= durations.take(i as int));
                assert(durations.take(i + 1).last() == durations[i as int]);
                assert(durations[i as int].len() == size);
            }
            if shared % (size as u64) != 0 {
                proof {
                    assert(shared * size <= u64::MAX * u64::MAX) by (nonlinear_arith)
                        requires
                            0 <= shared <= u64::MAX,
                            0 <= size <= u64::MAX,
                    ;
                    assert(shared * size >= 1) by (nonlinear_arith)
                        requires
                            shared >= 1,
                            size >= 1,
                    ;
                }
                let wider: u128 = (shared as u128) * (size as u128);
                if wider > u64::MAX as u128 {
                    proof {
                        if self.measurable() {
                            assert(none_empty(durations)) by {
                                assert forall|k: int| 0 <= k < durations.len() implies (
                                #[trigger] durations[k]).len() > 0 by {
                                    assert(self.cycles@[k]@.len() >= 1);
                                }
                            }
                            lemma_common_grows(durations, i + 1);
                            assert(count * common(durations) >= common(durations))
                                by (nonlinear_arith)
                                requires
                                    count >= 1,
                                    common(durations) >= 1,
                            ;
                        }
                    }
                    return false;
                }
                shared = wider as u64;
            }
            i += 1;
        }
        proof {
            assert(durations.take(count as int) =~= durations);
            assert(count * shared <= u64::MAX * u64::MAX) by (nonlinear_arith)
                requires
                    0 <= count <= u64::MAX,
                    0 <= shared <= u64::MAX,
            ;
        }
        (count as u128) * (shared as u128) <= u64::MAX as u128
    }
}

/// The pause after every warm-up burst and every measured cycle, in
/// milliseconds.
pub const SETTLE_MILLIS: u64 = 100;

/// The number of warm-up bursts before `cycles` measured cycles: half of
/// them, rounded up.
pub open spec fn ramp_steps(cycles: u64) -> int {
    (cycles + 1) / 2
}

/// A warm-up burst of `raw` calls, held between one call and the
/// endpoint's concurrency.
pub open spec fn ramp_size(raw: u64, concurrent_requests: u64) -> int {
    if raw > concurrent_requests {
        concurrent_requests as int
    } else if raw < 1 {
        1
    } else {
        raw as int
    }
}

/// `load` is the finished run of `endpoint`: it has the endpoint's name and
/// address, and as many cycles of as many calls as the endpoint asks for.
pub open spec fn is_run_of(load: SingleLoad, endpoint: EndpointConfig) -> bool {
    &&& load.shaped(endpoint.cycles, endpoint.concurrent_requests)
    &&& load.endpoint_name == endpoint.name
    &&& load.endpoint_url == endpoint.url
}

/// What the driver of a run has to do next.
#[derive(Clone, Copy, Debug, PartialEq, Eq, Structural)]
pub enum Action {
    /// Fire warm-up burst `step` of `steps` at the endpoint, wait until
    /// every call of it has come back, and drop what came back; then report
    /// `Event::Warmed`.
    Warm { endpoint: usize, step: u64, steps: u64 },
    /// Fire `requests` calls at once at the endpoint and wait until every
    /// one of them has come back; then report their outcomes with
    /// `Event::Measured`.
    Measure { endpoint: usize, requests: u64 },
    /// Send nothing for `millis` milliseconds; then report `Event::Settled`.
    Settle { millis: u64 },
    /// Stop: the endpoint asks for a method that cannot be sent. Nothing
    /// has been sent to it.
    Reject { endpoint: usize },
    /// Every endpoint has been run.
    Finish,
}

/// What the driver reports back.
pub enum Event {
    /// A warm-up burst is over.
    Warmed,
    /// A measured cycle is over, with these outcomes.
    Measured(SingleCycle),
    /// A pause is over.
    Settled,
}

/// How far a run has come.
pub struct Progress {
    pub config: Config,
    /// The endpoint at work; the number of endpoints when all are done.
    pub endpoint: nat,
    /// Warm-up bursts done for the endpoint at work.
    pub warmed: nat,
    /// Cycles measured so far for the endpoint at work.
    pub cycles: Seq<SingleCycle>,
    /// The runs of the endpoints before it.
    pub loads: Seq<SingleLoad>,
    /// A burst or a cycle is just over and its pause is still due.
    pub settling: bool,
}

impl Progress {
    /// What is to be done in this state: the pause that is due, if one is;
    /// else, for the endpoint at work, its warm-up bursts one by one unless
    /// it has the warm-up switched off, and then its cycles.
    pub open spec fn pending(self) -> Action {
        if self.settling {
            Action::Settle { millis: SETTLE_MILLIS }
        } else if self.endpoint >= self.config.endpoints@.len() {
            Action::Finish
        } else {
            let endpoint = self.config.endpoints@[self.endpoint as int];
            if !endpoint.method.sendable() {
                Action::Reject { endpoint: self.endpoint as usize }
            } else if endpoint.warms_up() && self.warmed < ramp_steps(endpoint.cycles) {
                Action::Warm {
                    endpoint: self.endpoint as usize,
                    step: self.warmed as u64,
                    steps: ramp_steps(endpoint.cycles) as u64,
                }
            } else {
                Action::Measure {
                    endpoint: self.endpoint as usize,
                    requests: endpoint.concurrent_requests,
                }
            }
        }
    }

    /// Whether `event` answers what is pending: a burst is answered by
    /// `Warmed`, a pause by `Settled`, a cycle by the outcomes of exactly
    /// the calls asked for.
    pub open spec fn accepts(self, event: Event) -> bool {
        match (self.pending(), event) {
            (Action::Warm { .. }, Event::Warmed) => true,
            (Action::Settle { .. }, Event::Settled) => true,
            (Action::Measure { requests, .. }, Event::Measured(results)) => results@.len()
                == requests,
            _ => false,
        }
    }

    /// `next` is the state that `event` leads to from this one.
    ///
    /// A burst is counted, and a cycle is kept after those measured before;
    /// either leaves a pause due. When the cycle is the last that the
    /// endpoint asks for, the cycles become the endpoint's run and the next
    /// endpoint starts from nothing. The end of a pause changes nothing else.
    pub open spec fn steps_to(self, event: Event, next: Progress) -> bool {
        let endpoint = self.config.endpoints@[self.endpoint as int];
        &&& next.config == self.config
        &&& match event {
            Event::Settled => {
                &&& !next.settling
                &&& next.endpoint == self.endpoint
                &&& next.warmed == self.warmed
                &&& next.cycles == self.cycles
                &&& next.loads == self.loads
            },
            Event::Warmed => {
                &&& next.settling
                &&& next.endpoint == self.endpoint
                &&& next.warmed == self.warmed + 1
                &&& next.cycles == self.cycles
                &&& next.loads == self.loads
            },
            Event::Measured(results) => {
                if self.cycles.len() + 1 < endpoint.cycles {
                    &&& next.settling
                    &&& next.endpoint == self.endpoint
                    &&& next.warmed == self.warmed
                    &&& next.cycles == self.cycles.push(results)
                    &&& next.loads == self.loads
                } else {
                    &&& next.settling
                    &&& next.endpoint == self.endpoint + 1
                    &&& next.warmed == 0
                    &&& next.cycles.len() == 0
                    &&& next.loads.len() == self.loads.len() + 1
                    &&& next.loads.drop_last() == self.loads
                    &&& next.loads.last().cycles@ == self.cycles.push(results)
                    &&& is_run_of(next.loads.last(), endpoint)
                }
            },
        }
    }
}

/// The scheduler of a run. It decides, step by step, what the driver does:
/// per endpoint, in the order of the configuration, the warm-up bursts and
/// then the measured cycles, with a pause after each of them.
pub struct Runner {
    config: Config,
    endpoint: usize,
    warmed: u64,
    cycles: Vec<SingleCycle>,
    loads: Loads,
    settling: bool,
}

impl View for Runner {
    type V = Progress;

    closed spec fn view(&self) -> Progress {
        Progress {
            config: self.config,
            endpoint: self.endpoint as nat,
            warmed: self.warmed as nat,
            cycles: self.cycles@,
            loads: self.loads@,
            settling: self.settling,
        }
    }
}

impl Runner {
    #[verifier::type_invariant]
    spec fn sound(self) -> bool {
        let endpoints = self.config.endpoints@;
        &&& forall|i: int| 0 <= i < endpoints.len() ==> (#[trigger] endpoints[i]).well_formed()
        &&& self.endpoint <= endpoints.len()
        &&& self.loads@.len() == self.endpoint
        &&& forall|i: int|
            0 <= i < self.loads@.len() ==> is_run_of(#[trigger] self.loads@[i], endpoints[i])
        &&& self.endpoint < endpoints.len() ==> {
            &&& self.warmed <= ramp_steps(endpoints[self.endpoint as int].cycles)
            &&& self.cycles@.len() < endpoints[self.endpoint as int].cycles
            &&& forall|k: int|
                0 <= k < self.cycles@.len() ==> (#[trigger] self.cycles@[k])@.len()
                    == endpoints[self.endpoint as int].concurrent_requests
        }
    }

    /// The number of warm-up bursts before `cycles` measured cycles: half of
    /// them, rounded up.
    pub fn warm_up_steps(cycles: u64) -> (steps: u64)
        ensures
            steps == ramp_steps(cycles),
    {
        cycles / 2 + cycles % 2
    }

    /// The number of calls in a warm-up burst, from the number `raw` that the
    /// ramp gives for it: `raw` itself, but no more than the endpoint's
    /// concurrency and, that allowing, no less than one.
    pub fn ramp_requests(raw: u64, concurrent_requests: u64) -> (requests: u64)
        ensures
            requests == ramp_size(raw, concurrent_requests),
            concurrent_requests >= 1 ==> 1 <= requests <= concurrent_requests,
    {
        if raw > concurrent_requests {
            concurrent_requests
        } else if raw < 1 {
            1
        } else {
            raw
        }
    }

    /// A scheduler at the start of a run.
    pub fn new(config: Config) -> (runner: Runner)
        requires
            config.well_formed(),
        ensures
            runner@ == (Progress {
                config,
                endpoint: 0,
                warmed: 0,
                cycles: Seq::empty(),
                loads: Seq::empty(),
                settling: false,
            }),
    {
        Runner {
            config,
            endpoint: 0,
            warmed: 0,
            cycles: Vec::new(),
            loads: Vec::new(),
            settling: false,
        }
    }

    /// The configuration that is being run.
    pub fn config(&self) -> (config: &Config)
        ensures
            *config == self@.config,
            forall|i: int|
                0 <= i < config.endpoints@.len() ==> (#[trigger] config.endpoints@[i]).well_formed(),
    {
        proof {
            use_type_invariant(self);
        }
        &self.config
    }

    /// What the driver has to do now.
    pub fn next(&self) -> (action: Action)
        ensures
            action == self@.pending(),
    {
        proof {
            use_type_invariant(self);
        }
        if self.settling {
            return Action::Settle { millis: SETTLE_MILLIS };
        }
        if self.endpoint >= self.config.endpoints.len() {
            return Action::Finish;
        }
        let endpoint = &self.config.endpoints[self.endpoint];
        if !endpoint.method.is_sendable() {
            return Action::Reject { endpoint: self.endpoint };
        }
        let steps = Runner::warm_up_steps(endpoint.cycles);
        if endpoint.should_ramp() && self.warmed < steps {
            Action::Warm { endpoint: self.endpoint, step: self.warmed, steps }
        } else {
            Action::Measure { endpoint: self.endpoint, requests: endpoint.concurrent_requests }
        }
    }

    /// The number of endpoints whose run is finished.
    pub fn completed(&self) -> (count: usize)
        ensures
            count == self@.loads.len(),
    {
        self.loads.len()
    }

    /// Whether `event` answers what is pending.
    pub fn accepts(&self, event: &Event) -> (yes: bool)
        ensures
            yes == self@.accepts(*event),
    {
        match (self.next(), event) {
            (Action::Warm { .. }, Event::Warmed) => true,
            (Action::Settle { .. }, Event::Settled) => true,
            (Action::Measure { requests, .. }, Event::Measured(results)) => results.len() as u64
                == requests,
            _ => false,
        }
    }

    /// Takes in what the driver reports and says what it has to do next.
    pub fn advance(self, event: Event) -> (next: (Runner, Action))
        requires
            self@.accepts(event),
        ensures
            self@.steps_to(event, next.0@),
            next.1 == next.0@.pending(),
    {
        proof {
            use_type_invariant(&self);
        }
        let Runner { config, endpoint, warmed, cycles, loads, settling } = self;
        let runner = match event {
            Event::Settled => Runner { config, endpoint, warmed, cycles, loads, settling: false },
            Event::Warmed => Runner {
                config,
                endpoint,
                warmed: warmed + 1,
                cycles,
                loads,
                settling: true,
            },
            Event::Measured(results) => {
                let mut cycles = cycles;
                let mut loads = loads;
                cycles.push(results);
                let wanted = config.endpoints[endpoint].cycles;
                if (cycles.len() as u64) < wanted {
                    Runner { config, endpoint, warmed, cycles, loads, settling: true }
                } else {
                    let load = SingleLoad {
                        cycles,
                        num_cycles: wanted,
                        num_concurrent_requests: config.endpoints[endpoint].concurrent_requests,
                        endpoint_name: config.endpoints[endpoint].name.clone(),
                        endpoint_url: config.endpoints[endpoint].url.clone(),
                    };
                    let ghost done = loads@;
                    let endpoints = config.endpoints.len();
                    assert(endpoint < endpoints);
                    loads.push(load);
                    proof {
                        assert(loads@.drop_last() =~= done);
                        assert forall|i: int| 0 <= i < loads@.len() implies is_run_of(
                            #[trigger] loads@[i],
                            config.endpoints@[i],
                        ) by {
                            if i < done.len() {
                                assert(loads@[i] == done[i]);
                            }
                        }
                    }
                    Runner {
                        config,
                        endpoint: endpoint + 1,
                        warmed: 0,
                        cycles: Vec::new(),
                        loads,
                        settling: true,
                    }
                }
            },
        };
        let action = runner.next();
        (runner, action)
    }

    /// The runs finished so far, one per endpoint and in the endpoints'
    /// order; all of them once `Action::Finish` is pending.
    ///
    /// The run of an endpoint with `c` cycles of `n` concurrent calls has
    /// exactly `c` cycles of exactly `n` outcomes each.
    pub fn into_loads(self) -> (loads: Loads)
        ensures
            loads@ == self@.loads,
            loads@.len() == self@.endpoint <= self@.config.endpoints@.len(),
            self@.pending() is Finish ==> loads@.len() == self@.config.endpoints@.len(),
            forall|i: int|
                0 <= i < loads@.len() ==> is_run_of(
                    #[trigger] loads@[i],
                    self@.config.endpoints@[i],
                ),
            forall|i: int| 0 <= i < loads@.len() ==> (#[trigger] loads@[i]).measurable(),
    {
        proof {
            use_type_invariant(&self);
            assert forall|i: int| 0 <= i < self.loads@.len() implies (
            #[trigger] self.loads@[i]).measurable() by {
                let load = self.loads@[i];
                let endpoint = self.config.endpoints@[i];
                assert(is_run_of(load, endpoint));
                assert(endpoint.well_formed());
                let durations = load.durations();
                assert(all_of_size(durations, endpoint.concurrent_requests as nat)) by {
                    assert forall|k: int| 0 <= k < durations.len() implies (
                    #[trigger] durations[k]).len() == endpoint.concurrent_requests by {
                        assert(load.cycles@[k]@.len() == endpoint.concurrent_requests);
                    }
                }
                lemma_common_of_equal_cycles(durations, endpoint.concurrent_requests as nat);
            }
        }
        self.loads
    }
}

} // verus!
