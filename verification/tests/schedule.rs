use ballast::config::{Config, EndpointConfig, Method};
use ballast::request::RequestOutput;
use ballast::runner::{Action, Event, Runner, SETTLE_MILLIS};

fn target(name: &str, cycles: u64, concurrent_requests: u64, ramp: Option<bool>) -> EndpointConfig {
    EndpointConfig {
        name: name.to_string(),
        url: format!("http://localhost:8080/{}", name),
        method: Method::Get,
        concurrent_requests,
        cycles,
        headers: None,
        body: None,
        expected_status: None,
        expected_body: None,
        expected_headers: None,
        threshold: None,
        ramp,
    }
}

fn outcomes(count: u64, duration: u64) -> Vec<RequestOutput> {
    (0..count)
        .map(|_| RequestOutput {
            duration,
            success: true,
            status: 200,
            response_body: None,
            response_headers: None,
        })
        .collect()
}

fn drive(config: Config) -> (Vec<Action>, Runner) {
    assert!(config.is_valid());
    let mut runner = Runner::new(config);
    let mut action = runner.next();
    let mut seen = vec![];
    loop {
        seen.push(action);
        let event = match action {
            Action::Warm { .. } => Event::Warmed,
            Action::Settle { millis } => {
                assert_eq!(millis, 100);
                Event::Settled
            }
            Action::Measure { requests, .. } => Event::Measured(outcomes(requests, seen.len() as u64)),
            Action::Reject { .. } | Action::Finish => return (seen, runner),
        };
        assert!(runner.accepts(&event));
        let next = runner.advance(event);
        runner = next.0;
        action = next.1;
        assert_eq!(action, runner.next());
    }
}

#[test]
fn settle_interval_is_100_ms() {
    assert_eq!(SETTLE_MILLIS, 100);
}

#[test]
fn warm_up_takes_half_the_cycles_rounded_up() {
    assert_eq!(Runner::warm_up_steps(0), 0);
    assert_eq!(Runner::warm_up_steps(1), 1);
    assert_eq!(Runner::warm_up_steps(2), 1);
    assert_eq!(Runner::warm_up_steps(3), 2);
    assert_eq!(Runner::warm_up_steps(10), 5);
    assert_eq!(Runner::warm_up_steps(u64::MAX), 1 << 63);
}

#[test]
fn ramp_bursts_stay_between_one_and_the_concurrency() {
    assert_eq!(Runner::ramp_requests(0, 8), 1);
    assert_eq!(Runner::ramp_requests(1, 8), 1);
    assert_eq!(Runner::ramp_requests(3, 8), 3);
    assert_eq!(Runner::ramp_requests(8, 8), 8);
    assert_eq!(Runner::ramp_requests(9, 8), 8);
    assert_eq!(Runner::ramp_requests(u64::MAX, 1), 1);
}

#[test]
fn run_has_c_cycles_of_n_calls() {
    let (actions, runner) = drive(Config { endpoints: vec![target("ping", 2, 2, None)] });
    let pause = Action::Settle { millis: SETTLE_MILLIS };
    assert_eq!(
        actions,
        vec![
            Action::Warm { endpoint: 0, step: 0, steps: 1 },
            pause,
            Action::Measure { endpoint: 0, requests: 2 },
            pause,
            Action::Measure { endpoint: 0, requests: 2 },
            pause,
            Action::Finish,
        ]
    );
    let loads = runner.into_loads();
    assert_eq!(loads.len(), 1);
    assert_eq!(loads[0].cycles.len(), 2);
    assert!(loads[0].cycles.iter().all(|cycle| cycle.len() == 2));
    assert_eq!(loads[0].num_cycles, 2);
    assert_eq!(loads[0].num_concurrent_requests, 2);
    assert_eq!(loads[0].endpoint_name, "ping");
    assert_eq!(loads[0].endpoint_url, "http://localhost:8080/ping");
    assert!(loads[0].is_measurable());
}

#[test]
fn cycles_keep_the_order_in_which_they_ran() {
    let (_, runner) = drive(Config { endpoints: vec![target("ping", 3, 1, Some(false))] });
    let loads = runner.into_loads();
    let durations: Vec<u64> = loads[0].cycles.iter().map(|cycle| cycle[0].duration).collect();
    assert_eq!(durations, vec![1, 3, 5]);
}

#[test]
fn ramp_can_be_switched_off() {
    let (actions, _) = drive(Config { endpoints: vec![target("ping", 3, 5, Some(false))] });
    let pause = Action::Settle { millis: SETTLE_MILLIS };
    assert_eq!(
        actions,
        vec![
            Action::Measure { endpoint: 0, requests: 5 },
            pause,
            Action::Measure { endpoint: 0, requests: 5 },
            pause,
            Action::Measure { endpoint: 0, requests: 5 },
            pause,
            Action::Finish,
        ]
    );
}

#[test]
fn ramp_runs_when_set_to_true() {
    let (actions, _) = drive(Config { endpoints: vec![target("ping", 3, 4, Some(true))] });
    assert_eq!(
        actions[..4],
        [
            Action::Warm { endpoint: 0, step: 0, steps: 2 },
            Action::Settle { millis: 100 },
            Action::Warm { endpoint: 0, step: 1, steps: 2 },
            Action::Settle { millis: 100 },
        ]
    );
    assert_eq!(actions.len(), 11);
}

#[test]
fn endpoints_run_one_after_the_other() {
    let config = Config {
        endpoints: vec![target("a", 1, 3, Some(false)), target("b", 2, 1, None)],
    };
    let (actions, runner) = drive(config);
    let pause = Action::Settle { millis: SETTLE_MILLIS };
    assert_eq!(
        actions,
        vec![
            Action::Measure { endpoint: 0, requests: 3 },
            pause,
            Action::Warm { endpoint: 1, step: 0, steps: 1 },
            pause,
            Action::Measure { endpoint: 1, requests: 1 },
            pause,
            Action::Measure { endpoint: 1, requests: 1 },
            pause,
            Action::Finish,
        ]
    );
    let loads = runner.into_loads();
    assert_eq!(loads.len(), 2);
    assert_eq!(loads[0].endpoint_name, "a");
    assert_eq!(loads[0].cycles.len(), 1);
    assert_eq!(loads[0].cycles[0].len(), 3);
    assert_eq!(loads[1].endpoint_name, "b");
    assert_eq!(loads[1].cycles.len(), 2);
    assert_eq!(loads[1].cycles[1].len(), 1);
}

#[test]
fn unsendable_method_stops_the_run_before_its_endpoint() {
    let mut bad = target("b", 2, 2, None);
    bad.method = Method::Options;
    let config = Config { endpoints: vec![target("a", 1, 1, Some(false)), bad] };
    let (actions, runner) = drive(config);
    assert_eq!(
        actions,
        vec![
            Action::Measure { endpoint: 0, requests: 1 },
            Action::Settle { millis: SETTLE_MILLIS },
            Action::Reject { endpoint: 1 },
        ]
    );
    assert!(!runner.accepts(&Event::Settled));
    assert!(!runner.accepts(&Event::Warmed));
    assert!(!runner.accepts(&Event::Measured(outcomes(2, 1))));
    assert_eq!(runner.into_loads().len(), 1);
}

#[test]
fn empty_configuration_finishes_at_once() {
    let (actions, runner) = drive(Config { endpoints: vec![] });
    assert_eq!(actions, vec![Action::Finish]);
    assert!(runner.into_loads().is_empty());
}

#[test]
fn events_must_answer_what_is_pending() {
    let runner = Runner::new(Config { endpoints: vec![target("ping", 2, 2, None)] });
    assert!(runner.accepts(&Event::Warmed));
    assert!(!runner.accepts(&Event::Measured(outcomes(2, 1))));
    assert!(!runner.accepts(&Event::Settled));
    let (runner, action) = runner.advance(Event::Warmed);
    assert_eq!(action, Action::Settle { millis: 100 });
    assert!(!runner.accepts(&Event::Warmed));
    assert!(!runner.accepts(&Event::Measured(outcomes(2, 1))));
    let (runner, action) = runner.advance(Event::Settled);
    assert_eq!(action, Action::Measure { endpoint: 0, requests: 2 });
    assert!(!runner.accepts(&Event::Settled));
    assert!(!runner.accepts(&Event::Warmed));
    assert!(!runner.accepts(&Event::Measured(outcomes(1, 1))));
    assert!(!runner.accepts(&Event::Measured(outcomes(3, 1))));
    assert!(runner.accepts(&Event::Measured(outcomes(2, 1))));
    assert_eq!(runner.config().endpoints.len(), 1);
    assert_eq!(runner.completed(), 0);
    let (runner, _) = runner.advance(Event::Measured(outcomes(2, 1)));
    assert_eq!(runner.completed(), 0);
    let (runner, _) = runner.advance(Event::Settled);
    let (runner, _) = runner.advance(Event::Measured(outcomes(2, 1)));
    assert_eq!(runner.completed(), 1);
}

#[test]
fn configuration_is_checked_for_counts_and_names() {
    assert!(Config { endpoints: vec![] }.is_valid());
    assert!(Config { endpoints: vec![target("a", 1, 1, None), target("b", 1, 1, None)] }.is_valid());
    assert!(!Config { endpoints: vec![target("a", 0, 1, None)] }.is_valid());
    assert!(!Config { endpoints: vec![target("a", 1, 0, None)] }.is_valid());
    assert!(Config { endpoints: vec![target("a", u64::MAX, 1, None)] }.is_valid());
    assert!(Config { endpoints: vec![target("a", 1 << 32, (1 << 32) - 1, None)] }.is_valid());
    assert!(!Config { endpoints: vec![target("a", 1 << 32, 1 << 32, None)] }.is_valid());
    assert!(!Config { endpoints: vec![target("a", u64::MAX, 2, None)] }.is_valid());
    assert!(!Config {
        endpoints: vec![target("a", 1, 1, None), target("b", 1, 1, None), target("a", 2, 2, None)]
    }
    .is_valid());
}

#[test]
fn endpoints_are_found_by_name() {
    let config = Config {
        endpoints: vec![target("a", 1, 1, None), target("b", 2, 1, None), target("a", 3, 1, None)],
    };
    assert_eq!(config.find(&"b".to_string()).unwrap().cycles, 2);
    assert_eq!(config.find(&"a".to_string()).unwrap().cycles, 1);
    assert!(config.find(&"c".to_string()).is_none());
}

#[test]
fn threshold_and_ramp_have_defaults() {
    let mut endpoint = target("a", 1, 1, None);
    assert_eq!(endpoint.threshold_or_default(), 250);
    assert!(endpoint.should_ramp());
    endpoint.threshold = Some(0);
    endpoint.ramp = Some(true);
    assert_eq!(endpoint.threshold_or_default(), 0);
    assert!(endpoint.should_ramp());
    endpoint.ramp = Some(false);
    assert!(!endpoint.should_ramp());
}
