use ballast::config::{EndpointConfig, Method};
use ballast::headers::Headers;
use ballast::process::{check_cycle, check_request, check_run, reduce_expectations, Expected};
use ballast::request::RequestOutput;

fn expectation_endpoint() -> EndpointConfig {
    EndpointConfig {
        name: "ping".to_string(),
        url: "http://localhost:8080/ping".to_string(),
        method: Method::Get,
        concurrent_requests: 2,
        cycles: 2,
        headers: None,
        body: None,
        expected_status: None,
        expected_body: None,
        expected_headers: None,
        threshold: None,
        ramp: None,
    }
}

fn answered(status: u16) -> RequestOutput {
    RequestOutput {
        duration: 10,
        success: true,
        status,
        response_body: None,
        response_headers: None,
    }
}

fn json(text: &str) -> serde_json::Value {
    serde_json::from_str(text).unwrap()
}

fn header_map(pairs: &[(&str, &str)]) -> Headers {
    Headers::from_pairs(pairs.iter().map(|(k, v)| (k.to_string(), v.to_string())).collect())
}

fn outcome(body: Option<bool>, status_code: Option<bool>, headers: Option<bool>) -> Expected {
    Expected { body, status_code, headers }
}

#[test]
fn passes_is_vacuously_true_without_checks() {
    assert!(outcome(None, None, None).passes());
}

#[test]
fn passes_when_every_configured_check_is_true() {
    assert!(outcome(Some(true), Some(true), Some(true)).passes());
    assert!(outcome(None, Some(true), None).passes());
    assert!(outcome(Some(true), None, Some(true)).passes());
}

#[test]
fn passes_fails_on_any_false_check() {
    assert!(!outcome(Some(false), Some(true), Some(true)).passes());
    assert!(!outcome(Some(true), Some(false), Some(true)).passes());
    assert!(!outcome(Some(true), Some(true), Some(false)).passes());
    assert!(!outcome(None, Some(false), None).passes());
    assert!(!outcome(Some(false), None, None).passes());
    assert!(!outcome(None, None, Some(false)).passes());
}

#[test]
fn status_check_is_absent_when_not_configured() {
    let endpoint = expectation_endpoint();
    assert_eq!(check_request(&endpoint, &answered(500)), outcome(None, None, None));
}

#[test]
fn status_check_compares_codes() {
    let mut endpoint = expectation_endpoint();
    endpoint.expected_status = Some(200);
    assert_eq!(check_request(&endpoint, &answered(200)).status_code, Some(true));
    assert_eq!(check_request(&endpoint, &answered(500)).status_code, Some(false));
    assert_eq!(check_request(&endpoint, &answered(0)).status_code, Some(false));
}

#[test]
fn body_check_compares_documents() {
    let mut endpoint = expectation_endpoint();
    endpoint.expected_body = Some(json("{\"ok\":true,\"n\":[1,2]}"));
    let mut same = answered(200);
    same.response_body = Some(json("{\"n\":[1,2],\"ok\":true}"));
    let mut other = answered(200);
    other.response_body = Some(json("{\"ok\":false,\"n\":[1,2]}"));
    assert_eq!(check_request(&endpoint, &same).body, Some(true));
    assert_eq!(check_request(&endpoint, &other).body, Some(false));
}

#[test]
fn body_check_fails_without_a_response_body() {
    let mut endpoint = expectation_endpoint();
    endpoint.expected_body = Some(json("1"));
    assert_eq!(check_request(&endpoint, &answered(200)).body, Some(false));
}

#[test]
fn body_check_is_absent_when_not_configured() {
    let endpoint = expectation_endpoint();
    let mut with_body = answered(200);
    with_body.response_body = Some(json("1"));
    assert_eq!(check_request(&endpoint, &with_body).body, None);
}

#[test]
fn headers_check_needs_the_same_mapping() {
    let mut endpoint = expectation_endpoint();
    endpoint.expected_headers = Some(header_map(&[("a", "1"), ("b", "2")]));
    let mut same = answered(200);
    same.response_headers = Some(header_map(&[("b", "2"), ("a", "1")]));
    let mut more = answered(200);
    more.response_headers = Some(header_map(&[("a", "1"), ("b", "2"), ("c", "3")]));
    let mut fewer = answered(200);
    fewer.response_headers = Some(header_map(&[("a", "1")]));
    let mut changed = answered(200);
    changed.response_headers = Some(header_map(&[("a", "1"), ("b", "3")]));
    assert_eq!(check_request(&endpoint, &same).headers, Some(true));
    assert_eq!(check_request(&endpoint, &more).headers, Some(false));
    assert_eq!(check_request(&endpoint, &fewer).headers, Some(false));
    assert_eq!(check_request(&endpoint, &changed).headers, Some(false));
    assert_eq!(check_request(&endpoint, &answered(200)).headers, Some(false));
}

#[test]
fn headers_check_is_absent_when_not_configured() {
    let endpoint = expectation_endpoint();
    let mut with_headers = answered(200);
    with_headers.response_headers = Some(header_map(&[("a", "1")]));
    assert_eq!(check_request(&endpoint, &with_headers).headers, None);
}

#[test]
fn reduction_keeps_unconfigured_checks_absent() {
    let mut endpoint = expectation_endpoint();
    endpoint.expected_status = Some(200);
    let list = vec![outcome(Some(true), Some(true), Some(false))];
    assert_eq!(reduce_expectations(&list, &endpoint), outcome(None, Some(true), None));
}

#[test]
fn reduction_is_true_only_if_all_are_true() {
    let mut endpoint = expectation_endpoint();
    endpoint.expected_status = Some(200);
    endpoint.expected_body = Some(json("1"));
    endpoint.expected_headers = Some(header_map(&[]));
    let t = outcome(Some(true), Some(true), Some(true));
    let f = outcome(Some(true), Some(false), Some(true));
    let n = outcome(None, Some(true), Some(true));
    assert_eq!(reduce_expectations(&vec![t, t, t], &endpoint), t);
    assert_eq!(reduce_expectations(&vec![t, f, t], &endpoint), f);
    assert_eq!(
        reduce_expectations(&vec![t, n], &endpoint),
        outcome(Some(false), Some(true), Some(true))
    );
}

#[test]
fn reduction_of_nothing_is_true_where_configured() {
    let mut endpoint = expectation_endpoint();
    endpoint.expected_status = Some(200);
    assert_eq!(reduce_expectations(&vec![], &endpoint), outcome(None, Some(true), None));
}

#[test]
fn reducing_in_steps_equals_reducing_at_once() {
    let mut endpoint = expectation_endpoint();
    endpoint.expected_status = Some(200);
    endpoint.expected_body = Some(json("1"));
    let values = [
        outcome(Some(true), Some(true), None),
        outcome(Some(false), Some(true), None),
        outcome(Some(true), Some(false), None),
    ];
    for e1 in values {
        for e2 in values {
            for e3 in values {
                let first = reduce_expectations(&vec![e1, e2], &endpoint);
                let stepwise = reduce_expectations(&vec![first, e3], &endpoint);
                let direct = reduce_expectations(&vec![e1, e2, e3], &endpoint);
                assert_eq!(stepwise, direct);
            }
        }
    }
}

#[test]
fn reduction_ignores_order() {
    let mut endpoint = expectation_endpoint();
    endpoint.expected_status = Some(200);
    let t = outcome(None, Some(true), None);
    let f = outcome(None, Some(false), None);
    let a = reduce_expectations(&vec![t, f, t], &endpoint);
    let b = reduce_expectations(&vec![f, t, t], &endpoint);
    let c = reduce_expectations(&vec![t, t, f], &endpoint);
    assert_eq!(a, b);
    assert_eq!(b, c);
    assert_eq!(a.status_code, Some(false));
}

#[test]
fn one_failing_call_fails_its_cycle_and_the_run() {
    let mut endpoint = expectation_endpoint();
    endpoint.expected_status = Some(200);
    let good = vec![answered(200), answered(200)];
    let bad = vec![answered(200), answered(500)];
    assert_eq!(check_cycle(&endpoint, &good).status_code, Some(true));
    assert_eq!(check_cycle(&endpoint, &bad).status_code, Some(false));
    assert_eq!(check_run(&endpoint, &vec![good.clone(), bad]).status_code, Some(false));
    assert_eq!(check_run(&endpoint, &vec![good.clone(), good]).status_code, Some(true));
}
