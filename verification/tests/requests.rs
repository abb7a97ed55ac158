use ballast::config::{EndpointConfig, Method};
use ballast::error::Error;
use ballast::headers::Headers;
use ballast::request::{RequestOutput, Response, TimedRequest};

fn post_endpoint() -> EndpointConfig {
    EndpointConfig {
        name: "create".to_string(),
        url: "http://localhost:3000/items".to_string(),
        method: Method::Post,
        concurrent_requests: 4,
        cycles: 3,
        headers: None,
        body: None,
        expected_status: None,
        expected_body: None,
        expected_headers: None,
        threshold: None,
        ramp: None,
    }
}

fn line(name: &str, value: &str) -> (String, String) {
    (name.to_string(), value.to_string())
}

#[test]
fn failed_call_is_recorded_not_raised() {
    let output = RequestOutput::new(37, None);
    assert_eq!(output.duration, 37);
    assert!(!output.success);
    assert_eq!(output.status, 0);
    assert!(output.response_body.is_none());
    assert!(output.response_headers.is_none());
}

#[test]
fn completed_call_keeps_status_body_and_headers() {
    let body: serde_json::Value = serde_json::from_str("{\"id\":7}").unwrap();
    let response = Response {
        status: 201,
        headers: vec![line("content-type", "application/json"), line("x-id", "7")],
        body: Some(body.clone()),
    };
    let output = RequestOutput::new(12, Some(response));
    assert_eq!(output.duration, 12);
    assert!(output.success);
    assert_eq!(output.status, 201);
    assert_eq!(output.response_body, Some(body));
    let headers = output.response_headers.unwrap();
    assert_eq!(headers.get(&"x-id".to_string()), Some(&"7".to_string()));
    assert_eq!(headers.get(&"content-type".to_string()), Some(&"application/json".to_string()));
    assert_eq!(headers.pairs().len(), 2);
}

#[test]
fn completed_call_without_header_lines_has_no_headers() {
    let output = RequestOutput::new(1, Some(Response { status: 204, headers: vec![], body: None }));
    assert!(output.success);
    assert_eq!(output.status, 204);
    assert!(output.response_headers.is_none());
    assert!(output.response_body.is_none());
}

#[test]
fn repeated_header_lines_keep_the_last_value() {
    let response = Response {
        status: 200,
        headers: vec![line("set-cookie", "a=1"), line("set-cookie", "b=2")],
        body: None,
    };
    let headers = RequestOutput::new(1, Some(response)).response_headers.unwrap();
    assert_eq!(headers.get(&"set-cookie".to_string()), Some(&"b=2".to_string()));
    assert_eq!(headers.pairs().len(), 1);
}

#[test]
fn options_is_refused_before_anything_is_sent() {
    let mut endpoint = post_endpoint();
    endpoint.method = Method::Options;
    assert_eq!(TimedRequest::from_config(&endpoint).unwrap_err(), Error::InvalidMethod);
}

#[test]
fn every_other_method_is_prepared() {
    for method in [Method::Get, Method::Post, Method::Put, Method::Delete, Method::Patch] {
        let mut endpoint = post_endpoint();
        endpoint.method = method;
        let request = TimedRequest::from_config(&endpoint).unwrap();
        assert_eq!(request.method, method);
        assert_eq!(request.url, "http://localhost:3000/items");
        assert!(request.headers.pairs().is_empty());
        assert_eq!(request.body, None);
    }
}

#[test]
fn prepared_request_carries_headers_and_body_text() {
    let mut endpoint = post_endpoint();
    endpoint.headers =
        Some(Headers::new().insert("authorization".to_string(), "Bearer x".to_string()));
    endpoint.body = Some(serde_json::from_str("{ \"name\" : \"a\", \"tags\" : [1, 2] }").unwrap());
    let request = TimedRequest::from_config(&endpoint).unwrap();
    assert_eq!(
        request.headers.get(&"authorization".to_string()),
        Some(&"Bearer x".to_string())
    );
    assert_eq!(request.body, Some("{\"name\":\"a\",\"tags\":[1,2]}".to_string()));
}

#[test]
fn method_names_are_upper_case() {
    assert_eq!(Method::Get.as_str(), "GET");
    assert_eq!(Method::Post.as_str(), "POST");
    assert_eq!(Method::Put.as_str(), "PUT");
    assert_eq!(Method::Delete.as_str(), "DELETE");
    assert_eq!(Method::Patch.as_str(), "PATCH");
    assert_eq!(Method::Options.as_str(), "OPTIONS");
}

#[test]
fn only_options_cannot_be_sent() {
    assert!(Method::Get.is_sendable());
    assert!(Method::Post.is_sendable());
    assert!(Method::Put.is_sendable());
    assert!(Method::Delete.is_sendable());
    assert!(Method::Patch.is_sendable());
    assert!(!Method::Options.is_sendable());
}
