//! One call: what is sent, and what is kept of its outcome.

use vstd::prelude::*;
use crate::config::{EndpointConfig, Method};
use crate::error::Error;
use crate::headers::{pairs_map, Headers};
use crate::json::{json_render, json_text};

verus! {

/// What a transport hands back for a call that completed.
pub struct Response {
    pub status: u16,
    /// The header lines in the order received; a name may come more than once.
    pub headers: Vec<(String, String)>,
    /// The body, where it could be read as a JSON document.
    pub body: Option<serde_json::Value>,
}

/// The outcome of one call, whether it completed or not.
#[derive(Clone, Debug)]
pub struct RequestOutput {
    /// Elapsed time in milliseconds, up to the response or the failure.
    pub duration: u64,
    /// Whether the call completed without a network or protocol error.
    pub success: bool,
    /// The status code; 0 where the call failed.
    pub status: u16,
    pub response_body: Option<serde_json::Value>,
    pub response_headers: Option<Headers>,
}

impl RequestOutput {
    /// What is kept of a call that took `duration` milliseconds.
    ///
    /// A call without a response is a failure with status 0 and neither body
    /// nor headers. A response is a success with its status and body; its
    /// header lines become a mapping, absent where there was no line.
    pub open spec fn kept(self, duration: u64, response: Option<Response>) -> bool {
        match response {
            None => {
                &&& self.duration == duration
                &&& !self.success
                &&& self.status == 0
                &&& self.response_body is None
                &&& self.response_headers is None
            },
            Some(response) => {
                &&& self.duration == duration
                &&& self.success
                &&& self.status == response.status
                &&& self.response_body == response.body
                &&& if response.headers@.len() == 0 {
                    self.response_headers is None
                } else {
                    self.response_headers matches Some(headers) && headers@ == pairs_map(
                        response.headers@,
                    )
                }
            },
        }
    }

    /// Normalises the outcome of one call. A transport failure is recorded,
    /// never raised.
    pub fn new(duration: u64, response: Option<Response>) -> (output: RequestOutput)
        ensures
            output.kept(duration, response),
    {
        match response {
            None => RequestOutput {
                duration,
                success: false,
                status: 0,
                response_body: None,
                response_headers: None,
            },
            Some(response) => {
                let headers = if response.headers.len() == 0 {
                    None
                } else {
                    Some(Headers::from_pairs(response.headers))
                };
                RequestOutput {
                    duration,
                    success: true,
                    status: response.status,
                    response_body: response.body,
                    response_headers: headers,
                }
            },
        }
    }
}

/// A call ready to be sent and timed.
#[derive(Clone, Debug)]
pub struct TimedRequest {
    pub method: Method,
    pub url: String,
    pub headers: Headers,
    /// The body as compact JSON text.
    pub body: Option<String>,
}

impl TimedRequest {
    /// This request is the one that `config` asks for.
    pub open spec fn prepared_from(self, config: EndpointConfig) -> bool {
        &&& self.method == config.method
        &&& self.url == config.url
        &&& self.headers@ == match config.headers {
            Some(headers) => headers@,
            None => Map::empty(),
        }
        &&& match config.body {
            Some(body) => self.body matches Some(text) && text@ == json_text(body),
            None => self.body is None,
        }
    }

    /// Prepares the call that an endpoint asks for.
    ///
    /// A method that cannot be sent is refused here, before anything goes out.
    pub fn from_config(config: &EndpointConfig) -> (request: Result<TimedRequest, Error>)
        ensures
            match request {
                Ok(request) => config.method.sendable() && request.prepared_from(*config),
                Err(error) => !config.method.sendable() && error == Error::InvalidMethod,
            },
    {
        if !config.method.is_sendable() {
            return Err(Error::InvalidMethod);
        }
        let headers = match &config.headers {
            Some(headers) => headers.clone(),
            None => Headers::new(),
        };
        let body = match &config.body {
            Some(body) => Some(json_render(body)),
            None => None,
        };
        Ok(TimedRequest { method: config.method, url: config.url.clone(), headers, body })
    }
}

} // verus!
