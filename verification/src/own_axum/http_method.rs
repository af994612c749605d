//! Request methods.
use vstd::prelude::*;
use crate::text_ops::{ascii_lower_seq, eq_ignore_ascii_case};

verus! {

/// The request methods the framework routes.
#[derive(Debug, Clone, Copy, PartialEq, Eq, Hash, Structural)]
pub enum HttpMethod {
    GET,
    PUT,
    POST,
}

/// The method that `s` names, ignoring ASCII case.
pub open spec fn method_from(s: Seq<char>) -> Option<HttpMethod> {
    if ascii_lower_seq(s) == ascii_lower_seq("GET"@) {
        Some(HttpMethod::GET)
    } else if ascii_lower_seq(s) == ascii_lower_seq("PUT"@) {
        Some(HttpMethod::PUT)
    } else if ascii_lower_seq(s) == ascii_lower_seq("POST"@) {
        Some(HttpMethod::POST)
    } else {
        None
    }
}

impl HttpMethod {
    /// The method named by `s` (ASCII case ignored), or `None` for any other string.
    pub fn from_str(s: &str) -> (r: Option<Self>)
        ensures
            r == method_from(s@),
    {
        if eq_ignore_ascii_case(s, "GET") {
            Some(HttpMethod::GET)
        } else if eq_ignore_ascii_case(s, "PUT") {
            Some(HttpMethod::PUT)
        } else if eq_ignore_ascii_case(s, "POST") {
            Some(HttpMethod::POST)
        } else {
            None
        }
    }
}

} // verus!
