//! HTTP status codes the framework answers with.
use vstd::prelude::*;

verus! {

/// The status codes the framework uses.
#[allow(non_camel_case_types)]
#[derive(Debug, Clone, Copy, PartialEq, Eq, Structural)]
pub enum StatusCode {
    OK,
    BAD_REQUEST,
    NOT_FOUND,
    METHOD_NOT_ALLOWED,
}

impl StatusCode {
    /// The numeric code.
    pub open spec fn spec_code(self) -> u16 {
        match self {
            StatusCode::OK => 200,
            StatusCode::BAD_REQUEST => 400,
            StatusCode::NOT_FOUND => 404,
            StatusCode::METHOD_NOT_ALLOWED => 405,
        }
    }

    /// The reason phrase.
    pub open spec fn spec_reason(self) -> Seq<char> {
        match self {
            StatusCode::OK => "OK"@,
            StatusCode::BAD_REQUEST => "Bad Request"@,
            StatusCode::NOT_FOUND => "Not Found"@,
            StatusCode::METHOD_NOT_ALLOWED => "Method Not Allowed"@,
        }
    }

    /// The numeric code and the reason phrase of the status line.
    pub fn as_parts(&self) -> (r: (u16, &'static str))
        ensures
            r.0 == self.spec_code(),
            r.1@ == self.spec_reason(),
    {
        match self {
            StatusCode::OK => (200, "OK"),
            StatusCode::BAD_REQUEST => (400, "Bad Request"),
            StatusCode::NOT_FOUND => (404, "Not Found"),
            StatusCode::METHOD_NOT_ALLOWED => (405, "Method Not Allowed"),
        }
    }
}

} // verus!
