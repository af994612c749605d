//! Media types of response bodies.
use vstd::prelude::*;

verus! {

/// The media types the framework labels bodies with.
#[derive(Debug, Clone, Copy, PartialEq, Eq, Structural)]
pub enum ContentType {
    TextPlain,
    ApplicationJson,
    ApplicationOctetStream,
}

impl ContentType {
    /// The `content-type` header value.
    pub open spec fn spec_str(self) -> Seq<char> {
        match self {
            ContentType::TextPlain => "text/plain; charset=utf-8"@,
            ContentType::ApplicationJson => "application/json"@,
            ContentType::ApplicationOctetStream => "application/octet-stream"@,
        }
    }

    /// The `content-type` header value.
    pub fn as_str(&self) -> (r: &'static str)
        ensures
            r@ == self.spec_str(),
    {
        match self {
            ContentType::TextPlain => "text/plain; charset=utf-8",
            ContentType::ApplicationJson => "application/json",
            ContentType::ApplicationOctetStream => "application/octet-stream",
        }
    }
}

} // verus!
