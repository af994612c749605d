//! Responses: status, headers and a body that is either bytes or written by a stream writer.
use vstd::prelude::*;
use vstd::string::{StrSliceExecFns, StringExecFns};
use vstd::utf8::encode_utf8;
use super::content_type::ContentType;
use super::status_code::StatusCode;
use crate::str_map::StrMap;
use crate::unicode::{spec_to_lowercase, to_lowercase};

verus! {

/// A body produced by a writer; its length is known up front.
pub struct StreamBody<F> {
    pub content_length: u64,
    pub write: F,
}

/// The body of a response.
pub enum ResponseBody<F> {
    Bytes(Vec<u8>),
    Stream(StreamBody<F>),
}

/// A response. `F` is the type of the writer that produces a streamed body.
pub struct HttpResponse<F> {
    status: StatusCode,
    headers: StrMap,
    body: ResponseBody<F>,
}

/// The `content-disposition` value that offers `name` as a download.
pub open spec fn attachment_of(name: Seq<char>) -> Seq<char> {
    "attachment; filename=\""@ + name + "\""@
}

impl<F> HttpResponse<F> {
    pub closed spec fn status_of(&self) -> StatusCode {
        self.status
    }

    pub closed spec fn headers_of(&self) -> Map<Seq<char>, Seq<char>> {
        self.headers@
    }

    /// The bytes of the body, or `None` for a streamed body.
    pub closed spec fn bytes_of(&self) -> Option<Seq<u8>> {
        match self.body {
            ResponseBody::Bytes(b) => Some(b@),
            ResponseBody::Stream(_) => None,
        }
    }

    /// The announced length of a streamed body, or `None` for a byte body.
    pub closed spec fn stream_length_of(&self) -> Option<u64> {
        match self.body {
            ResponseBody::Bytes(_) => None,
            ResponseBody::Stream(s) => Some(s.content_length),
        }
    }

    pub closed spec fn wf(&self) -> bool {
        self.headers.wf() && (self.bytes_of() is Some <==> self.stream_length_of() is None)
    }

    /// The number of body bytes: the length of a byte body, the announced length of a stream.
    pub open spec fn body_length_of(&self) -> u64 {
        match self.bytes_of() {
            Some(b) => b.len() as u64,
            None => self.stream_length_of()->0,
        }
    }

    /// The number of body bytes.
    pub fn body_length(&self) -> (r: u64)
        requires
            self.wf(),
        ensures
            r == self.body_length_of(),
    {
        match &self.body {
            ResponseBody::Bytes(b) => b.len() as u64,
            ResponseBody::Stream(s) => s.content_length,
        }
    }

    /// The status.
    pub fn status(&self) -> (r: StatusCode)
        ensures
            r == self.status_of(),
    {
        self.status
    }

    /// The headers.
    pub fn headers(&self) -> (r: &StrMap)
        requires
            self.wf(),
        ensures
            r.wf(),
            r@ == self.headers_of(),
    {
        &self.headers
    }

    /// Takes the response apart into status, headers and body.
    pub fn into_parts(self) -> (r: (StatusCode, StrMap, ResponseBody<F>))
        requires
            self.wf(),
        ensures
            r.0 == self.status_of(),
            r.1.wf(),
            r.1@ == self.headers_of(),
            match r.2 {
                ResponseBody::Bytes(b) => self.bytes_of() == Some(b@),
                ResponseBody::Stream(s) => self.stream_length_of() == Some(s.content_length),
            },
    {
        (self.status, self.headers, self.body)
    }

    /// Sets header `key` (lower-cased) to `value`, replacing any earlier value.
    pub fn with_header(self, key: &str, value: &str) -> (r: Self)
        requires
            self.wf(),
        ensures
            r.wf(),
            r.status_of() == self.status_of(),
            r.bytes_of() == self.bytes_of(),
            r.stream_length_of() == self.stream_length_of(),
            r.headers_of() == self.headers_of().insert(spec_to_lowercase(key@), value@),
    {
        let mut r = self;
        r.headers.insert(to_lowercase(key), String::from_str(value));
        r
    }

    /// A plain-text response with body `body`.
    pub fn new(status: StatusCode, body: &str) -> (r: Self)
        ensures
            r.wf(),
            r.status_of() == status,
            r.headers_of() == Map::<Seq<char>, Seq<char>>::empty().insert(
                "content-type"@,
                ContentType::TextPlain.spec_str(),
            ),
            r.bytes_of() == Some(encode_utf8(body@)),
    {
        let mut headers = StrMap::new();
        headers.insert(String::from_str("content-type"), String::from_str(ContentType::TextPlain.as_str()));
        HttpResponse { status, headers, body: ResponseBody::Bytes(body.as_bytes_vec()) }
    }

    /// A JSON response with body `body`.
    pub fn json(status: StatusCode, body: String) -> (r: Self)
        ensures
            r.wf(),
            r.status_of() == status,
            r.headers_of() == Map::<Seq<char>, Seq<char>>::empty().insert(
                "content-type"@,
                ContentType::ApplicationJson.spec_str(),
            ),
            r.bytes_of() == Some(encode_utf8(body@)),
    {
        let mut headers = StrMap::new();
        headers.insert(String::from_str("content-type"), String::from_str(ContentType::ApplicationJson.as_str()));
        HttpResponse { status, headers, body: ResponseBody::Bytes(body.as_str().as_bytes_vec()) }
    }

    /// A response whose body of `content_length` bytes is produced by `write`; with a
    /// `filename` it is offered as a download.
    pub fn stream(
        status: StatusCode,
        content_type: ContentType,
        filename: Option<&str>,
        content_length: u64,
        write: F,
    ) -> (r: Self)
        ensures
            r.wf(),
            r.status_of() == status,
            r.headers_of() == (match filename {
                Some(name) => Map::<Seq<char>, Seq<char>>::empty().insert(
                    "content-type"@,
                    content_type.spec_str(),
                ).insert("content-disposition"@, attachment_of(name@)),
                None => Map::<Seq<char>, Seq<char>>::empty().insert(
                    "content-type"@,
                    content_type.spec_str(),
                ),
            }),
            r.stream_length_of() == Some(content_length),
            r.bytes_of() is None,
    {
        let mut headers = StrMap::new();
        headers.insert(String::from_str("content-type"), String::from_str(content_type.as_str()));
        match filename {
            Some(name) => {
                let mut v = String::from_str("attachment; filename=\"");
                v.append(name);
                v.append("\"");
                headers.insert(String::from_str("content-disposition"), v);
            },
            None => {},
        }
        HttpResponse { status, headers, body: ResponseBody::Stream(StreamBody { content_length, write }) }
    }
}

} // verus!
