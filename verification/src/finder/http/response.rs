//! A response of the service: status, headers and body bytes.
use vstd::prelude::*;
use vstd::utf8::encode_utf8;
use crate::finder::http::content_type::ContentType;
use crate::own_axum::status_code::StatusCode;
use crate::str_map::StrMap;

verus! {

/// The header value that offers a body as a download under `name`.
pub open spec fn attachment(name: Seq<char>) -> Seq<char> {
    "attachment; filename=\""@ + name + "\""@
}

/// The abstract content of a response.
pub struct ResponseView {
    pub status: StatusCode,
    pub headers: Map<Seq<char>, Seq<char>>,
    pub body: Seq<u8>,
}

/// The plain-text response with this status and body.
pub open spec fn text_response(status: StatusCode, body: Seq<char>) -> ResponseView {
    ResponseView {
        status,
        headers: Map::<Seq<char>, Seq<char>>::empty().insert("content-type"@, ContentType::TextPlain.spec_str()),
        body: encode_utf8(body),
    }
}

/// The JSON response with this status and body.
pub open spec fn json_response(status: StatusCode, body: Seq<char>) -> ResponseView {
    ResponseView {
        status,
        headers: Map::<Seq<char>, Seq<char>>::empty().insert("content-type"@, ContentType::ApplicationJson.spec_str()),
        body: encode_utf8(body),
    }
}

/// A response: status, headers (by lower-case name) and body bytes.
#[derive(Debug)]
pub struct HttpResponse {
    status: StatusCode,
    headers: StrMap,
    body: Vec<u8>,
}

impl View for HttpResponse {
    type V = ResponseView;

    closed spec fn view(&self) -> ResponseView {
        ResponseView { status: self.status, headers: self.headers@, body: self.body@ }
    }
}

impl HttpResponse {
    /// The header table is well formed; it names the content type, and besides may only offer
    /// the body as a download.
    pub closed spec fn wf(&self) -> bool {
        &&& self.headers.wf()
        &&& self.headers@.contains_key("content-type"@)
        &&& forall|k: Seq<char>| #[trigger] self.headers@.contains_key(k) ==> k == "content-type"@ || k == "content-disposition"@
    }

    /// A well-formed response names its content type, and its other headers may only offer the
    /// body as a download.
    pub proof fn lemma_headers(&self)
        requires
            self.wf(),
        ensures
            self@.headers.contains_key("content-type"@),
            forall|k: Seq<char>| #[trigger] self@.headers.contains_key(k) ==> k == "content-type"@ || k == "content-disposition"@,
    {
    }

    /// A plain-text response.
    pub fn new(status: StatusCode, body: &str) -> (r: Self)
        ensures
            r.wf(),
            r@ == text_response(status, body@),
    {
        let mut headers = StrMap::new();
        headers.insert(String::from_str("content-type"), String::from_str(ContentType::TextPlain.as_str()));
        HttpResponse { status, headers, body: body.as_bytes_vec() }
    }

    /// A JSON response.
    pub fn json(status: StatusCode, body: String) -> (r: Self)
        ensures
            r.wf(),
            r@ == json_response(status, body@),
    {
        let mut headers = StrMap::new();
        headers.insert(String::from_str("content-type"), String::from_str(ContentType::ApplicationJson.as_str()));
        HttpResponse { status, headers, body: body.as_str().as_bytes_vec() }
    }

    /// A download of `content` under `filename`, with status 200.
    pub fn file(filename: &str, content: Vec<u8>) -> (r: Self)
        ensures
            r.wf(),
            r@ == (ResponseView {
                status: StatusCode::OK,
                headers: Map::<Seq<char>, Seq<char>>::empty().insert(
                    "content-type"@,
                    ContentType::ApplicationOctetStream.spec_str(),
                ).insert("content-disposition"@, attachment(filename@)),
                body: content@,
            }),
    {
        let mut headers = StrMap::new();
        headers.insert(String::from_str("content-type"), String::from_str(ContentType::ApplicationOctetStream.as_str()));
        let mut v = String::from_str("attachment; filename=\"");
        v.append(filename);
        v.append("\"");
        headers.insert(String::from_str("content-disposition"), v);
        HttpResponse { status: StatusCode::OK, headers, body: content }
    }

    pub fn status(&self) -> (r: StatusCode)
        ensures
            r == self@.status,
    {
        self.status
    }

    /// The headers.
    pub fn headers(&self) -> (r: &StrMap)
        requires
            self.wf(),
        ensures
            r.wf(),
            r@ == self@.headers,
    {
        &self.headers
    }

    /// The body bytes.
    pub fn body(&self) -> (r: &Vec<u8>)
        ensures
            r@ == self@.body,
    {
        &self.body
    }
}

} // verus!
