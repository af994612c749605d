//! A request as the handlers of the service see it.
use vstd::prelude::*;
use crate::finder::http::content_type::{content_type_from, ContentType};
use crate::own_axum::http_method::HttpMethod;
use crate::str_map::{assoc_map, pair_views, StrMap};
use crate::text_ops::{ascii_lower_seq, is_ascii_text};
use crate::unicode::{spec_to_lowercase, to_lowercase};

verus! {

/// The abstract content of a request.
pub struct RequestView {
    pub method: HttpMethod,
    pub path: Seq<char>,
    pub raw_query: Seq<char>,
    pub query: Map<Seq<char>, Seq<char>>,
    pub headers: Map<Seq<char>, Seq<char>>,
    pub body: Seq<char>,
}

/// A parsed request: method, path, raw and decoded query, lower-cased header names, and body.
#[derive(Debug)]
pub struct HttpRequest {
    method: HttpMethod,
    path: String,
    raw_query: String,
    query: StrMap,
    headers: StrMap,
    body: String,
}

impl View for HttpRequest {
    type V = RequestView;

    closed spec fn view(&self) -> RequestView {
        RequestView {
            method: self.method,
            path: self.path@,
            raw_query: self.raw_query@,
            query: self.query@,
            headers: self.headers@,
            body: self.body@,
        }
    }
}

/// The value of header `name` in `headers`, looked up by its lower-cased name.
pub open spec fn header_of(headers: Map<Seq<char>, Seq<char>>, name: Seq<char>) -> Option<Seq<char>> {
    if headers.contains_key(spec_to_lowercase(name)) {
        Some(headers[spec_to_lowercase(name)])
    } else {
        None
    }
}

/// The views of an optional string slice.
pub open spec fn opt_view(o: Option<&str>) -> Option<Seq<char>> {
    match o {
        Some(s) => Some(s@),
        None => None,
    }
}

/// The name and value pairs, in order, that `serde_urlencoded::from_str` decodes from a query
/// string, or `None` when it reports an error.
pub uninterp spec fn spec_query_pairs(raw: Seq<char>) -> Option<Seq<(Seq<char>, Seq<char>)>>;

/// Calls `serde_urlencoded::from_str` to decode `raw` into its name and value pairs; the
/// result is the named decoding of `raw`.
#[verifier::external_body]
fn decode_query_pairs(raw: &str) -> (r: Option<Vec<(String, String)>>)
    ensures
        match r {
            Some(v) => spec_query_pairs(raw@) == Some(pair_views(v@)),
            None => spec_query_pairs(raw@) is None,
        },
{
    serde_urlencoded::from_str::<Vec<(String, String)>>(raw).ok()
}

/// The decoded query parameters of a raw query string, a later value for a name replacing an
/// earlier one; `None` when the query cannot be decoded.
pub fn query_map(raw_query: &str) -> (r: Option<StrMap>)
    ensures
        match r {
            Some(m) => m.wf() && (spec_query_pairs(raw_query@) matches Some(ps) && m@ == assoc_map(ps)),
            None => spec_query_pairs(raw_query@) is None,
        },
{
    let pairs = match decode_query_pairs(raw_query) {
        Some(v) => v,
        None => return None,
    };
    let ghost ps = pair_views(pairs@);
    let mut m = StrMap::new();
    let mut i: usize = 0;
    while i < pairs.len()
        invariant
            ps == pair_views(pairs@),
            i <= pairs@.len(),
            m.wf(),
            m@ == assoc_map(ps.take(i as int)),
        decreases pairs@.len() - i,
    {
        let k = pairs[i].0.clone();
        let v = pairs[i].1.clone();
        m.insert(k, v);
        proof {
            assert(ps.take(i + 1).drop_last() =~= ps.take(i as int));
            assert(ps.take(i + 1).last() == ps[i as int]);
        }
        i = i + 1;
    }
    assert(ps.take(ps.len() as int) =~= ps);
    Some(m)
}

impl HttpRequest {
    /// The tables are well formed.
    pub closed spec fn wf(&self) -> bool {
        self.query.wf() && self.headers.wf()
    }

    pub fn new(method: HttpMethod, path: String, raw_query: String, query: StrMap, headers: StrMap, body: String) -> (r: Self)
        requires
            query.wf(),
            headers.wf(),
        ensures
            r.wf(),
            r@ == (RequestView {
                method,
                path: path@,
                raw_query: raw_query@,
                query: query@,
                headers: headers@,
                body: body@,
            }),
    {
        HttpRequest { method, path, raw_query, query, headers, body }
    }

    pub fn method(&self) -> (r: HttpMethod)
        ensures
            r == self@.method,
    {
        self.method
    }

    pub fn path(&self) -> (r: &str)
        ensures
            r@ == self@.path,
    {
        self.path.as_str()
    }

    pub fn raw_query(&self) -> (r: &str)
        ensures
            r@ == self@.raw_query,
    {
        self.raw_query.as_str()
    }

    pub fn body(&self) -> (r: &str)
        ensures
            r@ == self@.body,
    {
        self.body.as_str()
    }

    /// The value of header `name`; names are compared after lower-casing `name`.
    pub fn header(&self, name: &str) -> (r: Option<&str>)
        requires
            self.wf(),
        ensures
            opt_view(r) == header_of(self@.headers, name@),
            is_ascii_text(name@) ==> opt_view(r) == (if self@.headers.contains_key(ascii_lower_seq(name@)) {
                Some(self@.headers[ascii_lower_seq(name@)])
            } else {
                None
            }),
    {
        let key = to_lowercase(name);
        self.headers.get(key.as_str())
    }

    /// The value of query parameter `name`.
    pub fn query_param(&self, name: &str) -> (r: Option<&str>)
        requires
            self.wf(),
        ensures
            match r {
                Some(v) => self@.query.contains_key(name@) && v@ == self@.query[name@],
                None => !self@.query.contains_key(name@),
            },
    {
        self.query.get(name)
    }

    /// The media type that the `content-type` header names, if any.
    pub fn content_type(&self) -> (r: Option<ContentType>)
        requires
            self.wf(),
        ensures
            r == (match header_of(self@.headers, "content-type"@) {
                Some(v) => content_type_from(v),
                None => None,
            }),
    {
        match self.header("content-type") {
            Some(v) => ContentType::from_header(v),
            None => None,
        }
    }
}

} // verus!
