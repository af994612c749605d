//! Parsed requests, with header, cookie and path-parameter lookup.
use vstd::prelude::*;
use super::http_method::HttpMethod;
use crate::str_map::StrMap;
use crate::text_ops::{ascii_lower_seq, is_ascii_text, 
    split_once, split_once_spec, split_tokens, string_views, tokens, trim, trim_spec, Delim,
};
use crate::unicode::{spec_to_lowercase, to_lowercase};

verus! {

/// The cookie that one `;`-separated piece of a `cookie` header sets: the trimmed name and
/// value around the first `=`, or nothing when there is no `=` or the name is empty.
pub open spec fn cookie_pair(piece: Seq<char>) -> Option<(Seq<char>, Seq<char>)> {
    match split_once_spec(trim_spec(piece), '=') {
        Some((k, v)) => if trim_spec(k).len() == 0 {
            None
        } else {
            Some((trim_spec(k), trim_spec(v)))
        },
        None => None,
    }
}

/// `m` with the cookies of `pieces` added in order, later ones replacing earlier ones.
pub open spec fn cookies_from(m: Map<Seq<char>, Seq<char>>, pieces: Seq<Seq<char>>) -> Map<Seq<char>, Seq<char>>
    decreases pieces.len(),
{
    if pieces.len() == 0 {
        m
    } else {
        let prev = cookies_from(m, pieces.drop_last());
        match cookie_pair(pieces.last()) {
            Some((k, v)) => prev.insert(k, v),
            None => prev,
        }
    }
}

/// The cookies a `cookie` header value sets.
pub open spec fn cookie_map(header_value: Seq<char>) -> Map<Seq<char>, Seq<char>> {
    cookies_from(Map::empty(), tokens(header_value, Delim::Char(';')))
}

/// Parses a `cookie` header value: `name=value` pairs separated by `;`.
pub fn parse_cookies(header_value: &str) -> (r: StrMap)
    ensures
        r.wf(),
        r@ == cookie_map(header_value@),
{
    let pieces = split_tokens(header_value, Delim::Char(';'));
    let ghost ps = string_views(pieces@);
    let mut m = StrMap::new();
    let mut i: usize = 0;
    while i < pieces.len()
        invariant
            ps == string_views(pieces@),
            ps == tokens(header_value@, Delim::Char(';')),
            i <= pieces@.len(),
            m.wf(),
            m@ == cookies_from(Map::empty(), ps.take(i as int)),
        decreases pieces@.len() - i,
    {
        let piece = trim(pieces[i].as_str());
        assert(ps.take(i + 1).drop_last() =~= ps.take(i as int));
        assert(ps.take(i + 1).last() == pieces@[i as int]@);
        match split_once(piece.as_str(), '=') {
            Some((k, v)) => {
                let key = trim(k.as_str());
                if !key.as_str().is_empty() {
                    let value = trim(v.as_str());
                    m.insert(key, value);
                } else {
                    assert(key@.len() == 0);
                }
            },
            None => {},
        }
        i = i + 1;
    }
    assert(ps.take(ps.len() as int) =~= ps);
    m
}

/// The abstract content of a request.
pub struct HttpRequestView {
    pub method: HttpMethod,
    pub path: Seq<char>,
    pub raw_query: Seq<char>,
    pub headers: Map<Seq<char>, Seq<char>>,
    pub body: Seq<char>,
    pub path_params: Map<Seq<char>, Seq<char>>,
    pub cookies: Map<Seq<char>, Seq<char>>,
}

/// A parsed request: method, path, raw query, lower-cased header names, body, the parameters
/// bound by the matched route, and the cookies of the `cookie` header.
#[derive(Debug)]
pub struct HttpRequest {
    method: HttpMethod,
    path: String,
    raw_query: String,
    headers: StrMap,
    body: String,
    path_params: StrMap,
    cookies: StrMap,
}

impl View for HttpRequest {
    type V = HttpRequestView;

    closed spec fn view(&self) -> HttpRequestView {
        HttpRequestView {
            method: self.method,
            path: self.path@,
            raw_query: self.raw_query@,
            headers: self.headers@,
            body: self.body@,
            path_params: self.path_params@,
            cookies: self.cookies@,
        }
    }
}

impl HttpRequest {
    /// The tables are well formed.
    pub closed spec fn wf(&self) -> bool {
        self.headers.wf() && self.path_params.wf() && self.cookies.wf()
    }

    /// A request with no path parameters; its cookies come from the `cookie` header, if any.
    pub fn new(method: HttpMethod, path: String, raw_query: String, headers: StrMap, body: String) -> (r: Self)
        requires
            headers.wf(),
        ensures
            r.wf(),
            r@.method == method,
            r@.path == path@,
            r@.raw_query == raw_query@,
            r@.headers == headers@,
            r@.body == body@,
            r@.path_params == Map::<Seq<char>, Seq<char>>::empty(),
            r@.cookies == (if headers@.contains_key("cookie"@) {
                cookie_map(headers@["cookie"@])
            } else {
                Map::<Seq<char>, Seq<char>>::empty()
            }),
    {
        let cookies = match headers.get("cookie") {
            Some(value) => parse_cookies(value),
            None => StrMap::new(),
        };
        HttpRequest { method, path, raw_query, headers, body, path_params: StrMap::new(), cookies }
    }

    /// Replaces the path parameters.
    pub fn set_path_params(&mut self, params: StrMap)
        requires
            old(self).wf(),
            params.wf(),
        ensures
            final(self).wf(),
            final(self)@ == (HttpRequestView { path_params: params@, ..old(self)@ }),
    {
        self.path_params = params;
    }

    pub fn method(&self) -> (r: HttpMethod)
        ensures
            r == self@.method,
    {
        self.method
    }

    pub fn path(&self) -> (r: &str)
        ensures
            r@ == self@.path,
    {
        self.path.as_str()
    }

    pub fn raw_query(&self) -> (r: &str)
        ensures
            r@ == self@.raw_query,
    {
        self.raw_query.as_str()
    }

    pub fn body(&self) -> (r: &str)
        ensures
            r@ == self@.body,
    {
        self.body.as_str()
    }

    /// The value of header `name`; names are compared after lower-casing `name`.
    pub fn header(&self, name: &str) -> (r: Option<&str>)
        requires
            self.wf(),
        ensures
            match r {
                Some(v) => self@.headers.contains_key(spec_to_lowercase(name@)) && v@
                    == self@.headers[spec_to_lowercase(name@)],
                None => !self@.headers.contains_key(spec_to_lowercase(name@)),
            },
            is_ascii_text(name@) ==> match r {
                Some(v) => self@.headers.contains_key(ascii_lower_seq(name@)) && v@ == self@.headers[ascii_lower_seq(name@)],
                None => !self@.headers.contains_key(ascii_lower_seq(name@)),
            },
    {
        let key = to_lowercase(name);
        self.headers.get(key.as_str())
    }

    /// The value of cookie `name`.
    pub fn cookie(&self, name: &str) -> (r: Option<&str>)
        requires
            self.wf(),
        ensures
            match r {
                Some(v) => self@.cookies.contains_key(name@) && v@ == self@.cookies[name@],
                None => !self@.cookies.contains_key(name@),
            },
    {
        self.cookies.get(name)
    }

    /// The value the matched route bound to parameter `name`.
    pub fn path_param(&self, name: &str) -> (r: Option<&str>)
        requires
            self.wf(),
        ensures
            match r {
                Some(v) => self@.path_params.contains_key(name@) && v@ == self@.path_params[name@],
                None => !self@.path_params.contains_key(name@),
            },
    {
        self.path_params.get(name)
    }
}

} // verus!
