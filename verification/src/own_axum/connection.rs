//! The wire format: finding the end of the request head, parsing the request line and headers,
//! choosing what answers a request, and writing the response head.
use vstd::prelude::*;
use vstd::string::{StrSliceExecFns, StringExecFns};
use vstd::utf8::encode_utf8;
use super::http_method::{method_from, HttpMethod};
use super::http_request::{HttpRequest, HttpRequestView};
use super::http_response::HttpResponse;
use super::router::{match_spec, path_fits, RouteMatch, RouteView, Router};
use super::status_code::StatusCode;
use crate::str_map::{assoc_distinct, assoc_map, lemma_pair_views, pair_views, StrMap};
use crate::text_ops::{
    decimal, decimal_string, lines_spec, parse_usize, split_lines, split_once, split_once_spec,
    split_tokens, string_views, tokens, trim, trim_spec, usize_from, Delim,
};
use crate::unicode::{spec_to_lowercase, spec_utf8_lossy, to_lowercase, utf8_lossy};

verus! {

/// Whether `b[p..p + 4]` is `\r\n\r\n`.
pub open spec fn blank_line_at(b: Seq<u8>, p: int) -> bool {
    &&& 0 <= p
    &&& p + 4 <= b.len()
    &&& b[p] == 13u8
    &&& b[p + 1] == 10u8
    &&& b[p + 2] == 13u8
    &&& b[p + 3] == 10u8
}

/// The index just past the first `\r\n\r\n` in `buffer`, if any.
pub fn find_header_end(buffer: &[u8]) -> (r: Option<usize>)
    ensures
        match r {
            Some(e) => e >= 4 && blank_line_at(buffer@, e - 4) && forall|p: int|
                0 <= p < e - 4 ==> !blank_line_at(buffer@, p),
            None => forall|p: int| !blank_line_at(buffer@, p),
        },
{
    let n = buffer.len();
    if n < 4 {
        return None;
    }
    let mut p: usize = 0;
    while p <= n - 4
        invariant
            n == buffer@.len(),
            n >= 4,
            p <= n - 3,
            forall|q: int| 0 <= q < p ==> !blank_line_at(buffer@, q),
        decreases n - p,
    {
        if buffer[p] == 13 && buffer[p + 1] == 10 && buffer[p + 2] == 13 && buffer[p + 3] == 10 {
            return Some(p + 4);
        }
        p = p + 1;
    }
    None
}

/// The most bytes a request head may take.
pub const MAX_HEADER_SIZE: usize = 8 * 1024;

/// What one read of the request head leads to.
pub enum HeadRead {
    /// The stream ended before any byte: there is no request.
    Closed,
    /// The stream ended in the middle of the head.
    Truncated,
    /// The head grew past [`MAX_HEADER_SIZE`].
    TooLarge,
    /// The head is complete; it ends just before this index of the buffer.
    Complete(usize),
    /// More bytes are needed.
    More,
}

/// One read of the request head: `chunk` is what the read gave (empty at the end of the
/// stream), `buffer` what came before.
pub fn read_head_step(buffer: &mut Vec<u8>, chunk: &[u8]) -> (r: HeadRead)
    ensures
        chunk@.len() == 0 ==> final(buffer)@ == old(buffer)@ && (if old(buffer)@.len() == 0 {
            r is Closed
        } else {
            r is Truncated
        }),
        chunk@.len() > 0 ==> final(buffer)@ == old(buffer)@ + chunk@ && (if final(buffer)@.len() > MAX_HEADER_SIZE {
            r is TooLarge
        } else {
            match r {
                HeadRead::Complete(e) => e >= 4 && blank_line_at(final(buffer)@, e - 4) && forall|p: int|
                    0 <= p < e - 4 ==> !blank_line_at(final(buffer)@, p),
                HeadRead::More => forall|p: int| !blank_line_at(final(buffer)@, p),
                _ => false,
            }
        }),
{
    if chunk.len() == 0 {
        if buffer.len() == 0 {
            return HeadRead::Closed;
        }
        return HeadRead::Truncated;
    }
    let ghost before = buffer@;
    let mut i: usize = 0;
    while i < chunk.len()
        invariant
            i <= chunk@.len(),
            buffer@ == before + chunk@.take(i as int),
        decreases chunk@.len() - i,
    {
        buffer.push(chunk[i]);
        i = i + 1;
        assert(buffer@ =~= before + chunk@.take(i as int));
    }
    assert(chunk@.take(chunk@.len() as int) =~= chunk@);
    if buffer.len() > MAX_HEADER_SIZE {
        return HeadRead::TooLarge;
    }
    match find_header_end(buffer.as_slice()) {
        Some(e) => HeadRead::Complete(e),
        None => HeadRead::More,
    }
}

/// The method, path and raw query of a request line: the first two whitespace-separated words,
/// the second split at its first `?` (an absent query is empty).
pub open spec fn request_line_spec(line: Seq<char>) -> Option<(Seq<char>, Seq<char>, Seq<char>)> {
    let words = tokens(line, Delim::Whitespace);
    if words.len() < 2 {
        None
    } else {
        match split_once_spec(words[1], '?') {
            Some((p, q)) => Some((words[0], p, q)),
            None => Some((words[0], words[1], Seq::empty())),
        }
    }
}

/// Splits a request line into method, path and raw query.
pub fn parse_request_line(line: &str) -> (r: Option<(String, String, String)>)
    ensures
        match r {
            Some((m, p, q)) => request_line_spec(line@) == Some((m@, p@, q@)),
            None => request_line_spec(line@) is None,
        },
{
    let words = split_tokens(line, Delim::Whitespace);
    proof {
        assert(string_views(words@).len() == words@.len());
    }
    if words.len() < 2 {
        return None;
    }
    let method = words[0].clone();
    let full_path = &words[1];
    proof {
        assert(string_views(words@)[0] == words@[0]@);
        assert(string_views(words@)[1] == words@[1]@);
    }
    match split_once(full_path.as_str(), '?') {
        Some((p, q)) => Some((method, p, q)),
        None => Some((method, full_path.clone(), String::new())),
    }
}

/// The header a line sets: the lower-cased trimmed name and the trimmed value around the
/// first `:`; `None` for a line without `:`.
pub open spec fn header_entry(line: Seq<char>) -> Option<(Seq<char>, Seq<char>)> {
    match split_once_spec(line, ':') {
        Some((k, v)) => Some((spec_to_lowercase(trim_spec(k)), trim_spec(v))),
        None => None,
    }
}

/// `m` with header `k: v` added; a repeated header has its values joined with `", "`.
pub open spec fn add_header(m: Map<Seq<char>, Seq<char>>, k: Seq<char>, v: Seq<char>) -> Map<Seq<char>, Seq<char>> {
    if m.contains_key(k) {
        m.insert(k, m[k] + ", "@ + v)
    } else {
        m.insert(k, v)
    }
}

/// `m` with the headers of `lines` added, up to the first empty (or `"\r"`) line.
pub open spec fn headers_from(m: Map<Seq<char>, Seq<char>>, lines: Seq<Seq<char>>) -> Map<Seq<char>, Seq<char>>
    decreases lines.len(),
{
    if lines.len() == 0 || lines[0].len() == 0 || lines[0] == seq!['\r'] {
        m
    } else {
        let next = match header_entry(lines[0]) {
            Some((k, v)) => add_header(m, k, v),
            None => m,
        };
        headers_from(next, lines.drop_first())
    }
}

/// The declared body length: the `content-length` header read as a `usize`, or 0 when it is
/// absent or not a number.
pub open spec fn content_length_of(headers: Map<Seq<char>, Seq<char>>) -> usize {
    if headers.contains_key("content-length"@) {
        match usize_from(headers["content-length"@]) {
            Some(n) => n,
            None => 0,
        }
    } else {
        0
    }
}

/// What the head of a request says.
pub enum RequestHead {
    /// Nothing to answer: no bytes, or no request line.
    Empty,
    /// The request line is malformed or names an unknown method.
    BadRequest,
    /// A well-formed head.
    Parsed {
        method: HttpMethod,
        path: String,
        raw_query: String,
        headers: StrMap,
        content_length: usize,
    },
}

/// The abstract form of a [`RequestHead`].
pub enum RequestHeadSpec {
    Empty,
    BadRequest,
    Parsed {
        method: HttpMethod,
        path: Seq<char>,
        raw_query: Seq<char>,
        headers: Map<Seq<char>, Seq<char>>,
        content_length: usize,
    },
}

/// What the head bytes `raw` say: the request line parsed, its method recognised, the header
/// lines collected up to the first blank line, and the declared body length.
pub open spec fn request_head_spec(raw: Seq<u8>) -> RequestHeadSpec {
    let lines = lines_spec(spec_utf8_lossy(raw));
    if raw.len() == 0 || lines.len() == 0 {
        RequestHeadSpec::Empty
    } else {
        match request_line_spec(lines[0]) {
            None => RequestHeadSpec::BadRequest,
            Some((m, p, q)) => match method_from(m) {
                None => RequestHeadSpec::BadRequest,
                Some(method) => {
                    let headers = headers_from(Map::empty(), lines.drop_first());
                    RequestHeadSpec::Parsed {
                        method,
                        path: p,
                        raw_query: q,
                        headers,
                        content_length: content_length_of(headers),
                    }
                },
            },
        }
    }
}

pub open spec fn head_view(h: RequestHead) -> RequestHeadSpec {
    match h {
        RequestHead::Empty => RequestHeadSpec::Empty,
        RequestHead::BadRequest => RequestHeadSpec::BadRequest,
        RequestHead::Parsed { method, path, raw_query, headers, content_length } =>
            RequestHeadSpec::Parsed {
            method,
            path: path@,
            raw_query: raw_query@,
            headers: headers@,
            content_length,
        },
    }
}

/// Collects the headers of `lines[from..]`, up to the first blank line.
pub fn parse_headers(lines: &Vec<String>, from: usize) -> (r: StrMap)
    requires
        from <= lines@.len(),
    ensures
        r.wf(),
        r@ == headers_from(Map::empty(), string_views(lines@).subrange(from as int, lines@.len() as int)),
{
    let ghost ls = string_views(lines@);
    let ghost total = headers_from(Map::empty(), ls.subrange(from as int, ls.len() as int));
    let mut headers = StrMap::new();
    let mut i = from;
    while i < lines.len()
        invariant
            ls == string_views(lines@),
            from <= i <= lines@.len(),
            headers.wf(),
            headers_from(headers@, ls.subrange(i as int, ls.len() as int)) == total,
            total == headers_from(Map::empty(), ls.subrange(from as int, ls.len() as int)),
        decreases lines@.len() - i,
    {
        let line = lines[i].as_str();
        assert(ls[i as int] == line@);
        let ghost rest = ls.subrange(i as int, ls.len() as int);
        assert(rest[0] == line@);
        assert(rest.drop_first() =~= ls.subrange(i + 1, ls.len() as int));
        if line.is_empty() || str_is_cr(line) {
            assert(rest.len() > 0 && (rest[0].len() == 0 || rest[0] == seq!['\r']));
            assert(headers_from(headers@, rest) == headers@);
            return headers;
        }
        match split_once(line, ':') {
            Some((key, val)) => {
                let k = to_lowercase(trim(key.as_str()).as_str());
                let v = trim(val.as_str());
                headers.insert_or_append(k, v);
            },
            None => {},
        }
        i = i + 1;
    }
    assert(ls.subrange(i as int, ls.len() as int).len() == 0);
    headers
}

fn str_is_cr(s: &str) -> (r: bool)
    ensures
        r == (s@ == seq!['\r']),
{
    let cs = crate::text_ops::chars_of(s);
    if cs.len() == 1 && cs[0] == '\r' {
        assert(s@ =~= seq!['\r']);
        true
    } else {
        false
    }
}

/// The declared body length of a request with these headers.
pub fn content_length(headers: &StrMap) -> (r: usize)
    requires
        headers.wf(),
    ensures
        r == content_length_of(headers@),
{
    match headers.get("content-length") {
        Some(v) => match parse_usize(v) {
            Some(n) => n,
            None => 0,
        },
        None => 0,
    }
}

/// Parses the head bytes of a request (everything up to and including the blank line).
pub fn parse_request_head(raw: &[u8]) -> (r: RequestHead)
    ensures
        head_view(r) == request_head_spec(raw@),
        match r {
            RequestHead::Parsed { headers, .. } => headers.wf(),
            _ => true,
        },
{
    if raw.len() == 0 {
        return RequestHead::Empty;
    }
    let text = utf8_lossy(raw);
    let lines = split_lines(text.as_str());
    proof {
        assert(string_views(lines@).len() == lines@.len());
    }
    if lines.len() == 0 {
        return RequestHead::Empty;
    }
    proof {
        assert(string_views(lines@)[0] == lines@[0]@);
        assert(string_views(lines@).subrange(1, lines@.len() as int) =~= string_views(lines@).drop_first());
    }
    match parse_request_line(lines[0].as_str()) {
        None => RequestHead::BadRequest,
        Some((method_str, path, raw_query)) => match HttpMethod::from_str(method_str.as_str()) {
            None => RequestHead::BadRequest,
            Some(method) => {
                let headers = parse_headers(&lines, 1);
                let content_length = content_length(&headers);
                RequestHead::Parsed { method, path, raw_query, headers, content_length }
            },
        },
    }
}

/// The body text: the first `content_length` bytes of `bytes` (all of them when fewer arrived),
/// decoded with invalid UTF-8 replaced.
pub fn request_body(bytes: &Vec<u8>, content_length: usize) -> (r: String)
    ensures
        r@ == spec_utf8_lossy(bytes@.take(
            if content_length < bytes@.len() { content_length as int } else { bytes@.len() as int },
        )),
{
    let n = if content_length < bytes.len() { content_length } else { bytes.len() };
    let mut taken: Vec<u8> = Vec::new();
    let mut i: usize = 0;
    while i < n
        invariant
            n <= bytes@.len(),
            i <= n,
            taken@ == bytes@.take(i as int),
        decreases n - i,
    {
        taken.push(bytes[i]);
        i = i + 1;
        assert(taken@ =~= bytes@.take(i as int));
    }
    utf8_lossy(taken.as_slice())
}

/// The status line of a response.
pub open spec fn status_line(s: StatusCode) -> Seq<char> {
    "HTTP/1.1 "@ + decimal(s.spec_code() as nat) + " "@ + s.spec_reason() + "\r\n"@
}

/// One `name: value` line per pair, in order.
pub open spec fn header_block(ps: Seq<(Seq<char>, Seq<char>)>) -> Seq<char>
    decreases ps.len(),
{
    if ps.len() == 0 {
        Seq::empty()
    } else {
        header_block(ps.drop_last()) + ps.last().0 + ": "@ + ps.last().1 + "\r\n"@
    }
}

/// The headers that go on the wire: those of the response, plus `content-length` when the
/// response does not set it.
pub open spec fn wire_headers(h: Map<Seq<char>, Seq<char>>, length: u64) -> Map<Seq<char>, Seq<char>> {
    if h.contains_key("content-length"@) {
        h
    } else {
        h.insert("content-length"@, decimal(length as nat))
    }
}

fn push_str(out: &mut String, s: &str)
    ensures
        final(out)@ == old(out)@ + s@,
{
    out.append(s);
}

proof fn lemma_assoc_contains(ps: Seq<(Seq<char>, Seq<char>)>, a: int)
    requires
        0 <= a < ps.len(),
    ensures
        assoc_map(ps).contains_key(ps[a].0),
    decreases ps.len(),
{
    if a < ps.len() - 1 {
        lemma_assoc_contains(ps.drop_last(), a);
        assert(ps.drop_last()[a] == ps[a]);
    }
}

/// The bytes of the response head: status line, one line per header (in some order, each header
/// once), and the blank line.
pub fn response_head<F>(resp: &HttpResponse<F>) -> (r: Vec<u8>)
    requires
        resp.wf(),
    ensures
        exists|ps: Seq<(Seq<char>, Seq<char>)>|
            assoc_distinct(ps) && assoc_map(ps) == wire_headers(
                resp.headers_of(),
                resp.body_length_of(),
            ) && r@ == encode_utf8(
                status_line(resp.status_of()) + header_block(ps) + "\r\n"@,
            ),
{
    let status = resp.status();
    let (code, reason) = status.as_parts();
    let mut out = String::from_str("HTTP/1.1 ");
    push_str(&mut out, decimal_string(code as u64).as_str());
    push_str(&mut out, " ");
    push_str(&mut out, reason);
    push_str(&mut out, "\r\n");
    let ghost line = out@;
    assert(line =~= status_line(status));
    let headers = resp.headers();
    let pairs = headers.pairs();
    let ghost pv = pair_views(pairs@);
    proof {
        lemma_pair_views(pairs@);
    }
    let mut i: usize = 0;
    while i < pairs.len()
        invariant
            pv == pair_views(pairs@),
            pv.len() == pairs@.len(),
            out@ == line + header_block(pv.take(i as int)),
            i <= pairs@.len(),
        decreases pairs@.len() - i,
    {
        push_str(&mut out, pairs[i].0.as_str());
        push_str(&mut out, ": ");
        push_str(&mut out, pairs[i].1.as_str());
        push_str(&mut out, "\r\n");
        assert(pv.take(i + 1).drop_last() =~= pv.take(i as int));
        assert(pv[i as int] == (pairs@[i as int].0@, pairs@[i as int].1@));
        i = i + 1;
        assert(out@ =~= line + header_block(pv.take(i as int)));
    }
    assert(pv.take(pv.len() as int) =~= pv);
    let length = resp.body_length();
    let ghost ps;
    match headers.get("content-length") {
        Some(_) => {
            proof {
                ps = pv;
                assert(out@ == status_line(status) + header_block(ps));
            }
        },
        None => {
            let len_text = decimal_string(length);
            push_str(&mut out, "content-length");
            push_str(&mut out, ": ");
            push_str(&mut out, len_text.as_str());
            push_str(&mut out, "\r\n");
            proof {
                ps = pv.push(("content-length"@, len_text@));
                assert(ps.drop_last() =~= pv);
                assert(out@ =~= status_line(status) + header_block(ps));
                assert forall|a: int, b: int| 0 <= a < b < ps.len() implies (#[trigger] ps[a]).0 != (#[trigger] ps[b]).0 by {
                    if b == ps.len() - 1 {
                        assert(ps[a] == pv[a]);
                        assert(assoc_map(pv).contains_key(pv[a].0)) by {
                            lemma_assoc_contains(pv, a);
                        }
                    } else {
                        assert(ps[a] == pv[a]);
                        assert(ps[b] == pv[b]);
                    }
                }
            }
        },
    }
    push_str(&mut out, "\r\n");
    proof {
        assert(assoc_distinct(ps));
        assert(assoc_map(ps) =~= wire_headers(resp.headers_of(), resp.body_length_of()));
        assert(out@ =~= status_line(resp.status_of()) + header_block(ps) + "\r\n"@);
    }
    out.as_str().as_bytes_vec()
}

/// What answers a request.
pub enum Dispatch<'a, H, F> {
    /// The handler of the matched route.
    Handler(&'a H),
    /// The fallback handler: no route's pattern fits the path.
    Fallback(&'a H),
    /// A response the framework gives itself.
    Respond(HttpResponse<F>),
}

/// Whether route `i` is the first one whose method is `m` and whose pattern fits `path`.
pub open spec fn first_hit<H>(rs: Seq<RouteView<H>>, m: HttpMethod, path: Seq<char>, i: int) -> bool {
    &&& 0 <= i < rs.len()
    &&& rs[i].method == m
    &&& path_fits(rs[i], path)
    &&& forall|j: int| 0 <= j < i ==> !(rs[j].method == m && path_fits(#[trigger] rs[j], path))
}

/// Chooses what answers `req`: the first route with the request's method whose pattern fits its
/// path (binding the route's parameters into `req`); a 405 response when only other methods'
/// routes fit; otherwise the fallback handler, or a 404 response without one.
pub fn dispatch<'a, H, F>(router: &'a Router<H>, req: &mut HttpRequest) -> (r: Dispatch<'a, H, F>)
    requires
        old(req).wf(),
    ensures
        final(req).wf(),
        match r {
            Dispatch::Handler(h) => exists|i: int|
                first_hit(router.routes(), old(req)@.method, old(req)@.path, i) && *h
                    == router.routes()[i].handler && final(req)@ == (HttpRequestView {
                    path_params: match_spec(router.routes()[i].segments, old(req)@.path)->0,
                    ..old(req)@
                }),
            Dispatch::Fallback(h) => final(req)@ == old(req)@ && router.fallback_of() == Some(*h)
                && forall|j: int|
                0 <= j < router.routes().len() ==> !path_fits(
                    #[trigger] router.routes()[j],
                    old(req)@.path,
                ),
            Dispatch::Respond(resp) => final(req)@ == old(req)@ && resp.wf() && resp.headers_of()
                == Map::<Seq<char>, Seq<char>>::empty().insert(
                "content-type"@,
                "text/plain; charset=utf-8"@,
            ) && (if exists|j: int|
                0 <= j < router.routes().len() && path_fits(
                    #[trigger] router.routes()[j],
                    old(req)@.path,
                ) {
                (forall|j: int|
                    0 <= j < router.routes().len() ==> !(router.routes()[j].method == old(req)@.method
                        && path_fits(#[trigger] router.routes()[j], old(req)@.path)))
                    && resp.status_of() == StatusCode::METHOD_NOT_ALLOWED && resp.bytes_of()
                    == Some(encode_utf8("405 Method Not Allowed\n"@))
            } else {
                router.fallback_of() is None && resp.status_of() == StatusCode::NOT_FOUND
                    && resp.bytes_of() == Some(encode_utf8("404 Not Found\n"@))
            }),
        },
{
    let method = req.method();
    match router.find(method, req.path()) {
        RouteMatch::Matched(handler, params) => {
            let ghost rs = router.routes();
            let ghost i = choose|i: int|
                0 <= i < rs.len() && rs[i].method == method && path_fits(rs[i], old(req)@.path)
                    && *handler == rs[i].handler && params.wf() && Some(params@) == match_spec(
                    rs[i].segments,
                    old(req)@.path,
                ) && forall|j: int|
                    0 <= j < i ==> !(rs[j].method == method && path_fits(#[trigger] rs[j], old(req)@.path));
            req.set_path_params(params);
            assert(first_hit(rs, old(req)@.method, old(req)@.path, i));
            Dispatch::Handler(handler)
        },
        RouteMatch::MethodNotAllowed => Dispatch::Respond(
            HttpResponse::new(StatusCode::METHOD_NOT_ALLOWED, "405 Method Not Allowed\n"),
        ),
        RouteMatch::NotFound => match router.fallback_handler() {
            Some(fallback) => Dispatch::Fallback(fallback),
            None => Dispatch::Respond(HttpResponse::new(StatusCode::NOT_FOUND, "404 Not Found\n")),
        },
    }
}

} // verus!
