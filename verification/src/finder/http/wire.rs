//! The wire side of the service: where a request goes and the bytes of a response.
use vstd::prelude::*;
use vstd::utf8::encode_utf8;
use crate::finder::http::request::HttpRequest;
use crate::finder::http::response::{text_response, HttpResponse, ResponseView};
use crate::finder::http::router::{Resolution, Router};
use crate::own_axum::connection::status_line;
use crate::own_axum::status_code::StatusCode;
use crate::text_ops::{decimal, decimal_string};

verus! {

/// What answers a request: a handler, or a response made on the spot.
pub enum Routed<'a, H> {
    Call(&'a H),
    Respond(HttpResponse),
}

/// Where a request goes: the handler of its method and path; `405` when its path has routes for
/// other methods only; the fallback handler when no route has its path; else `404`.
pub fn route_request<'a, H>(router: &'a Router<H>, req: &HttpRequest) -> (r: Routed<'a, H>)
    requires
        router.wf(),
    ensures
        match r {
            Routed::Call(h) => (router.routes_of().contains_key((req@.method, req@.path)) && *h
                == router.routes_of()[(req@.method, req@.path)]) || (!router.has_path(req@.path)
                && router.fallback_of() == Some(*h)),
            Routed::Respond(resp) => resp.wf() && ((!router.routes_of().contains_key((req@.method, req@.path))
                && router.has_path(req@.path) && resp@ == text_response(
                StatusCode::METHOD_NOT_ALLOWED,
                "405 Method Not Allowed\n"@,
            )) || (!router.has_path(req@.path) && router.fallback_of() is None && resp@
                == text_response(StatusCode::NOT_FOUND, "404 Not Found\n"@))),
        },
        (r is Call) <==> (router.routes_of().contains_key((req@.method, req@.path)) || (!router.has_path(req@.path)
            && router.fallback_of() is Some)),
{
    match router.resolve(req.method(), req.path()) {
        Resolution::Handler(h) => Routed::Call(h),
        Resolution::MethodNotAllowed => Routed::Respond(
            HttpResponse::new(StatusCode::METHOD_NOT_ALLOWED, "405 Method Not Allowed\n"),
        ),
        Resolution::Fallback(h) => Routed::Call(h),
        Resolution::NotFound => Routed::Respond(HttpResponse::new(StatusCode::NOT_FOUND, "404 Not Found\n")),
    }
}

/// The head of a response on the wire: status line, body length, content type, the download
/// name when there is one, and the blank line.
pub open spec fn head_text(r: ResponseView) -> Seq<char> {
    status_line(r.status) + "Content-Length: "@ + decimal(r.body.len()) + "\r\nContent-Type: "@
        + r.headers["content-type"@] + "\r\n"@ + (if r.headers.contains_key("content-disposition"@) {
        "Content-Disposition: "@ + r.headers["content-disposition"@] + "\r\n"@
    } else {
        Seq::empty()
    }) + "\r\n"@
}

fn push_str(out: &mut String, s: &str)
    ensures
        final(out)@ == old(out)@ + s@,
{
    out.append(s);
}

/// The bytes of a response: its head, then its body.
pub fn response_bytes(resp: &HttpResponse) -> (r: Vec<u8>)
    requires
        resp.wf(),
        resp@.body.len() <= u64::MAX,
    ensures
        r@ == encode_utf8(head_text(resp@)) + resp@.body,
{
    proof {
        resp.lemma_headers();
    }
    let status = resp.status();
    let (code, reason) = status.as_parts();
    let mut out = String::from_str("HTTP/1.1 ");
    push_str(&mut out, decimal_string(code as u64).as_str());
    push_str(&mut out, " ");
    push_str(&mut out, reason);
    push_str(&mut out, "\r\n");
    let body = resp.body();
    let n: u64 = body.len() as u64;
    push_str(&mut out, "Content-Length: ");
    push_str(&mut out, decimal_string(n).as_str());
    push_str(&mut out, "\r\nContent-Type: ");
    let headers = resp.headers();
    match headers.get("content-type") {
        Some(ct) => push_str(&mut out, ct),
        None => {},
    }
    push_str(&mut out, "\r\n");
    let ghost before_disp = out@;
    match headers.get("content-disposition") {
        Some(d) => {
            push_str(&mut out, "Content-Disposition: ");
            push_str(&mut out, d);
            push_str(&mut out, "\r\n");
        },
        None => {},
    }
    push_str(&mut out, "\r\n");
    proof {
        assert(out@ =~= head_text(resp@));
    }
    let mut bytes = out.as_str().as_bytes_vec();
    let ghost head = bytes@;
    let mut i: usize = 0;
    while i < body.len()
        invariant
            i <= body@.len(),
            bytes@ == head + body@.take(i as int),
        decreases body@.len() - i,
    {
        bytes.push(body[i]);
        i = i + 1;
        assert(bytes@ =~= head + body@.take(i as int));
    }
    assert(body@.take(body@.len() as int) =~= body@);
    bytes
}

} // verus!
