use word_finder::own_axum::connection::{
    dispatch, find_header_end, parse_request_head, parse_request_line, read_head_step, request_body,
    response_head, Dispatch, HeadRead, RequestHead, MAX_HEADER_SIZE,
};
use word_finder::own_axum::content_type::ContentType;
use word_finder::own_axum::http_method::HttpMethod;
use word_finder::own_axum::http_request::{parse_cookies, HttpRequest};
use word_finder::own_axum::http_response::{HttpResponse, ResponseBody};
use word_finder::own_axum::router::{get, match_segments, parse_segments, post, MethodRouter, RouteMatch, Router, Segment};
use word_finder::own_axum::status_code::StatusCode;
use word_finder::str_map::StrMap;

fn headers(pairs: &[(&str, &str)]) -> StrMap {
    let mut m = StrMap::new();
    for (k, v) in pairs {
        m.insert(k.to_string(), v.to_string());
    }
    m
}

#[test]
fn method_names_ignore_ascii_case() {
    assert_eq!(HttpMethod::from_str("get"), Some(HttpMethod::GET));
    assert_eq!(HttpMethod::from_str("Post"), Some(HttpMethod::POST));
    assert_eq!(HttpMethod::from_str("PUT"), Some(HttpMethod::PUT));
    assert_eq!(HttpMethod::from_str("DELETE"), None);
    assert_eq!(HttpMethod::from_str(""), None);
}

#[test]
fn content_type_values() {
    assert_eq!(ContentType::TextPlain.as_str(), "text/plain; charset=utf-8");
    assert_eq!(ContentType::ApplicationJson.as_str(), "application/json");
    assert_eq!(ContentType::ApplicationOctetStream.as_str(), "application/octet-stream");
}

#[test]
fn status_parts() {
    assert_eq!(StatusCode::OK.as_parts(), (200, "OK"));
    assert_eq!(StatusCode::BAD_REQUEST.as_parts(), (400, "Bad Request"));
    assert_eq!(StatusCode::NOT_FOUND.as_parts(), (404, "Not Found"));
    assert_eq!(StatusCode::METHOD_NOT_ALLOWED.as_parts(), (405, "Method Not Allowed"));
}

#[test]
fn cookies_are_trimmed_pairs() {
    let c = parse_cookies(" session = abc ; theme=dark;broken; =x; a=b=c");
    assert_eq!(c.get("session"), Some("abc"));
    assert_eq!(c.get("theme"), Some("dark"));
    assert_eq!(c.get("broken"), None);
    assert_eq!(c.get("a"), Some("b=c"));
    assert_eq!(c.len(), 3);
}

#[test]
fn request_accessors_and_cookies() {
    let h = headers(&[("cookie", "id=7"), ("x-token", "t")]);
    let mut req = HttpRequest::new(HttpMethod::GET, "/u/1".to_string(), "a=1".to_string(), h, "body".to_string());
    assert_eq!(req.method(), HttpMethod::GET);
    assert_eq!(req.path(), "/u/1");
    assert_eq!(req.raw_query(), "a=1");
    assert_eq!(req.body(), "body");
    assert_eq!(req.header("X-Token"), Some("t"));
    assert_eq!(req.header("missing"), None);
    assert_eq!(req.cookie("id"), Some("7"));
    assert_eq!(req.path_param("id"), None);
    req.set_path_params(headers(&[("id", "1")]));
    assert_eq!(req.path_param("id"), Some("1"));
}

#[test]
fn segments_and_matching() {
    let segs = parse_segments("/users/{id}/posts");
    assert_eq!(segs.len(), 3);
    assert!(matches!(&segs[1], Segment::Param(n) if n == "id"));
    let m = match_segments(&segs, "users/42/posts/").expect("fits");
    assert_eq!(m.get("id"), Some("42"));
    assert!(match_segments(&segs, "/users/42").is_none());
    assert!(match_segments(&segs, "/users/42/comments").is_none());
}

#[test]
fn router_finds_first_route_and_reports_405_and_404() {
    let router: Router<u32> = Router::new()
        .route("/items/{id}", get(1).post(2))
        .route("/items/{id}", MethodRouter::new().put(3))
        .fallback(9);
    match router.find(HttpMethod::POST, "/items/5") {
        RouteMatch::Matched(h, params) => {
            assert_eq!(*h, 2);
            assert_eq!(params.get("id"), Some("5"));
        }
        _ => panic!("expected a match"),
    }
    assert!(matches!(router.find(HttpMethod::PUT, "/items/5"), RouteMatch::Matched(3, _)));
    let only_post: Router<u32> = Router::new().route("/a", post(4));
    assert!(matches!(only_post.find(HttpMethod::GET, "/a"), RouteMatch::MethodNotAllowed));
    assert!(matches!(only_post.find(HttpMethod::GET, "/b"), RouteMatch::NotFound));
    assert_eq!(router.fallback_handler(), Some(&9));
    assert_eq!(only_post.fallback_handler(), None);
}

#[test]
fn header_end_and_request_line() {
    assert_eq!(find_header_end(b"GET / HTTP/1.1\r\nHost: x\r\n\r\nbody"), Some(27));
    assert_eq!(find_header_end(b"GET / HTTP/1.1\r\n"), None);
    assert_eq!(find_header_end(b""), None);
    assert_eq!(
        parse_request_line("GET /search?word=a&x=1 HTTP/1.1"),
        Some(("GET".to_string(), "/search".to_string(), "word=a&x=1".to_string()))
    );
    assert_eq!(parse_request_line("GET /plain"), Some(("GET".to_string(), "/plain".to_string(), "".to_string())));
    assert_eq!(parse_request_line("GET"), None);
    assert_eq!(parse_request_line(""), None);
}

#[test]
fn reading_the_head_in_steps() {
    let mut buf = Vec::new();
    assert!(matches!(read_head_step(&mut buf, b""), HeadRead::Closed));
    assert!(matches!(read_head_step(&mut buf, b"GET / HTTP/1.1\r\n"), HeadRead::More));
    assert!(matches!(read_head_step(&mut buf, b""), HeadRead::Truncated));
    assert!(matches!(read_head_step(&mut buf, b"\r\nextra"), HeadRead::Complete(18)));
    assert_eq!(buf, b"GET / HTTP/1.1\r\n\r\nextra".to_vec());
    let mut big = Vec::new();
    let chunk = vec![b'a'; MAX_HEADER_SIZE + 1];
    assert!(matches!(read_head_step(&mut big, &chunk), HeadRead::TooLarge));
}

#[test]
fn parsing_a_request_head() {
    let raw = b"post /submit?x=1 HTTP/1.1\r\nContent-Length: 5\r\nX-A: 1\r\nx-a: 2\r\nbad line\r\n\r\n";
    match parse_request_head(raw) {
        RequestHead::Parsed { method, path, raw_query, headers, content_length } => {
            assert_eq!(method, HttpMethod::POST);
            assert_eq!(path, "/submit");
            assert_eq!(raw_query, "x=1");
            assert_eq!(headers.get("x-a"), Some("1, 2"));
            assert_eq!(headers.get("content-length"), Some("5"));
            assert_eq!(content_length, 5);
        }
        _ => panic!("expected a parsed head"),
    }
    assert!(matches!(parse_request_head(b""), RequestHead::Empty));
    assert!(matches!(parse_request_head(b"BREW /pot HTTP/1.1\r\n\r\n"), RequestHead::BadRequest));
    assert!(matches!(parse_request_head(b"GET\r\n\r\n"), RequestHead::BadRequest));
    match parse_request_head(b"GET / HTTP/1.1\r\ncontent-length: abc\r\n\r\n") {
        RequestHead::Parsed { content_length, .. } => assert_eq!(content_length, 0),
        _ => panic!("expected a parsed head"),
    }
}

#[test]
fn body_is_cut_to_declared_length() {
    assert_eq!(request_body(&b"hello world".to_vec(), 5), "hello");
    assert_eq!(request_body(&b"hi".to_vec(), 10), "hi");
    assert_eq!(request_body(&vec![0xff, b'a'], 2), "\u{fffd}a");
}

#[test]
fn response_constructors_and_head() {
    let r: HttpResponse<()> = HttpResponse::new(StatusCode::OK, "hi");
    assert_eq!(r.status(), StatusCode::OK);
    assert_eq!(r.headers().get("content-type"), Some("text/plain; charset=utf-8"));
    assert_eq!(r.body_length(), 2);
    let head = String::from_utf8(response_head(&r)).unwrap();
    assert!(head.starts_with("HTTP/1.1 200 OK\r\n"));
    assert!(head.contains("content-type: text/plain; charset=utf-8\r\n"));
    assert!(head.contains("content-length: 2\r\n"));
    assert!(head.ends_with("\r\n\r\n"));

    let j: HttpResponse<()> = HttpResponse::json(StatusCode::NOT_FOUND, "{}".to_string()).with_header("X-Extra", "1");
    assert_eq!(j.headers().get("x-extra"), Some("1"));
    assert_eq!(j.headers().get("content-type"), Some("application/json"));

    let s: HttpResponse<u8> = HttpResponse::stream(StatusCode::OK, ContentType::ApplicationOctetStream, Some("a.txt"), 10, 7u8);
    assert_eq!(s.body_length(), 10);
    assert_eq!(s.headers().get("content-disposition"), Some("attachment; filename=\"a.txt\""));
    let head = String::from_utf8(response_head(&s)).unwrap();
    assert!(head.contains("content-length: 10\r\n"));
    match s.into_parts().2 {
        ResponseBody::Stream(b) => assert_eq!(b.write, 7),
        ResponseBody::Bytes(_) => panic!("expected a stream"),
    }
    let explicit: HttpResponse<()> = HttpResponse::new(StatusCode::OK, "abc").with_header("Content-Length", "99");
    let head = String::from_utf8(response_head(&explicit)).unwrap();
    assert!(head.contains("content-length: 99\r\n"));
    assert!(!head.contains("content-length: 3\r\n"));
}

#[test]
fn dispatch_binds_params_or_answers_itself() {
    let router: Router<u32> = Router::new().route("/users/{id}", get(1));
    let mut req = HttpRequest::new(HttpMethod::GET, "/users/9".to_string(), String::new(), StrMap::new(), String::new());
    match dispatch::<u32, ()>(&router, &mut req) {
        Dispatch::Handler(h) => assert_eq!(*h, 1),
        _ => panic!("expected the handler"),
    }
    assert_eq!(req.path_param("id"), Some("9"));

    let mut post = HttpRequest::new(HttpMethod::POST, "/users/9".to_string(), String::new(), StrMap::new(), String::new());
    match dispatch::<u32, ()>(&router, &mut post) {
        Dispatch::Respond(r) => assert_eq!(r.status(), StatusCode::METHOD_NOT_ALLOWED),
        _ => panic!("expected 405"),
    }
    let mut other = HttpRequest::new(HttpMethod::GET, "/nope".to_string(), String::new(), StrMap::new(), String::new());
    match dispatch::<u32, ()>(&router, &mut other) {
        Dispatch::Respond(r) => assert_eq!(r.status(), StatusCode::NOT_FOUND),
        _ => panic!("expected 404"),
    }
    let with_fallback = router.fallback(5);
    match dispatch::<u32, ()>(&with_fallback, &mut other) {
        Dispatch::Fallback(h) => assert_eq!(*h, 5),
        _ => panic!("expected the fallback"),
    }
}

#[test]
fn headers_stored_with_capitals_are_not_found() {
    let req = HttpRequest::new(HttpMethod::GET, "/".to_string(), String::new(), headers(&[("X-Big", "1"), ("x-small", "2")]), String::new());
    assert_eq!(req.header("X-Big"), None);
    assert_eq!(req.header("x-big"), None);
    assert_eq!(req.header("X-SMALL"), Some("2"));
}
