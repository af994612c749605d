use word_finder::finder::http::content_type::ContentType;
use word_finder::finder::http::handlers::{
    accepts_json, download_answer, download_file_of, format_results, info_response, invalid_query, not_found,
    respond_error, search_answer, search_word_of, wants_json_body, FileFetch,
};
use word_finder::finder::http::params::{DownloadParams, InfoParams, Query, SearchParams};
use word_finder::finder::http::request::{query_map, HttpRequest};
use word_finder::finder::http::response::HttpResponse;
use word_finder::finder::http::router::{Resolution, Router};
use word_finder::finder::http::wire::{response_bytes, route_request, Routed};
use word_finder::finder::http::StatusCode;
use word_finder::own_axum::http_method::HttpMethod;
use word_finder::str_map::StrMap;

fn map(pairs: &[(&str, &str)]) -> StrMap {
    let mut m = StrMap::new();
    for (k, v) in pairs {
        m.insert(k.to_string(), v.to_string());
    }
    m
}

fn request(method: HttpMethod, path: &str, query: &[(&str, &str)], headers: &[(&str, &str)], body: &str) -> HttpRequest {
    HttpRequest::new(method, path.to_string(), String::new(), map(query), map(headers), body.to_string())
}

fn body_text(r: &HttpResponse) -> String {
    String::from_utf8(r.body().clone()).unwrap()
}

#[test]
fn content_type_from_header_values() {
    assert_eq!(ContentType::from_header("application/json"), Some(ContentType::ApplicationJson));
    assert_eq!(ContentType::from_header("  Application/JSON ; charset=utf-8"), Some(ContentType::ApplicationJson));
    assert_eq!(ContentType::from_header("text/plain;charset=utf-8"), Some(ContentType::TextPlain));
    assert_eq!(ContentType::from_header("application/x-www-form-urlencoded"), Some(ContentType::ApplicationFormUrlEncoded));
    assert_eq!(ContentType::from_header("application/octet-stream"), Some(ContentType::ApplicationOctetStream));
    assert_eq!(ContentType::from_header("text/html"), None);
    assert_eq!(ContentType::from_header(""), None);
    assert_eq!(ContentType::ApplicationFormUrlEncoded.as_str(), "application/x-www-form-urlencoded");
}

#[test]
fn request_accessors() {
    let req = HttpRequest::new(
        HttpMethod::POST,
        "/search".to_string(),
        "word=a".to_string(),
        map(&[("word", "a")]),
        map(&[("content-type", "application/json; charset=utf-8"), ("accept", "*/*")]),
        "{}".to_string(),
    );
    assert_eq!(req.method(), HttpMethod::POST);
    assert_eq!(req.path(), "/search");
    assert_eq!(req.raw_query(), "word=a");
    assert_eq!(req.body(), "{}");
    assert_eq!(req.header("ACCEPT"), Some("*/*"));
    assert_eq!(req.query_param("word"), Some("a"));
    assert_eq!(req.query_param("file"), None);
    assert_eq!(req.content_type(), Some(ContentType::ApplicationJson));
    assert!(wants_json_body(&req));
    assert!(!accepts_json(&req));
}

#[test]
fn responses_carry_their_content_type() {
    let t = HttpResponse::new(StatusCode::OK, "hi");
    assert_eq!(t.headers().get("content-type"), Some("text/plain; charset=utf-8"));
    assert_eq!(body_text(&t), "hi");
    let j = HttpResponse::json(StatusCode::BAD_REQUEST, "{}".to_string());
    assert_eq!(j.status(), StatusCode::BAD_REQUEST);
    assert_eq!(j.headers().get("content-type"), Some("application/json"));
    let f = HttpResponse::file("a.txt", vec![1, 2]);
    assert_eq!(f.status(), StatusCode::OK);
    assert_eq!(f.headers().get("content-type"), Some("application/octet-stream"));
    assert_eq!(f.headers().get("content-disposition"), Some("attachment; filename=\"a.txt\""));
    assert_eq!(f.body(), &vec![1, 2]);
}

#[test]
fn router_resolves_by_method_and_path() {
    let r: Router<u32> = Router::new().route("/search", 1).post("/search", 2).get("/info", 3);
    assert!(matches!(r.resolve(HttpMethod::GET, "/search"), Resolution::Handler(1)));
    assert!(matches!(r.resolve(HttpMethod::POST, "/search"), Resolution::Handler(2)));
    assert!(matches!(r.resolve(HttpMethod::POST, "/info"), Resolution::MethodNotAllowed));
    assert!(matches!(r.resolve(HttpMethod::GET, "/nowhere"), Resolution::NotFound));
    let r = r.get("/info", 4).fallback(9);
    assert!(matches!(r.resolve(HttpMethod::GET, "/info"), Resolution::Handler(4)));
    assert!(matches!(r.resolve(HttpMethod::GET, "/nowhere"), Resolution::Fallback(9)));
    assert!(matches!(r.resolve(HttpMethod::PUT, "/search"), Resolution::MethodNotAllowed));
}

#[test]
fn connection_routing_answers_405_and_404_itself() {
    let r: Router<u32> = Router::new().post("/search", 2);
    let get = request(HttpMethod::GET, "/search", &[], &[], "");
    match route_request(&r, &get) {
        Routed::Respond(resp) => {
            assert_eq!(resp.status(), StatusCode::METHOD_NOT_ALLOWED);
            assert_eq!(body_text(&resp), "405 Method Not Allowed\n");
        }
        Routed::Call(_) => panic!("expected 405"),
    }
    let other = request(HttpMethod::GET, "/x", &[], &[], "");
    match route_request(&r, &other) {
        Routed::Respond(resp) => assert_eq!(body_text(&resp), "404 Not Found\n"),
        Routed::Call(_) => panic!("expected 404"),
    }
    let r = r.fallback(7);
    assert!(matches!(route_request(&r, &other), Routed::Call(7)));
    let post = request(HttpMethod::POST, "/search", &[], &[], "");
    assert!(matches!(route_request(&r, &post), Routed::Call(2)));
}

#[test]
fn response_bytes_on_the_wire() {
    let t = HttpResponse::new(StatusCode::NOT_FOUND, "nope");
    assert_eq!(
        String::from_utf8(response_bytes(&t)).unwrap(),
        "HTTP/1.1 404 Not Found\r\nContent-Length: 4\r\nContent-Type: text/plain; charset=utf-8\r\n\r\nnope"
    );
    let f = HttpResponse::file("x.bin", vec![0, 255]);
    let mut expected = b"HTTP/1.1 200 OK\r\nContent-Length: 2\r\nContent-Type: application/octet-stream\r\nContent-Disposition: attachment; filename=\"x.bin\"\r\n\r\n".to_vec();
    expected.extend_from_slice(&[0, 255]);
    assert_eq!(response_bytes(&f), expected);
}

#[test]
fn errors_as_text_or_json() {
    let t = respond_error(StatusCode::BAD_REQUEST, "bad", false);
    assert_eq!(body_text(&t), "bad");
    assert_eq!(t.headers().get("content-type"), Some("text/plain; charset=utf-8"));
    let j = respond_error(StatusCode::NOT_FOUND, "gone", true);
    assert_eq!(body_text(&j), "{\"error\": \"gone\"}");
    assert_eq!(j.status(), StatusCode::NOT_FOUND);
    assert_eq!(body_text(&invalid_query("missing field")), "Invalid query parameters: missing field");
    let nf = not_found();
    assert_eq!(nf.status(), StatusCode::NOT_FOUND);
    assert_eq!(body_text(&nf), "404 Not Found. Please use format: /search?word=YOUR_WORD\n");
}

#[test]
fn info_as_text_or_json() {
    let plain = request(HttpMethod::GET, "/info", &[], &[], "");
    let params = Query(InfoParams { format: None });
    let r = info_response(&plain, params.0.format.as_deref(), "word_finder", "0.1.0");
    assert_eq!(body_text(&r), "word_finder v0.1.0");
    let r = info_response(&plain, Some("json"), "word_finder", "0.1.0");
    assert_eq!(body_text(&r), "{\"name\": \"word_finder\", \"version\": \"0.1.0\"}");
    let asks = request(HttpMethod::GET, "/info", &[], &[("accept", "Application/JSON")], "");
    let r = info_response(&asks, Some("xml"), "n", "1");
    assert_eq!(r.headers().get("content-type"), Some("application/json"));
}

#[test]
fn search_word_from_query_or_body() {
    let get = request(HttpMethod::GET, "/search", &[], &[], "");
    assert_eq!(search_word_of(&get, SearchParams { word: "  Lorem ".to_string() }, None).ok(), Some("Lorem".to_string()));
    match search_word_of(&get, SearchParams { word: "   ".to_string() }, None) {
        Err(r) => {
            assert_eq!(r.status(), StatusCode::BAD_REQUEST);
            assert!(body_text(&r).starts_with("Usage: enter a word"));
        }
        Ok(_) => panic!("expected the usage answer"),
    }
    let post = request(HttpMethod::POST, "/search", &[], &[("content-type", "application/json"), ("accept", "application/json")], "x");
    assert_eq!(
        search_word_of(&post, SearchParams { word: "ignored".to_string() }, Some(Ok(SearchParams { word: "ipsum".to_string() }))).ok(),
        Some("ipsum".to_string())
    );
    match search_word_of(&post, SearchParams { word: String::new() }, Some(Err(()))) {
        Err(r) => assert_eq!(body_text(&r), "{\"error\": \"Invalid JSON body. Expected: {\"word\": \"...\"}\"}"),
        Ok(_) => panic!("expected the JSON error"),
    }
}

#[test]
fn search_answers() {
    let files = vec![("a.txt".to_string(), vec![0, 12]), ("b.txt".to_string(), vec![5])];
    assert_eq!(
        format_results("Lorem", &files),
        "Search results for: Lorem\nFile: a.txt\nOccurrences: 2\nIndices: [0, 12]\n\nFile: b.txt\nOccurrences: 1\nIndices: [5]\n\n"
    );
    let text = search_answer("Lorem", false, Some(files.clone()));
    assert_eq!(text.status(), StatusCode::OK);
    assert!(body_text(&text).starts_with("Search results for: Lorem\n"));
    let json = search_answer("Lorem", true, Some(files));
    assert_eq!(body_text(&json), "{\"a.txt\":[0,12],\"b.txt\":[5]}");
    let none = search_answer("x", false, None);
    assert_eq!(none.status(), StatusCode::NOT_FOUND);
    assert_eq!(body_text(&none), "No results found\n");
    let empty = search_answer("x", true, Some(vec![]));
    assert_eq!(body_text(&empty), "{\"error\": \"No results found\"}");
}

#[test]
fn download_file_from_query_or_body() {
    let get = request(HttpMethod::GET, "/download", &[("file", "q.txt")], &[], "");
    assert_eq!(download_file_of(&get, DownloadParams { file: Some("p.txt".to_string()) }, None).ok(), Some("p.txt".to_string()));
    assert_eq!(download_file_of(&get, DownloadParams { file: None }, None).ok(), Some("q.txt".to_string()));
    let bare = request(HttpMethod::GET, "/download", &[], &[], "");
    match download_file_of(&bare, DownloadParams { file: Some("  ".to_string()) }, None) {
        Err(r) => assert!(body_text(&r).starts_with("Missing 'file' parameter.")),
        Ok(_) => panic!("expected the missing-file answer"),
    }
    let post = request(HttpMethod::POST, "/download", &[], &[("content-type", "application/json")], "");
    assert_eq!(
        download_file_of(&post, DownloadParams { file: None }, Some(Ok(DownloadParams { file: Some("b.txt".to_string()) }))).ok(),
        Some("b.txt".to_string())
    );
    assert!(download_file_of(&post, DownloadParams { file: Some("x".to_string()) }, Some(Ok(DownloadParams { file: None }))).is_err());
    match download_file_of(&post, DownloadParams { file: None }, Some(Err(()))) {
        Err(r) => assert_eq!(body_text(&r), "Invalid JSON body. Expected: {\"file\": \"path/to/file\"}"),
        Ok(_) => panic!("expected the JSON error"),
    }
}

#[test]
fn download_answers() {
    let ok = download_answer(false, FileFetch::Read { name: Some("r.txt".to_string()), content: vec![7] });
    assert_eq!(ok.headers().get("content-disposition"), Some("attachment; filename=\"r.txt\""));
    let unnamed = download_answer(false, FileFetch::Read { name: None, content: vec![] });
    assert_eq!(unnamed.headers().get("content-disposition"), Some("attachment; filename=\"downloaded_file\""));
    let missing = download_answer(true, FileFetch::Missing);
    assert_eq!(missing.status(), StatusCode::NOT_FOUND);
    assert_eq!(body_text(&missing), "{\"error\": \"File not found\n\"}");
    let failed = download_answer(false, FileFetch::Failed { error: "denied".to_string() });
    assert_eq!(failed.status(), StatusCode::BAD_REQUEST);
    assert_eq!(body_text(&failed), "Failed to read file: denied\n");
}

#[test]
fn content_type_values_read_back() {
    for ct in [
        ContentType::TextPlain,
        ContentType::ApplicationJson,
        ContentType::ApplicationOctetStream,
        ContentType::ApplicationFormUrlEncoded,
    ] {
        assert_eq!(ContentType::from_header(ct.as_str()), Some(ct));
    }
}

#[test]
fn query_strings_are_decoded() {
    let q = query_map("word=Lorem&x=a%20b+c&word=ipsum").expect("decodes");
    assert_eq!(q.get("word"), Some("ipsum"));
    assert_eq!(q.get("x"), Some("a b c"));
    assert_eq!(q.len(), 2);
    let bare = query_map("flag").expect("decodes");
    assert_eq!(bare.get("flag"), Some(""));
    assert_eq!(query_map("").expect("decodes").len(), 0);
}
