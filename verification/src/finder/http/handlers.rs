//! The decisions of the request handlers of the service: which response a request gets, given
//! what its query, its body and the index say. Reading the query and the JSON body into
//! parameters, looking the word up and reading files happen around these functions.
use vstd::prelude::*;
use crate::finder::http::content_type::{content_type_from, ContentType};
use crate::finder::http::params::{DownloadParams, SearchParams};
use crate::finder::http::request::{header_of, HttpRequest, RequestView};
use crate::finder::http::response::{json_response, text_response, HttpResponse, ResponseView};
use crate::own_axum::http_method::HttpMethod;
use crate::own_axum::status_code::StatusCode;
use crate::text_ops::{decimal, decimal_string, has_sub, occurs_at, str_contains, trim, trim_spec};
use crate::unicode::{spec_to_lowercase, to_lowercase};

verus! {

/// Whether the client asks for JSON: its `accept` header, lowercased, mentions `application/json`.
pub open spec fn accepts_json_spec(req: RequestView) -> bool {
    match header_of(req.headers, "accept"@) {
        Some(v) => has_sub(spec_to_lowercase(v), "application/json"@),
        None => false,
    }
}

/// Whether the parameters come in a JSON body: a `POST` with content type `application/json`.
pub open spec fn json_body_spec(req: RequestView) -> bool {
    req.method == HttpMethod::POST && match header_of(req.headers, "content-type"@) {
        Some(v) => content_type_from(v) == Some(ContentType::ApplicationJson),
        None => false,
    }
}

/// The client asks for JSON exactly when it sends an `accept` header whose lowercased value
/// holds `application/json` somewhere, alone or in a list of media types.
pub proof fn law_accepts_json_iff_listed(req: RequestView)
    ensures
        accepts_json_spec(req) <==> (header_of(req.headers, "accept"@) matches Some(v) && exists|i: int|
            0 <= i && i + 16 <= spec_to_lowercase(v).len() && #[trigger] spec_to_lowercase(v).subrange(i, i + 16)
                == "application/json"@),
{
    reveal_strlit("application/json");
    match header_of(req.headers, "accept"@) {
        Some(v) => {
            let l = spec_to_lowercase(v);
            if accepts_json_spec(req) {
                let i = choose|i: int| #[trigger] occurs_at(l, "application/json"@, i);
                assert(l.subrange(i, i + 16) == "application/json"@);
            }
            if exists|i: int| 0 <= i && i + 16 <= l.len() && #[trigger] l.subrange(i, i + 16) == "application/json"@ {
                let i = choose|i: int| 0 <= i && i + 16 <= l.len() && #[trigger] l.subrange(i, i + 16) == "application/json"@;
                assert(occurs_at(l, "application/json"@, i));
            }
        },
        None => {},
    }
}

/// Whether the client asks for JSON.
pub fn accepts_json(req: &HttpRequest) -> (r: bool)
    requires
        req.wf(),
    ensures
        r == accepts_json_spec(req@),
{
    match req.header("accept") {
        Some(v) => str_contains(to_lowercase(v).as_str(), "application/json"),
        None => false,
    }
}

/// Whether the parameters of the request come in a JSON body.
pub fn wants_json_body(req: &HttpRequest) -> (r: bool)
    requires
        req.wf(),
    ensures
        r == json_body_spec(req@),
{
    req.method() == HttpMethod::POST && req.content_type() == Some(ContentType::ApplicationJson)
}

/// The JSON error object carrying `msg`, as written by hand (no escaping).
pub open spec fn error_json(msg: Seq<char>) -> Seq<char> {
    "{\"error\": \""@ + msg + "\"}"@
}

/// The response for an error: a JSON error object when the client asks for JSON, else `msg`
/// as plain text.
pub open spec fn error_response(status: StatusCode, msg: Seq<char>, as_json: bool) -> ResponseView {
    if as_json {
        json_response(status, error_json(msg))
    } else {
        text_response(status, msg)
    }
}

/// The response for an error.
pub fn respond_error(status: StatusCode, msg: &str, as_json: bool) -> (r: HttpResponse)
    ensures
        r.wf(),
        r@ == error_response(status, msg@, as_json),
{
    if as_json {
        let mut body = String::from_str("{\"error\": \"");
        body.append(msg);
        body.append("\"}");
        HttpResponse::json(status, body)
    } else {
        HttpResponse::new(status, msg)
    }
}

/// The answer to query parameters that cannot be read.
pub fn invalid_query(error: &str) -> (r: HttpResponse)
    ensures
        r.wf(),
        r@ == text_response(StatusCode::BAD_REQUEST, "Invalid query parameters: "@ + error@),
{
    let mut body = String::from_str("Invalid query parameters: ");
    body.append(error);
    HttpResponse::new(StatusCode::BAD_REQUEST, body.as_str())
}

/// The answer for a path that no route has.
pub fn not_found() -> (r: HttpResponse)
    ensures
        r.wf(),
        r@ == text_response(StatusCode::NOT_FOUND, "404 Not Found. Please use format: /search?word=YOUR_WORD\n"@),
{
    HttpResponse::new(StatusCode::NOT_FOUND, "404 Not Found. Please use format: /search?word=YOUR_WORD\n")
}

/// The info answer: name and version as a JSON object when `format=json` is asked for or the
/// client asks for JSON, else as `name vversion`.
pub fn info_response(req: &HttpRequest, format: Option<&str>, name: &str, version: &str) -> (r: HttpResponse)
    requires
        req.wf(),
    ensures
        r.wf(),
        r@ == (if (format matches Some(f) && f@ == "json"@) || accepts_json_spec(req@) {
            json_response(StatusCode::OK, "{\"name\": \""@ + name@ + "\", \"version\": \""@ + version@ + "\"}"@)
        } else {
            text_response(StatusCode::OK, name@ + " v"@ + version@)
        }),
{
    let wants_format = match format {
        Some(f) => crate::unicode::str_eq(f, "json"),
        None => false,
    };
    if wants_format || accepts_json(req) {
        let mut body = String::from_str("{\"name\": \"");
        body.append(name);
        body.append("\", \"version\": \"");
        body.append(version);
        body.append("\"}");
        HttpResponse::json(StatusCode::OK, body)
    } else {
        let mut body = String::from_str(name);
        body.append(" v");
        body.append(version);
        HttpResponse::new(StatusCode::OK, body.as_str())
    }
}

/// The message for a search without a word.
pub open spec fn search_usage() -> Seq<char> {
    "Usage: enter a word in the query parameter (e.g., http://127.0.0.1:27015/search?word=Lorem) or send POST with JSON body {\"word\": \"Lorem\"}"@
}

/// The word a search asks for: from the JSON body when the request has one, else from the query,
/// trimmed; an unreadable body or a blank word gets a `400` answer.
pub fn search_word_of(req: &HttpRequest, params: SearchParams, body: Option<Result<SearchParams, ()>>) -> (r: Result<String, HttpResponse>)
    requires
        req.wf(),
        body is Some <==> json_body_spec(req@),
    ensures
        match r {
            Ok(w) => w@.len() > 0 && w@ == trim_spec(match body {
                Some(Ok(p)) => p.word@,
                _ => params.word@,
            }),
            Err(resp) => resp.wf() && resp@ == (if body matches Some(Err(_)) {
                error_response(StatusCode::BAD_REQUEST, "Invalid JSON body. Expected: {\"word\": \"...\"}"@, accepts_json_spec(req@))
            } else {
                error_response(StatusCode::BAD_REQUEST, search_usage(), accepts_json_spec(req@))
            }),
        },
        (r is Err && !(body matches Some(Err(_)))) <==> trim_spec(match body {
            Some(Ok(p)) => p.word@,
            _ => params.word@,
        }).len() == 0 && !(body matches Some(Err(_))),
{
    let aj = accepts_json(req);
    let source = match body {
        Some(Ok(p)) => p.word,
        Some(Err(_)) => {
            return Err(respond_error(StatusCode::BAD_REQUEST, "Invalid JSON body. Expected: {\"word\": \"...\"}", aj));
        },
        None => params.word,
    };
    let clean = trim(source.as_str());
    if clean.as_str().is_empty() {
        proof {
            assert(clean@.len() == 0);
        }
        return Err(respond_error(
            StatusCode::BAD_REQUEST,
            "Usage: enter a word in the query parameter (e.g., http://127.0.0.1:27015/search?word=Lorem) or send POST with JSON body {\"word\": \"Lorem\"}",
            aj,
        ));
    }
    proof {
        assert(clean@.len() > 0);
    }
    Ok(clean)
}

/// `Debug` text of a list of numbers: `[a, b, c]`.
pub open spec fn numbers_text(v: Seq<usize>) -> Seq<char> {
    "["@ + numbers_joined(v) + "]"@
}

/// The decimal numbers of `v`, separated by `", "`.
pub open spec fn numbers_joined(v: Seq<usize>) -> Seq<char>
    decreases v.len(),
{
    if v.len() == 0 {
        Seq::empty()
    } else if v.len() == 1 {
        decimal(v[0] as nat)
    } else {
        numbers_joined(v.drop_last()) + ", "@ + decimal(v.last() as nat)
    }
}

/// The text block of one file in a search answer.
pub open spec fn file_block(path: Seq<char>, positions: Seq<usize>) -> Seq<char> {
    "File: "@ + path + "\nOccurrences: "@ + decimal(positions.len()) + "\nIndices: "@ + numbers_text(positions) + "\n\n"@
}

/// The blocks of the first files of a search answer, in order.
pub open spec fn file_blocks(files: Seq<(Seq<char>, Seq<usize>)>) -> Seq<char>
    decreases files.len(),
{
    if files.len() == 0 {
        Seq::empty()
    } else {
        file_blocks(files.drop_last()) + file_block(files.last().0, files.last().1)
    }
}

/// Paths and positions as plain values.
pub open spec fn files_view(files: Seq<(String, Vec<usize>)>) -> Seq<(Seq<char>, Seq<usize>)> {
    files.map_values(|e: (String, Vec<usize>)| (e.0@, e.1@))
}

/// The text answer to a search: a title line, then one block per file.
pub open spec fn results_text(word: Seq<char>, files: Seq<(Seq<char>, Seq<usize>)>) -> Seq<char> {
    "Search results for: "@ + word + "\n"@ + file_blocks(files)
}

fn push_str(out: &mut String, s: &str)
    ensures
        final(out)@ == old(out)@ + s@,
{
    out.append(s);
}

/// Appends the `Debug` text of `v`.
fn push_numbers(out: &mut String, v: &Vec<usize>)
    ensures
        final(out)@ == old(out)@ + numbers_text(v@),
{
    let ghost start = out@;
    push_str(out, "[");
    let mut i: usize = 0;
    while i < v.len()
        invariant
            i <= v@.len(),
            out@ == start + "["@ + numbers_joined(v@.take(i as int)),
        decreases v@.len() - i,
    {
        let ghost pre = v@.take(i as int);
        if i > 0 {
            push_str(out, ", ");
        }
        push_str(out, decimal_string(v[i] as u64).as_str());
        i = i + 1;
        proof {
            let t = v@.take(i as int);
            assert(t.drop_last() =~= pre);
            assert(t.last() == v@[i - 1]);
            if i == 1 {
                assert(numbers_joined(pre) == Seq::<char>::empty());
                assert(out@ =~= start + "["@ + numbers_joined(t));
            } else {
                assert(out@ =~= start + "["@ + numbers_joined(t));
            }
        }
    }
    assert(v@.take(v@.len() as int) =~= v@);
    push_str(out, "]");
    assert(out@ =~= start + numbers_text(v@));
}

/// The text answer to a search for `word` that found `files`.
#[verifier::spinoff_prover]
#[verifier::rlimit(40)]
pub fn format_results(word: &str, files: &Vec<(String, Vec<usize>)>) -> (r: String)
    ensures
        r@ == results_text(word@, files_view(files@)),
{
    let mut out = String::from_str("Search results for: ");
    push_str(&mut out, word);
    push_str(&mut out, "\n");
    let ghost head = out@;
    let ghost fv = files_view(files@);
    let mut i: usize = 0;
    while i < files.len()
        invariant
            fv == files_view(files@),
            i <= files@.len(),
            out@ == head + file_blocks(fv.take(i as int)),
        decreases files@.len() - i,
    {
        let (path, positions) = &files[i];
        push_str(&mut out, "File: ");
        push_str(&mut out, path.as_str());
        push_str(&mut out, "\nOccurrences: ");
        push_str(&mut out, decimal_string(positions.len() as u64).as_str());
        push_str(&mut out, "\nIndices: ");
        push_numbers(&mut out, positions);
        push_str(&mut out, "\n\n");
        proof {
            let t = fv.take(i + 1);
            assert(t.drop_last() =~= fv.take(i as int));
            assert(t.last() == (path@, positions@));
        }
        i = i + 1;
        assert(out@ =~= head + file_blocks(fv.take(i as int)));
    }
    assert(fv.take(fv.len() as int) =~= fv);
    out
}

/// The text `serde_json::to_string` writes for the JSON object that maps each path of `files`
/// to its positions (a later entry for a path replaces an earlier one), or `None` when it
/// reports an error.
pub uninterp spec fn spec_files_json(files: Seq<(Seq<char>, Seq<usize>)>) -> Option<Seq<char>>;

/// The views of an optional string.
pub open spec fn opt_string_view(o: Option<String>) -> Option<Seq<char>> {
    match o {
        Some(s) => Some(s@),
        None => None,
    }
}

/// Calls `serde_json::to_string` on the map from each path of `files` to its positions, with
/// the paths in increasing order; the result is the named text of the files.
#[verifier::external_body]
fn files_json(files: &Vec<(String, Vec<usize>)>) -> (r: Option<String>)
    ensures
        opt_string_view(r) == spec_files_json(files_view(files@)),
{
    let map: std::collections::BTreeMap<&str, &Vec<usize>> = files.iter().map(|e| (e.0.as_str(), &e.1)).collect();
    serde_json::to_string(&map).ok()
}

/// The JSON answer body for the files found: their JSON object, or `{}` when it cannot be written.
pub open spec fn found_json(files: Seq<(Seq<char>, Seq<usize>)>) -> Seq<char> {
    match spec_files_json(files) {
        Some(t) => t,
        None => "{}"@,
    }
}

/// The answer to a search for `word`, given what the index found: the files as JSON or as text
/// with status `200`, or `404` when nothing was found.
pub fn search_answer(word: &str, as_json: bool, found: Option<Vec<(String, Vec<usize>)>>) -> (r: HttpResponse)
    ensures
        r.wf(),
        r@ == (match found {
            Some(files) if files@.len() > 0 => if as_json {
                json_response(StatusCode::OK, found_json(files_view(files@)))
            } else {
                text_response(StatusCode::OK, results_text(word@, files_view(files@)))
            },
            _ => if as_json {
                json_response(StatusCode::NOT_FOUND, "{\"error\": \"No results found\"}"@)
            } else {
                text_response(StatusCode::NOT_FOUND, "No results found\n"@)
            },
        }),
{
    match found {
        Some(files) if files.len() > 0 => {
            if as_json {
                let body = match files_json(&files) {
                    Some(t) => t,
                    None => String::from_str("{}"),
                };
                HttpResponse::json(StatusCode::OK, body)
            } else {
                let text = format_results(word, &files);
                HttpResponse::new(StatusCode::OK, text.as_str())
            }
        },
        _ => {
            if as_json {
                HttpResponse::json(StatusCode::NOT_FOUND, String::from_str("{\"error\": \"No results found\"}"))
            } else {
                HttpResponse::new(StatusCode::NOT_FOUND, "No results found\n")
            }
        },
    }
}

/// The message for a download without a file.
pub open spec fn download_usage() -> Seq<char> {
    "Missing 'file' parameter. Use GET /download?file=path or POST /download with JSON body {\"file\": \"path\"}"@
}

/// The file a download asks for: from the JSON body when the request has one, else from the
/// query parameters (the `file` field first, then the raw `file` query entry); an unreadable
/// body, or a missing or blank name, gets a `400` answer.
pub fn download_file_of(req: &HttpRequest, params: DownloadParams, body: Option<Result<DownloadParams, ()>>) -> (r: Result<String, HttpResponse>)
    requires
        req.wf(),
        body is Some <==> json_body_spec(req@),
    ensures
        ({
            let asked: Option<Seq<char>> = match body {
                Some(Ok(p)) => opt_string_view(p.file),
                _ => match params.file {
                    Some(f) => Some(f@),
                    None => if req@.query.contains_key("file"@) {
                        Some(req@.query["file"@])
                    } else {
                        None
                    },
                },
            };
            match r {
                Ok(f) => !(body matches Some(Err(_))) && asked == Some(f@) && trim_spec(f@).len() > 0,
                Err(resp) => resp.wf() && if body matches Some(Err(_)) {
                    resp@ == error_response(StatusCode::BAD_REQUEST, "Invalid JSON body. Expected: {\"file\": \"path/to/file\"}"@, accepts_json_spec(req@))
                } else {
                    resp@ == error_response(StatusCode::BAD_REQUEST, download_usage(), accepts_json_spec(req@))
                        && match asked {
                        Some(a) => trim_spec(a).len() == 0,
                        None => true,
                    }
                },
            }
        }),
{
    let aj = accepts_json(req);
    let asked: Option<String> = match body {
        Some(Ok(p)) => p.file,
        Some(Err(_)) => {
            return Err(respond_error(StatusCode::BAD_REQUEST, "Invalid JSON body. Expected: {\"file\": \"path/to/file\"}", aj));
        },
        None => match params.file {
            Some(f) => Some(f),
            None => match req.query_param("file") {
                Some(q) => Some(String::from_str(q)),
                None => None,
            },
        },
    };
    match asked {
        Some(f) => {
            let t = trim(f.as_str());
            if !t.as_str().is_empty() {
                return Ok(f);
            }
        },
        None => {},
    }
    Err(respond_error(
        StatusCode::BAD_REQUEST,
        "Missing 'file' parameter. Use GET /download?file=path or POST /download with JSON body {\"file\": \"path\"}",
        aj,
    ))
}

/// What became of the file a download asked for.
pub enum FileFetch {
    /// No regular file at that path.
    Missing,
    /// Its content, and its name when it has one that is valid text.
    Read { name: Option<String>, content: Vec<u8> },
    /// Reading it failed with this error.
    Failed { error: String },
}

/// The answer to a download: the file under its name (or `downloaded_file`), `404` when there
/// is no such file, `400` when it could not be read.
pub fn download_answer(as_json: bool, fetch: FileFetch) -> (r: HttpResponse)
    ensures
        r.wf(),
        r@ == (match fetch {
            FileFetch::Missing => error_response(StatusCode::NOT_FOUND, "File not found\n"@, as_json),
            FileFetch::Read { name, content } => ResponseView {
                status: StatusCode::OK,
                headers: Map::<Seq<char>, Seq<char>>::empty().insert(
                    "content-type"@,
                    ContentType::ApplicationOctetStream.spec_str(),
                ).insert(
                    "content-disposition"@,
                    crate::finder::http::response::attachment(match name {
                        Some(n) => n@,
                        None => "downloaded_file"@,
                    }),
                ),
                body: content@,
            },
            FileFetch::Failed { error } => error_response(
                StatusCode::BAD_REQUEST,
                "Failed to read file: "@ + error@ + "\n"@,
                as_json,
            ),
        }),
{
    match fetch {
        FileFetch::Missing => respond_error(StatusCode::NOT_FOUND, "File not found\n", as_json),
        FileFetch::Read { name, content } => match name {
            Some(n) => HttpResponse::file(n.as_str(), content),
            None => HttpResponse::file("downloaded_file", content),
        },
        FileFetch::Failed { error } => {
            let mut msg = String::from_str("Failed to read file: ");
            msg.append(error.as_str());
            msg.append("\n");
            respond_error(StatusCode::BAD_REQUEST, msg.as_str(), as_json)
        },
    }
}

} // verus!
