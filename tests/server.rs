use http_core::connection::{next_step, Step};
use http_core::headers::HeaderMap;
use http_core::request::{parse_head, parse_request, ParseError, Request};
use http_core::response::{HttpStatus, Response};
use http_core::router::{read_response, route, write_response, Action, FileOutcome};

fn parse(s: &str) -> Request {
    match parse_request(s.as_bytes()) {
        Ok(r) => r,
        Err(e) => panic!("parse failed: {:?}", e),
    }
}

fn respond(s: &str) -> Response {
    match route(parse(s)) {
        Action::Respond(r) => r,
        _ => panic!("expected a response"),
    }
}

fn header(r: &Response, name: &str) -> Option<Vec<u8>> {
    r.headers.get(name.as_bytes()).cloned()
}

#[test]
fn root_response_is_exact() {
    let r = respond("GET / HTTP/1.1\r\nHost: localhost:4221\r\nUser-Agent: curl/8.0\r\n\r\n");
    assert_eq!(
        r.to_bytes(),
        b"HTTP/1.1 200 OK\r\nContent-Type: text/plain\r\nContent-Length: 12\r\n\r\nHello, world".to_vec()
    );
}

#[test]
fn root_response_ignores_method_and_headers() {
    let r = respond("POST / HTTP/1.1\r\n\r\n");
    assert_eq!(
        r.to_bytes(),
        b"HTTP/1.1 200 OK\r\nContent-Type: text/plain\r\nContent-Length: 12\r\n\r\nHello, world".to_vec()
    );
}

#[test]
fn echo_returns_segment_with_byte_length() {
    let r = respond("GET /echo/abc HTTP/1.1\r\n\r\n");
    assert_eq!(r.status, HttpStatus::OK);
    assert_eq!(r.body, b"abc".to_vec());
    assert_eq!(header(&r, "Content-Length"), Some(b"3".to_vec()));
    assert_eq!(header(&r, "Content-Type"), Some(b"text/plain".to_vec()));
}

#[test]
fn echo_counts_bytes_not_chars() {
    let s = "h\u{e9}llo\u{1F600}";
    assert_eq!(s.chars().count(), 6);
    let r = respond(&format!("GET /echo/{} HTTP/1.1\r\n\r\n", s));
    assert_eq!(r.body, s.as_bytes().to_vec());
    assert_eq!(header(&r, "Content-Length"), Some(b"10".to_vec()));
}

#[test]
fn echo_takes_only_third_segment() {
    let r = respond("GET /echo/abc/def HTTP/1.1\r\n\r\n");
    assert_eq!(r.body, b"abc".to_vec());
}

#[test]
fn echo_empty_segment() {
    let r = respond("GET /echo/ HTTP/1.1\r\n\r\n");
    assert_eq!(r.status, HttpStatus::OK);
    assert_eq!(r.body, Vec::<u8>::new());
    assert_eq!(header(&r, "Content-Length"), Some(b"0".to_vec()));
}

#[test]
fn user_agent_is_echoed() {
    let r = respond("GET /user-agent HTTP/1.1\r\nUser-Agent: foobar/1.2.3\r\n\r\n");
    assert_eq!(r.status, HttpStatus::OK);
    assert_eq!(r.body, b"foobar/1.2.3".to_vec());
    assert_eq!(header(&r, "Content-Length"), Some(b"12".to_vec()));
}

#[test]
fn user_agent_missing_is_bad_request() {
    let r = respond("GET /user-agent HTTP/1.1\r\nHost: x\r\n\r\n");
    assert_eq!(r.status, HttpStatus::BadRequest);
    assert_eq!(r.body, b"Bad Request".to_vec());
}

#[test]
fn post_then_get_reads_same_file() {
    let post = parse("POST /files/notes.txt HTTP/1.1\r\nContent-Type: application/octet-stream\r\nContent-Length: 5\r\n\r\nhello");
    let (written_to, written) = match route(post) {
        Action::WriteFile(rel, body) => (rel, body),
        _ => panic!("expected a write"),
    };
    assert_eq!(written, b"hello".to_vec());
    assert_eq!(written_to, vec![b"notes.txt".to_vec()]);
    let get = parse("GET /files/notes.txt HTTP/1.1\r\n\r\n");
    let read_from = match route(get) {
        Action::ReadFile(rel) => rel,
        _ => panic!("expected a read"),
    };
    assert_eq!(read_from, written_to);
    let r = read_response(FileOutcome::Contents(written.clone()));
    assert_eq!(r.status, HttpStatus::OK);
    assert_eq!(r.body, b"hello".to_vec());
    assert_eq!(header(&r, "Content-Type"), Some(b"application/octet-stream".to_vec()));
    assert_eq!(header(&r, "Content-Length"), Some(b"5".to_vec()));
}

#[test]
fn nested_file_path_segments() {
    match route(parse("GET /files/a/b.txt HTTP/1.1\r\n\r\n")) {
        Action::ReadFile(rel) => assert_eq!(rel, vec![b"a".to_vec(), b"b.txt".to_vec()]),
        _ => panic!("expected a read"),
    }
}

#[test]
fn missing_file_is_not_found() {
    let r = read_response(FileOutcome::Missing);
    assert_eq!(r.status, HttpStatus::NotFound);
    assert_eq!(r.body, b"Not Found".to_vec());
    assert_eq!(header(&r, "Content-Type"), Some(b"text/plain".to_vec()));
}

#[test]
fn failed_read_is_server_error() {
    let r = read_response(FileOutcome::Failed);
    assert_eq!(r.status, HttpStatus::InternalServerError);
    assert_eq!(r.body, b"Internal Server Error".to_vec());
}

#[test]
fn write_outcomes() {
    let ok = write_response(true);
    assert_eq!(ok.status, HttpStatus::OK);
    assert_eq!(ok.body, b"ok".to_vec());
    let bad = write_response(false);
    assert_eq!(bad.status, HttpStatus::InternalServerError);
    assert_eq!(bad.body, b"Internal Server Error".to_vec());
}

#[test]
fn files_other_method_sends_nothing() {
    assert!(matches!(route(parse("DELETE /files/x HTTP/1.1\r\n\r\n")), Action::NoResponse));
}

#[test]
fn files_parent_segment_refused() {
    let r = respond("GET /files/../secret HTTP/1.1\r\n\r\n");
    assert_eq!(r.status, HttpStatus::NotFound);
    assert_eq!(r.body, b"Not Found".to_vec());
}

#[test]
fn unmatched_paths_are_not_found() {
    for p in ["/nope", "/echo", "/files", "/user-agent/x", "", "//"] {
        let r = respond(&format!("GET {} HTTP/1.1\r\n\r\n", p));
        assert_eq!(r.status, HttpStatus::NotFound, "path {:?}", p);
        assert_eq!(r.body, b"Not Found".to_vec());
    }
}

#[test]
fn malformed_and_wellformed_connections_are_independent() {
    let bad = b"GET / HTTP/1.1\r\nHost: x\r\n";
    let good = b"GET /echo/hi HTTP/1.1\r\n\r\n";
    assert!(matches!(next_step(bad, false), Step::ReadMore));
    assert!(matches!(next_step(bad, true), Step::Close(ParseError::Incomplete)));
    match next_step(good, false) {
        Step::Act(Action::Respond(r)) => {
            assert_eq!(
                r.to_bytes(),
                b"HTTP/1.1 200 OK\r\nContent-Type: text/plain\r\nContent-Length: 2\r\n\r\nhi".to_vec()
            );
        }
        _ => panic!("expected a response"),
    }
}

#[test]
fn request_fields_and_segments() {
    let r = parse("GET /echo/abc HTTP/1.1\r\nHost: h\r\n\r\n");
    assert_eq!(r.method, b"GET".to_vec());
    assert_eq!(r.path, b"/echo/abc".to_vec());
    assert_eq!(r.http_version, b"HTTP/1.1".to_vec());
    assert_eq!(r.path_segments, vec![b"".to_vec(), b"echo".to_vec(), b"abc".to_vec()]);
    assert_eq!(r.headers.get(b"Host"), Some(&b"h".to_vec()));
    assert!(r.body.is_empty());
}

#[test]
fn duplicate_header_last_wins() {
    let r = parse("GET / HTTP/1.1\r\nX: 1\r\nY: 2\r\nX: 3\r\n\r\n");
    assert_eq!(r.headers.len(), 2);
    assert_eq!(r.headers.name_at(0), &b"X".to_vec());
    assert_eq!(r.headers.value_at(0), &b"3".to_vec());
    assert_eq!(r.headers.get(b"Y"), Some(&b"2".to_vec()));
}

#[test]
fn header_names_are_case_sensitive() {
    let r = parse("GET / HTTP/1.1\r\nuser-agent: a\r\n\r\n");
    assert_eq!(r.headers.get(b"User-Agent"), None);
}

#[test]
fn header_value_split_on_first_separator() {
    let r = parse("GET / HTTP/1.1\r\nX: a: b\r\n\r\n");
    assert_eq!(r.headers.get(b"X"), Some(&b"a: b".to_vec()));
}

#[test]
fn body_read_only_with_content_type() {
    let r = parse("POST /files/x HTTP/1.1\r\nContent-Length: 3\r\n\r\nabc");
    assert!(r.body.is_empty());
    let r = parse("POST /files/x HTTP/1.1\r\nContent-Type: text/plain\r\nContent-Length: 3\r\n\r\nabcdef");
    assert_eq!(r.body, b"abc".to_vec());
}

#[test]
fn too_few_tokens_is_request_line_error() {
    assert!(matches!(parse_request(b"GET /\r\n\r\n"), Err(ParseError::RequestLine)));
    assert!(matches!(parse_request(b"\r\n"), Err(ParseError::RequestLine)));
}

#[test]
fn header_without_separator_is_error() {
    assert!(matches!(
        parse_request(b"GET / HTTP/1.1\r\nBroken\r\n\r\n"),
        Err(ParseError::HeaderLine)
    ));
    assert!(matches!(next_step(b"GET / HTTP/1.1\r\nBroken\r\n", false), Step::Close(ParseError::HeaderLine)));
}

#[test]
fn bad_content_length_is_error() {
    assert!(matches!(
        parse_request(b"POST / HTTP/1.1\r\nContent-Type: a\r\n\r\n"),
        Err(ParseError::ContentLength)
    ));
    assert!(matches!(
        parse_request(b"POST / HTTP/1.1\r\nContent-Type: a\r\nContent-Length: x1\r\n\r\n"),
        Err(ParseError::ContentLength)
    ));
    assert!(matches!(
        parse_request(b"POST / HTTP/1.1\r\nContent-Type: a\r\nContent-Length: 99999999999999999999999\r\n\r\n"),
        Err(ParseError::ContentLength)
    ));
}

#[test]
fn short_body_is_incomplete() {
    let s = b"POST / HTTP/1.1\r\nContent-Type: a\r\nContent-Length: 10\r\n\r\nabc";
    assert!(matches!(parse_request(s), Err(ParseError::Incomplete)));
    assert!(matches!(next_step(s, true), Step::Close(ParseError::Incomplete)));
    assert!(matches!(parse_request(b"GET / HTTP/1.1"), Err(ParseError::Incomplete)));
    assert!(matches!(parse_request(b""), Err(ParseError::Incomplete)));
}

#[test]
fn response_round_trips_through_head_parser() {
    let mut r = Response::new(HttpStatus::NotFound, b"gone\r\n\r\nstill body".to_vec());
    r.headers.insert(b"X-One".to_vec(), b"a: b".to_vec());
    r.add_content_headers("text/plain");
    let bytes = r.to_bytes();
    let head = parse_head(&bytes).unwrap();
    assert_eq!(head.start_line, b"HTTP/1.1 404 Not Found".to_vec());
    assert_eq!(head.headers.len(), 3);
    for i in 0..3 {
        assert_eq!(head.headers.name_at(i), r.headers.name_at(i));
        assert_eq!(head.headers.value_at(i), r.headers.value_at(i));
    }
    assert_eq!(bytes[head.body_start..].to_vec(), r.body);
}

#[test]
fn content_headers_replace_in_place() {
    let mut r = Response::new(HttpStatus::OK, Vec::new());
    r.add_content_headers("a");
    r.body = b"12345678901".to_vec();
    r.add_content_headers("b");
    assert_eq!(r.headers.len(), 2);
    assert_eq!(r.headers.name_at(0), &b"Content-Type".to_vec());
    assert_eq!(r.headers.value_at(0), &b"b".to_vec());
    assert_eq!(r.headers.value_at(1), &b"11".to_vec());
}

#[test]
fn empty_response_has_no_headers() {
    let r = Response::new(HttpStatus::OK, Vec::new());
    assert_eq!(r.to_bytes(), b"HTTP/1.1 200 OK\r\n\r\n".to_vec());
}

#[test]
fn status_texts() {
    assert_eq!(HttpStatus::OK.as_str(), "200 OK");
    assert_eq!(HttpStatus::BadRequest.as_str(), "400 Bad Request");
    assert_eq!(HttpStatus::NotFound.as_str(), "404 Not Found");
    assert_eq!(HttpStatus::InternalServerError.as_str(), "500 Internal Server Error");
}

#[test]
fn header_map_insert_and_lookup() {
    let mut m = HeaderMap::new();
    assert_eq!(m.len(), 0);
    m.insert(b"A".to_vec(), b"1".to_vec());
    m.insert(b"B".to_vec(), b"2".to_vec());
    m.insert(b"A".to_vec(), b"3".to_vec());
    assert_eq!(m.len(), 2);
    assert!(m.contains(b"A"));
    assert!(!m.contains(b"C"));
    assert_eq!(m.get(b"A"), Some(&b"3".to_vec()));
    assert_eq!(m.name_at(1), &b"B".to_vec());
}
