//! Routing: from a parsed request to the response to send, or to the file
//! operation whose outcome decides it.
use vstd::prelude::*;
use crate::headers::{Entries, insert_entry, key_pos, lookup};
use crate::request::Request;
use vstd::string::StringSliceAdditionalSpecFns;
use crate::response::{HttpStatus, Response, ResponseView, header_block, header_line, status_line, wire};
use crate::text::crlf;
use crate::text::{
    append_bytes, ascii, ascii_bytes, ascii_vec, bytes_eq, decimal, deep, lemma_split_concat,
    lemma_split_none, lemma_split_nonempty, split_bytes, starts_with,
};

verus! {

/// `Content-Type` then `Content-Length`, for a body of `n` bytes.
pub open spec fn content_headers(content_type: Seq<u8>, n: nat) -> Entries {
    seq![(ascii("Content-Type"), content_type), (ascii("Content-Length"), decimal(n))]
}

/// A response whose headers describe its body.
pub open spec fn with_body(status: HttpStatus, body: Seq<u8>, content_type: Seq<u8>) -> ResponseView {
    ResponseView { status, headers: content_headers(content_type, body.len()), body }
}

pub open spec fn text_plain() -> Seq<u8> {
    ascii("text/plain")
}

pub open spec fn not_found() -> ResponseView {
    with_body(HttpStatus::NotFound, ascii("Not Found"), text_plain())
}

pub open spec fn server_error() -> ResponseView {
    with_body(HttpStatus::InternalServerError, ascii("Internal Server Error"), text_plain())
}

pub open spec fn has_prefix(s: Seq<u8>, p: Seq<u8>) -> bool {
    p.len() <= s.len() && s.subrange(0, p.len() as int) == p
}

/// A path segment that names the parent directory.
pub open spec fn escapes(rel: Seq<Seq<u8>>) -> bool {
    exists|i: int| 0 <= i < rel.len() && rel[i] == seq![46u8, 46u8]
}

/// What the server does with a request.
pub enum Action {
    /// Send this response.
    Respond(Response),
    /// Read the file at these segments under the root; see `read_response`.
    ReadFile(Vec<Vec<u8>>),
    /// Write these bytes to the file at these segments under the root; see
    /// `write_response`.
    WriteFile(Vec<Vec<u8>>, Vec<u8>),
    /// Send nothing and close the connection.
    NoResponse,
}

pub enum ActionView {
    Respond(ResponseView),
    ReadFile(Seq<Seq<u8>>),
    WriteFile(Seq<Seq<u8>>, Seq<u8>),
    NoResponse,
}

impl View for Action {
    type V = ActionView;

    open spec fn view(&self) -> ActionView {
        match self {
            Action::Respond(r) => ActionView::Respond(r@),
            Action::ReadFile(p) => ActionView::ReadFile(deep(p@)),
            Action::WriteFile(p, b) => ActionView::WriteFile(deep(p@), b@),
            Action::NoResponse => ActionView::NoResponse,
        }
    }
}

/// The routing table, first match wins:
/// `/` greets; `/user-agent` echoes the `User-Agent` header (400 without
/// one); `/echo/{s}` echoes the first segment after the prefix; `/files/...`
/// reads on GET and writes on POST the file named by the remaining segments,
/// refuses a `..` segment with 404 and answers other methods with nothing;
/// anything else is 404.
pub open spec fn route_spec(method: Seq<u8>, path: Seq<u8>, headers: Entries, body: Seq<u8>) -> ActionView {
    if path == ascii("/") {
        ActionView::Respond(with_body(HttpStatus::OK, ascii("Hello, world"), text_plain()))
    } else if path == ascii("/user-agent") {
        match lookup(headers, ascii("User-Agent")) {
            Some(agent) => ActionView::Respond(with_body(HttpStatus::OK, agent, text_plain())),
            None => ActionView::Respond(with_body(HttpStatus::BadRequest, ascii("Bad Request"), text_plain())),
        }
    } else if has_prefix(path, ascii("/echo/")) {
        let piece = split_bytes(path.subrange(6, path.len() as int), 47u8)[0];
        ActionView::Respond(with_body(HttpStatus::OK, piece, text_plain()))
    } else if has_prefix(path, ascii("/files/")) {
        let rel = split_bytes(path.subrange(7, path.len() as int), 47u8);
        if escapes(rel) {
            ActionView::Respond(not_found())
        } else if method == ascii("GET") {
            ActionView::ReadFile(rel)
        } else if method == ascii("POST") {
            ActionView::WriteFile(rel, body)
        } else {
            ActionView::NoResponse
        }
    } else {
        ActionView::Respond(not_found())
    }
}

/// The outcome of reading a file.
pub enum FileOutcome {
    Contents(Vec<u8>),
    Missing,
    Failed,
}

/// A path `/word/rest` splits into an empty segment, `word`, then the
/// segments of `rest`.
proof fn lemma_route_segments(path: Seq<u8>, n: int)
    requires
        2 <= n <= path.len(),
        path[0] == 47u8,
        path[n - 1] == 47u8,
        forall|i: int| 1 <= i < n - 1 ==> path[i] != 47u8,
    ensures
        split_bytes(path, 47u8).len() >= 3,
        split_bytes(path, 47u8).subrange(2, split_bytes(path, 47u8).len() as int) == split_bytes(
            path.subrange(n, path.len() as int),
            47u8,
        ),
{
    let word = path.subrange(1, n - 1);
    let rest = path.subrange(n, path.len() as int);
    let lead = Seq::<u8>::empty().push(47u8) + word;
    assert(path =~= lead.push(47u8) + rest);
    lemma_split_concat(lead, rest, 47u8);
    lemma_split_concat(Seq::<u8>::empty(), word, 47u8);
    assert(Seq::<u8>::empty().push(47u8) + word =~= lead);
    lemma_split_none(word, 47u8);
    lemma_split_nonempty(rest, 47u8);
    assert(split_bytes(Seq::<u8>::empty(), 47u8) == seq![Seq::<u8>::empty()]);
    let all = split_bytes(path, 47u8);
    assert(all.subrange(2, all.len() as int) =~= split_bytes(rest, 47u8));
}

/// Whether a segment is `..`.
fn names_parent(rel: &Vec<Vec<u8>>) -> (r: bool)
    ensures
        r == escapes(deep(rel@)),
{
    let mut i: usize = 0;
    while i < rel.len()
        invariant
            i <= rel@.len(),
            forall|j: int| 0 <= j < i ==> deep(rel@)[j] != seq![46u8, 46u8],
        decreases rel@.len() - i,
    {
        if rel[i].len() == 2 && rel[i][0] == 46u8 && rel[i][1] == 46u8 {
            assert(deep(rel@)[i as int] =~= seq![46u8, 46u8]);
            return true;
        }
        assert(deep(rel@)[i as int] != seq![46u8, 46u8]) by {
            if deep(rel@)[i as int] == seq![46u8, 46u8] {
                assert(rel@[i as int]@.len() == 2);
            }
        }
        i = i + 1;
    }
    false
}

/// A response with `Content-Type` and `Content-Length` set for its body.
pub fn respond_with(status: HttpStatus, body: Vec<u8>, content_type: &str) -> (r: Response)
    requires
        vstd::string::is_ascii(content_type),
    ensures
        r@ == with_body(status, body@, ascii(content_type)),
        r.headers.wf(),
{
    proof {
        reveal_strlit("Content-Type");
        reveal_strlit("Content-Length");
        vstd::string::is_ascii_spec_bytes(content_type);
        assert(content_type.spec_bytes() =~= ascii(content_type));
    }
    let mut r = Response::new(status, body);
    r.add_content_headers(content_type);
    proof {
        let e = Seq::<(Seq<u8>, Seq<u8>)>::empty();
        let one = insert_entry(e, ascii("Content-Type"), ascii(content_type));
        assert(one =~= seq![(ascii("Content-Type"), ascii(content_type))]);
        assert(key_pos(one.drop_last(), ascii("Content-Length")) == -1);
        assert(ascii("Content-Type").len() != ascii("Content-Length").len());
        assert(r.headers@ =~= content_headers(ascii(content_type), body@.len()));
    }
    r
}

/// Decides what to do with a request.
pub fn route(req: Request) -> (r: Action)
    requires
        req.wf(),
    ensures
        r@ == route_spec(req@.method, req@.path, req@.headers, req@.body),
        r matches Action::Respond(resp) ==> resp.headers.wf(),
{
    proof {
        reveal_strlit("/");
        reveal_strlit("/user-agent");
        reveal_strlit("/echo/");
        reveal_strlit("/files/");
        reveal_strlit("User-Agent");
        reveal_strlit("Hello, world");
        reveal_strlit("text/plain");
        reveal_strlit("Bad Request");
        reveal_strlit("Not Found");
        reveal_strlit("GET");
        reveal_strlit("POST");
    }
    if bytes_eq(req.path.as_slice(), ascii_bytes("/")) {
        return Action::Respond(respond_with(HttpStatus::OK, ascii_vec("Hello, world"), "text/plain"));
    }
    if bytes_eq(req.path.as_slice(), ascii_bytes("/user-agent")) {
        return match req.headers.get(ascii_bytes("User-Agent")) {
            Some(agent) => {
                let mut body: Vec<u8> = Vec::new();
                append_bytes(&mut body, agent.as_slice());
                assert(body@ =~= agent@);
                Action::Respond(respond_with(HttpStatus::OK, body, "text/plain"))
            },
            None => Action::Respond(respond_with(HttpStatus::BadRequest, ascii_vec("Bad Request"), "text/plain")),
        };
    }
    let ghost path = req.path@;
    if starts_with(req.path.as_slice(), ascii_bytes("/echo/")) {
        proof {
            assert(path.subrange(0, 6) == ascii("/echo/"));
            assert forall|i: int| 0 <= i < 6 implies path[i] == ascii("/echo/")[i] by {
                assert(path.subrange(0, 6)[i] == path[i]);
            }
            lemma_route_segments(path, 6);
        }
        let mut segments = req.path_segments;
        let piece = segments.remove(2);
        proof {
            let all = split_bytes(path, 47u8);
            assert(all.subrange(2, all.len() as int)[0] == all[2]);
        }
        return Action::Respond(respond_with(HttpStatus::OK, piece, "text/plain"));
    }
    if starts_with(req.path.as_slice(), ascii_bytes("/files/")) {
        proof {
            assert forall|i: int| 0 <= i < 7 implies path[i] == ascii("/files/")[i] by {
                assert(path.subrange(0, 7)[i] == path[i]);
            }
            lemma_route_segments(path, 7);
        }
        let mut segments = req.path_segments;
        let rel = segments.split_off(2);
        assert(deep(rel@) =~= split_bytes(path.subrange(7, path.len() as int), 47u8));
        if names_parent(&rel) {
            return Action::Respond(respond_with(HttpStatus::NotFound, ascii_vec("Not Found"), "text/plain"));
        }
        if bytes_eq(req.method.as_slice(), ascii_bytes("GET")) {
            return Action::ReadFile(rel);
        }
        if bytes_eq(req.method.as_slice(), ascii_bytes("POST")) {
            return Action::WriteFile(rel, req.body);
        }
        return Action::NoResponse;
    }
    Action::Respond(respond_with(HttpStatus::NotFound, ascii_vec("Not Found"), "text/plain"))
}

/// The response to a GET under `/files/`, from what reading the file gave.
pub fn read_response(outcome: FileOutcome) -> (r: Response)
    ensures
        r.headers.wf(),
        outcome matches FileOutcome::Contents(b) ==> r@ == with_body(
            HttpStatus::OK,
            b@,
            ascii("application/octet-stream"),
        ),
        outcome is Missing ==> r@ == not_found(),
        outcome is Failed ==> r@ == server_error(),
{
    proof {
        reveal_strlit("application/octet-stream");
        reveal_strlit("text/plain");
        reveal_strlit("Not Found");
        reveal_strlit("Internal Server Error");
    }
    match outcome {
        FileOutcome::Contents(b) => respond_with(HttpStatus::OK, b, "application/octet-stream"),
        FileOutcome::Missing => respond_with(HttpStatus::NotFound, ascii_vec("Not Found"), "text/plain"),
        FileOutcome::Failed => respond_with(
            HttpStatus::InternalServerError,
            ascii_vec("Internal Server Error"),
            "text/plain",
        ),
    }
}

/// The response to a POST under `/files/`, from whether the write succeeded.
pub fn write_response(written: bool) -> (r: Response)
    ensures
        r.headers.wf(),
        written ==> r@ == with_body(HttpStatus::OK, ascii("ok"), text_plain()),
        !written ==> r@ == server_error(),
{
    proof {
        reveal_strlit("ok");
        reveal_strlit("text/plain");
        reveal_strlit("Internal Server Error");
    }
    if written {
        respond_with(HttpStatus::OK, ascii_vec("ok"), "text/plain")
    } else {
        respond_with(HttpStatus::InternalServerError, ascii_vec("Internal Server Error"), "text/plain")
    }
}

/// Every request for `/` gets exactly the greeting, byte for byte.
pub proof fn lemma_root_response(method: Seq<u8>, headers: Entries, body: Seq<u8>)
    ensures
        route_spec(method, ascii("/"), headers, body) matches ActionView::Respond(v) && wire(
            v.status,
            v.headers,
            v.body,
        ) == ascii("HTTP/1.1 200 OK\r\nContent-Type: text/plain\r\nContent-Length: 12\r\n\r\nHello, world"),
{
    reveal_strlit("/");
    reveal_strlit("Hello, world");
    reveal_strlit("text/plain");
    reveal_strlit("Content-Type");
    reveal_strlit("Content-Length");
    reveal_strlit("HTTP/1.1 ");
    reveal_strlit("200 OK");
    reveal_strlit("HTTP/1.1 200 OK\r\nContent-Type: text/plain\r\nContent-Length: 12\r\n\r\nHello, world");
    let v = with_body(HttpStatus::OK, ascii("Hello, world"), text_plain());
    assert(v.body.len() == 12);
    assert(decimal(12) =~= seq![49u8, 50u8]) by {
        assert(decimal(1) =~= seq![49u8]);
    }
    let h = v.headers;
    assert(h.drop_last().drop_last() =~= Seq::<(Seq<u8>, Seq<u8>)>::empty());
    assert(h.drop_last() =~= seq![h[0]]);
    assert(header_block(h.drop_last()) =~= header_line(h[0])) by {
        assert(header_block(h.drop_last().drop_last()) =~= Seq::<u8>::empty());
    }
    assert(header_block(h) =~= header_line(h[0]) + header_line(h[1]));
    let full = ascii("HTTP/1.1 200 OK\r\nContent-Type: text/plain\r\nContent-Length: 12\r\n\r\nHello, world");
    assert(status_line(HttpStatus::OK) =~= full.subrange(0, 17));
    assert(header_line(h[0]) =~= full.subrange(17, 43));
    assert(header_line(h[1]) =~= full.subrange(43, 63));
    assert(crlf() =~= full.subrange(63, 65));
    assert(v.body =~= full.subrange(65, 77));
    assert(wire(v.status, v.headers, v.body) =~= ascii(
        "HTTP/1.1 200 OK\r\nContent-Type: text/plain\r\nContent-Length: 12\r\n\r\nHello, world",
    ));
}

/// `/echo/{s}`, for any `s` without `/`, answers 200 with body `s` and a
/// `Content-Length` of its byte length.
pub proof fn lemma_echo(method: Seq<u8>, s: Seq<u8>, headers: Entries, body: Seq<u8>)
    requires
        forall|i: int| 0 <= i < s.len() ==> s[i] != 47u8,
    ensures
        route_spec(method, ascii("/echo/") + s, headers, body) == ActionView::Respond(
            with_body(HttpStatus::OK, s, text_plain()),
        ),
        content_headers(text_plain(), s.len()) == seq![
            (ascii("Content-Type"), text_plain()),
            (ascii("Content-Length"), decimal(s.len())),
        ],
{
    reveal_strlit("/echo/");
    reveal_strlit("/");
    reveal_strlit("/user-agent");
    let path = ascii("/echo/") + s;
    assert(path.subrange(0, 6) =~= ascii("/echo/"));
    assert(path.subrange(6, path.len() as int) =~= s);
    lemma_split_none(s, 47u8);
    assert(path != ascii("/")) by {
        assert(path.len() != ascii("/").len());
    }
    assert(path != ascii("/user-agent")) by {
        assert(path[1] != ascii("/user-agent")[1]);
    }
}

/// After a POST under `/files/` that the router turns into a write of the
/// body, a GET of the same path reads the very file that was written, and
/// reading back those bytes answers 200 with exactly them.
pub proof fn lemma_file_round_trip(path: Seq<u8>, post_headers: Entries, body: Seq<u8>, get_headers: Entries, get_body: Seq<u8>)
    requires
        route_spec(ascii("POST"), path, post_headers, body) is WriteFile,
    ensures
        route_spec(ascii("POST"), path, post_headers, body) matches ActionView::WriteFile(rel, written)
            && written == body
            && route_spec(ascii("GET"), path, get_headers, get_body) == ActionView::ReadFile(rel)
            && with_body(HttpStatus::OK, written, ascii("application/octet-stream")).body == body,
{
    reveal_strlit("POST");
    reveal_strlit("GET");
    assert(ascii("POST") != ascii("GET")) by {
        assert(ascii("POST").len() != ascii("GET").len());
    }
}

/// A path that matches no route is answered 404.
pub proof fn lemma_unmatched(method: Seq<u8>, path: Seq<u8>, headers: Entries, body: Seq<u8>)
    requires
        path != ascii("/"),
        path != ascii("/user-agent"),
        !has_prefix(path, ascii("/echo/")),
        !has_prefix(path, ascii("/files/")),
    ensures
        route_spec(method, path, headers, body) == ActionView::Respond(not_found()),
        not_found().status == HttpStatus::NotFound,
{
}

} // verus!
