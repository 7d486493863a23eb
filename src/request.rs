//! Request framing: request line, header block and fixed-length body, read
//! from the bytes received on a connection.
use vstd::prelude::*;
use crate::headers::{Entries, HeaderMap, insert_entry, lookup};
use crate::text::{
    ascii, ascii_bytes, copy_range, crlf, digits_value, find_line_end, find_sep, has_line,
    has_sep, is_decimal, line_end, parse_decimal, sep_pos, split_bytes, split_on, strip_eol,
    stripped_line, deep,
};

verus! {

/// Why the bytes received so far do not make a request.
#[derive(Clone, Copy, Debug, PartialEq, Eq, Structural)]
pub enum ParseError {
    /// The bytes end before the request does: more may follow on the stream,
    /// and at its end this is a short read.
    Incomplete,
    /// The request line has fewer than three space-separated tokens.
    RequestLine,
    /// A header line holds no `": "`.
    HeaderLine,
    /// `Content-Type` is present but `Content-Length` is missing or not a number.
    ContentLength,
}

/// The first line of the head, without its terminator.
pub open spec fn first_line(s: Seq<u8>) -> Seq<u8> {
    strip_eol(s.subrange(0, line_end(s, 0) + 1))
}

/// Reads header lines from `pos` until the blank line, inserting each into
/// `acc`; yields the headers and the position just after the blank line.
pub open spec fn scan_headers(s: Seq<u8>, pos: int, acc: Entries) -> Result<(Entries, int), ParseError>
    decreases s.len() - pos,
{
    if !has_line(s, pos) {
        Err(ParseError::Incomplete)
    } else {
        let e = line_end(s, pos);
        let line = s.subrange(pos, e + 1);
        if line == crlf() {
            Ok((acc, e + 1))
        } else {
            let t = strip_eol(line);
            if !has_sep(t) {
                Err(ParseError::HeaderLine)
            } else {
                let i = sep_pos(t);
                scan_headers(s, e + 1, insert_entry(acc, t.subrange(0, i), t.subrange(i + 2, t.len() as int)))
            }
        }
    }
}

/// The head of a message: its first line, its headers, and where its body starts.
pub open spec fn head_spec(s: Seq<u8>) -> Result<(Seq<u8>, Entries, int), ParseError> {
    if !has_line(s, 0) {
        Err(ParseError::Incomplete)
    } else {
        match scan_headers(s, line_end(s, 0) + 1, Seq::empty()) {
            Ok((h, b)) => Ok((first_line(s), h, b)),
            Err(x) => Err(x),
        }
    }
}

pub struct RequestView {
    pub method: Seq<u8>,
    pub path: Seq<u8>,
    pub path_segments: Seq<Seq<u8>>,
    pub http_version: Seq<u8>,
    pub headers: Entries,
    pub body: Seq<u8>,
}

/// The request that the bytes `s` hold. A body of `Content-Length` bytes is
/// read only when a `Content-Type` header is present.
pub open spec fn request_spec(s: Seq<u8>) -> Result<RequestView, ParseError> {
    if !has_line(s, 0) {
        Err(ParseError::Incomplete)
    } else if split_bytes(first_line(s), 32u8).len() < 3 {
        Err(ParseError::RequestLine)
    } else {
        match head_spec(s) {
            Err(x) => Err(x),
            Ok((first, h, b)) => {
                let t = split_bytes(first, 32u8);
                let req = RequestView {
                    method: t[0],
                    path: t[1],
                    path_segments: split_bytes(t[1], 47u8),
                    http_version: t[2],
                    headers: h,
                    body: Seq::empty(),
                };
                if lookup(h, ascii("Content-Type")) is None {
                    Ok(req)
                } else {
                    match lookup(h, ascii("Content-Length")) {
                        None => Err(ParseError::ContentLength),
                        Some(v) => {
                            if !(is_decimal(v) && digits_value(v) <= usize::MAX) {
                                Err(ParseError::ContentLength)
                            } else if b + digits_value(v) > s.len() {
                                Err(ParseError::Incomplete)
                            } else {
                                Ok(RequestView { body: s.subrange(b, b + digits_value(v)), ..req })
                            }
                        },
                    }
                }
            },
        }
    }
}

/// A parsed message head.
pub struct Head {
    pub start_line: Vec<u8>,
    pub headers: HeaderMap,
    pub body_start: usize,
}

/// A parsed request. `path_segments` is `path` split on `/`, so an absolute
/// path starts with an empty segment.
pub struct Request {
    pub method: Vec<u8>,
    pub path: Vec<u8>,
    pub path_segments: Vec<Vec<u8>>,
    pub http_version: Vec<u8>,
    pub headers: HeaderMap,
    pub body: Vec<u8>,
}

impl Request {
    /// The headers are a map, and the segments are those of the path.
    pub open spec fn wf(&self) -> bool {
        &&& self.headers.wf()
        &&& deep(self.path_segments@) == split_bytes(self.path@, 47u8)
    }
}

impl View for Request {
    type V = RequestView;

    open spec fn view(&self) -> RequestView {
        RequestView {
            method: self.method@,
            path: self.path@,
            path_segments: deep(self.path_segments@),
            http_version: self.http_version@,
            headers: self.headers@,
            body: self.body@,
        }
    }
}

/// Reads a message head: the first line, then header lines up to the blank
/// line. Each header line is split at its first `": "`; a later line with the
/// same name replaces the value of an earlier one.
pub fn parse_head(s: &[u8]) -> (r: Result<Head, ParseError>)
    ensures
        r matches Ok(hd) ==> hd.headers.wf() && hd.body_start <= s@.len() && head_spec(s@) == Ok::<_, ParseError>(
            (hd.start_line@, hd.headers@, hd.body_start as int),
        ),
        r matches Err(x) ==> head_spec(s@) == Err::<(Seq<u8>, Entries, int), _>(x),
{
    let first_end = match find_line_end(s, 0) {
        Some(e) => e,
        None => return Err(ParseError::Incomplete),
    };
    let len = s.len();
    let start_line = stripped_line(s, 0, first_end);
    let mut headers = HeaderMap::new();
    let mut pos: usize = first_end + 1;
    let ghost start = first_end as int + 1;
    while pos <= s.len()
        invariant
            headers.wf(),
            first_end < pos <= s@.len(),
            first_end == line_end(s@, 0),
            has_line(s@, 0),
            start == first_end + 1,
            start_line@ == first_line(s@),
            scan_headers(s@, start, Seq::empty()) == scan_headers(s@, pos as int, headers@),
        decreases s@.len() - pos,
    {
        let e = match find_line_end(s, pos) {
            Some(e) => e,
            None => return Err(ParseError::Incomplete),
        };
        if e == pos + 1 && s[pos] == 13u8 {
            assert(s@.subrange(pos as int, e + 1) =~= crlf());
            return Ok(Head { start_line, headers, body_start: e + 1 });
        }
        assert(s@.subrange(pos as int, e + 1) != crlf()) by {
            if s@.subrange(pos as int, e + 1) == crlf() {
                assert(s@.subrange(pos as int, e + 1)[0] == s@[pos as int]);
            }
        }
        let t = stripped_line(s, pos, e);
        let i = match find_sep(t.as_slice()) {
            Some(i) => i,
            None => return Err(ParseError::HeaderLine),
        };
        let name = copy_range(t.as_slice(), 0, i);
        let value = copy_range(t.as_slice(), i + 2, t.len());
        headers.insert(name, value);
        pos = e + 1;
    }
    Err(ParseError::Incomplete)
}

/// Reads a request from the bytes received so far. `Incomplete` means that
/// the bytes end before the request does.
pub fn parse_request(s: &[u8]) -> (r: Result<Request, ParseError>)
    ensures
        r matches Ok(req) ==> req.wf() && request_spec(s@) == Ok::<_, ParseError>(req@),
        r matches Err(x) ==> request_spec(s@) == Err::<RequestView, _>(x),
{
    let first_end = match find_line_end(s, 0) {
        Some(e) => e,
        None => return Err(ParseError::Incomplete),
    };
    let line = stripped_line(s, 0, first_end);
    let mut tokens = split_on(line.as_slice(), 32u8);
    if tokens.len() < 3 {
        return Err(ParseError::RequestLine);
    }
    let head = match parse_head(s) {
        Ok(h) => h,
        Err(x) => return Err(x),
    };
    let http_version = tokens.remove(2);
    let path = tokens.remove(1);
    let method = tokens.remove(0);
    let path_segments = split_on(path.as_slice(), 47u8);
    let mut req = Request {
        method,
        path,
        path_segments,
        http_version,
        headers: head.headers,
        body: Vec::new(),
    };
    proof {
        reveal_strlit("Content-Type");
        reveal_strlit("Content-Length");
        vstd::string::is_ascii_spec_bytes("Content-Type");
        vstd::string::is_ascii_spec_bytes("Content-Length");
    }
    if !req.headers.contains(ascii_bytes("Content-Type")) {
        assert(req@ =~= RequestView { body: Seq::empty(), ..req@ });
        return Ok(req);
    }
    let n = match req.headers.get(ascii_bytes("Content-Length")) {
        None => return Err(ParseError::ContentLength),
        Some(v) => match parse_decimal(v.as_slice()) {
            None => return Err(ParseError::ContentLength),
            Some(n) => n,
        },
    };
    if n > s.len() - head.body_start {
        return Err(ParseError::Incomplete);
    }
    req.body = copy_range(s, head.body_start, head.body_start + n);
    Ok(req)
}

} // verus!
