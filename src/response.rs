//! Responses and their wire format.
use vstd::prelude::*;
use crate::headers::{Entries, HeaderMap, insert_entry, key_pos, lemma_key_pos, unique_keys};
use crate::request::{first_line, head_spec, scan_headers};
use crate::text::{
    append_bytes, ascii, ascii_bytes, crlf, decimal, is_line_end, is_sep_at, lemma_line_end_unique,
    lemma_sep_unique, no_sep, push_decimal, strip_eol,
};
use vstd::string::StringSliceAdditionalSpecFns;

verus! {

#[derive(Clone, Copy, Debug, PartialEq, Eq, Structural)]
pub enum HttpStatus {
    OK,
    BadRequest,
    NotFound,
    InternalServerError,
}

/// The status line text of each status.
pub open spec fn status_text(s: HttpStatus) -> Seq<u8> {
    match s {
        HttpStatus::OK => ascii("200 OK"),
        HttpStatus::BadRequest => ascii("400 Bad Request"),
        HttpStatus::NotFound => ascii("404 Not Found"),
        HttpStatus::InternalServerError => ascii("500 Internal Server Error"),
    }
}

impl HttpStatus {
    pub fn as_str(&self) -> (r: &'static str)
        ensures
            vstd::string::is_ascii(r),
            ascii(r) == status_text(*self),
    {
        proof {
            reveal_strlit("200 OK");
            reveal_strlit("400 Bad Request");
            reveal_strlit("404 Not Found");
            reveal_strlit("500 Internal Server Error");
        }
        match self {
            HttpStatus::OK => "200 OK",
            HttpStatus::BadRequest => "400 Bad Request",
            HttpStatus::NotFound => "404 Not Found",
            HttpStatus::InternalServerError => "500 Internal Server Error",
        }
    }
}

/// `name: value` and a line terminator.
pub open spec fn header_line(e: (Seq<u8>, Seq<u8>)) -> Seq<u8> {
    e.0 + seq![58u8, 32u8] + e.1 + crlf()
}

/// The header lines of `h`, in order.
pub open spec fn header_block(h: Entries) -> Seq<u8>
    decreases h.len(),
{
    if h.len() == 0 {
        Seq::empty()
    } else {
        header_block(h.drop_last()) + header_line(h.last())
    }
}

/// Everything before the header lines.
pub open spec fn status_line(s: HttpStatus) -> Seq<u8> {
    ascii("HTTP/1.1 ") + status_text(s) + crlf()
}

/// The bytes sent for a response: status line, header lines, a blank line,
/// then the body with no terminator.
pub open spec fn wire(s: HttpStatus, h: Entries, body: Seq<u8>) -> Seq<u8> {
    status_line(s) + header_block(h) + crlf() + body
}

pub struct ResponseView {
    pub status: HttpStatus,
    pub headers: Entries,
    pub body: Seq<u8>,
}

pub struct Response {
    pub status: HttpStatus,
    pub headers: HeaderMap,
    pub body: Vec<u8>,
}

impl View for Response {
    type V = ResponseView;

    open spec fn view(&self) -> ResponseView {
        ResponseView { status: self.status, headers: self.headers@, body: self.body@ }
    }
}

impl Response {
    /// A response with no headers yet.
    pub fn new(status: HttpStatus, body: Vec<u8>) -> (r: Response)
        ensures
            r.status == status,
            r.headers@ == Seq::<(Seq<u8>, Seq<u8>)>::empty(),
            r.headers.wf(),
            r.body@ == body@,
    {
        Response { status, headers: HeaderMap::new(), body }
    }

    /// Sets `Content-Type` to `content_type` and `Content-Length` to the byte
    /// length of the body.
    pub fn add_content_headers(&mut self, content_type: &str)
        requires
            old(self).headers.wf(),
        ensures
            final(self).headers.wf(),
            final(self).status == old(self).status,
            final(self).body@ == old(self).body@,
            final(self).headers@ == insert_entry(
                insert_entry(old(self).headers@, ascii("Content-Type"), content_type.spec_bytes()),
                ascii("Content-Length"),
                decimal(old(self).body@.len()),
            ),
    {
        proof {
            reveal_strlit("Content-Type");
            reveal_strlit("Content-Length");
            vstd::string::is_ascii_spec_bytes("Content-Type");
            vstd::string::is_ascii_spec_bytes("Content-Length");
        }
        let name = ascii_bytes("Content-Type");
        let mut k: Vec<u8> = Vec::new();
        append_bytes(&mut k, name);
        assert(k@ =~= ascii("Content-Type"));
        let mut v: Vec<u8> = Vec::new();
        append_bytes(&mut v, content_type.as_bytes());
        assert(v@ =~= content_type.spec_bytes());
        self.headers.insert(k, v);
        let name = ascii_bytes("Content-Length");
        let mut k: Vec<u8> = Vec::new();
        append_bytes(&mut k, name);
        assert(k@ =~= ascii("Content-Length"));
        let mut v: Vec<u8> = Vec::new();
        push_decimal(&mut v, self.body.len());
        assert(v@ =~= decimal(old(self).body@.len()));
        self.headers.insert(k, v);
    }

    /// Serializes the response: headers in their stored order, nothing added.
    pub fn to_bytes(&self) -> (r: Vec<u8>)
        ensures
            r@ == wire(self.status, self.headers@, self.body@),
    {
        proof {
            reveal_strlit("HTTP/1.1 ");
            vstd::string::is_ascii_spec_bytes("HTTP/1.1 ");
        }
        let mut out: Vec<u8> = Vec::new();
        append_bytes(&mut out, ascii_bytes("HTTP/1.1 "));
        append_bytes(&mut out, ascii_bytes(self.status.as_str()));
        out.push(13u8);
        out.push(10u8);
        assert(out@ =~= status_line(self.status));
        let mut i: usize = 0;
        while i < self.headers.len()
            invariant
                i <= self.headers@.len(),
                out@ == status_line(self.status) + header_block(self.headers@.subrange(0, i as int)),
            decreases self.headers@.len() - i,
        {
            let ghost before = out@;
            append_bytes(&mut out, self.headers.name_at(i).as_slice());
            out.push(58u8);
            out.push(32u8);
            append_bytes(&mut out, self.headers.value_at(i).as_slice());
            out.push(13u8);
            out.push(10u8);
            let ghost sub = self.headers@.subrange(0, i as int + 1);
            assert(sub.drop_last() =~= self.headers@.subrange(0, i as int));
            assert(out@ =~= before + header_line(sub.last()));
            i = i + 1;
        }
        assert(self.headers@.subrange(0, self.headers@.len() as int) =~= self.headers@);
        out.push(13u8);
        out.push(10u8);
        append_bytes(&mut out, self.body.as_slice());
        assert(out@ =~= wire(self.status, self.headers@, self.body@));
        out
    }
}

/// No line feed in `t`.
pub open spec fn one_line(t: Seq<u8>) -> bool {
    forall|i: int| 0 <= i < t.len() ==> t[i] != 10u8
}

/// Headers that the wire format carries unchanged: names are unique and hold
/// no `": "`, and neither names nor values hold a line feed.
pub open spec fn wire_safe(h: Entries) -> bool {
    &&& unique_keys(h)
    &&& forall|i: int| 0 <= i < h.len() ==> no_sep(#[trigger] h[i].0) && one_line(h[i].0) && one_line(h[i].1)
}

proof fn lemma_block_prefix(h: Entries, k: int, m: int)
    requires
        0 <= k <= m <= h.len(),
    ensures
        header_block(h.subrange(0, k)).len() <= header_block(h.subrange(0, m)).len(),
        header_block(h.subrange(0, m)).subrange(0, header_block(h.subrange(0, k)).len() as int)
            == header_block(h.subrange(0, k)),
    decreases m - k,
{
    if k < m {
        lemma_block_prefix(h, k, m - 1);
        assert(h.subrange(0, m).drop_last() =~= h.subrange(0, m - 1));
        let a = header_block(h.subrange(0, m - 1));
        let b = header_block(h.subrange(0, m));
        assert(b == a + header_line(h[m - 1]));
        let lk = header_block(h.subrange(0, k)).len() as int;
        assert(b.subrange(0, lk) =~= a.subrange(0, lk));
    } else {
        let b = header_block(h.subrange(0, m));
        assert(b.subrange(0, b.len() as int) =~= b);
    }
}

/// The header lines of `h` from the `k`-th on, followed by the blank line,
/// read back as `h`.
proof fn lemma_scan_wire(w: Seq<u8>, start: int, h: Entries, k: int)
    requires
        wire_safe(h),
        0 <= k <= h.len(),
        0 <= start,
        start + header_block(h).len() + 2 <= w.len(),
        w.subrange(start, start + header_block(h).len()) == header_block(h),
        w.subrange(start + header_block(h).len(), start + header_block(h).len() + 2) == crlf(),
    ensures
        scan_headers(w, start + header_block(h.subrange(0, k)).len(), h.subrange(0, k)) == Ok::<_, crate::request::ParseError>(
            (h, start + header_block(h).len() + 2),
        ),
    decreases h.len() - k,
{
    let n = h.len() as int;
    let pos = start + header_block(h.subrange(0, k)).len();
    let end = start + header_block(h).len();
    assert(h.subrange(0, n) =~= h);
    if k == n {
        assert(w[end] == 13u8 && w[end + 1] == 10u8) by {
            assert(w.subrange(end, end + 2)[0] == w[end]);
            assert(w.subrange(end, end + 2)[1] == w[end + 1]);
        }
        lemma_line_end_unique(w, end, end + 1);
        assert(w.subrange(end, end + 2) =~= crlf());
    } else {
        lemma_block_prefix(h, k + 1, n);
        lemma_block_prefix(h, k, k + 1);
        assert(h.subrange(0, k + 1).drop_last() =~= h.subrange(0, k));
        let e = h[k];
        let line = header_line(e);
        let lk = header_block(h.subrange(0, k)).len() as int;
        let lk1 = header_block(h.subrange(0, k + 1)).len() as int;
        assert(header_block(h.subrange(0, k + 1)) == header_block(h.subrange(0, k)) + line);
        assert(lk1 == lk + line.len());
        let blk = header_block(h);
        assert(blk.subrange(lk, lk1) =~= line) by {
            assert(blk.subrange(0, lk1) == header_block(h.subrange(0, k + 1)));
            assert forall|j: int| 0 <= j < line.len() implies blk.subrange(lk, lk1)[j] == line[j] by {
                assert(blk.subrange(0, lk1)[lk + j] == blk[lk + j]);
            }
        }
        assert(w.subrange(pos, pos + line.len()) =~= line) by {
            assert forall|j: int| 0 <= j < line.len() implies w.subrange(pos, pos + line.len())[j] == line[j] by {
                assert(w.subrange(start, end)[lk + j] == w[pos + j]);
                assert(blk.subrange(lk, lk1)[j] == blk[lk + j]);
            }
        }
        let nl = (e.0.len() + 2 + e.1.len()) as int;
        assert(is_line_end(w, pos, pos + nl + 1)) by {
            assert(w.subrange(pos, pos + line.len())[nl + 1] == w[pos + nl + 1]);
            assert forall|j: int| pos <= j < pos + nl + 1 implies w[j] != 10u8 by {
                assert(w.subrange(pos, pos + line.len())[j - pos] == w[j]);
                let t = j - pos;
                if t < e.0.len() {
                    assert(line[t] == e.0[t]);
                } else if t < e.0.len() + 2 {
                } else if t < nl {
                    assert(line[t] == e.1[t - e.0.len() - 2]);
                }
            }
        }
        lemma_line_end_unique(w, pos, pos + nl + 1);
        assert(w.subrange(pos, pos + nl + 2) =~= line);
        assert(line != crlf()) by {
            assert(line.len() >= 4);
        }
        let t = strip_eol(line);
        assert(t =~= e.0 + seq![58u8, 32u8] + e.1);
        assert(is_sep_at(t, e.0.len() as int)) by {
            assert forall|j: int| 0 <= j < e.0.len() implies !(#[trigger] t[j] == 58u8 && t[j + 1] == 32u8) by {
                assert(t[j] == e.0[j]);
                if j + 1 < e.0.len() {
                    assert(t[j + 1] == e.0[j + 1]);
                }
            }
        }
        lemma_sep_unique(t, e.0.len() as int);
        assert(t.subrange(0, e.0.len() as int) =~= e.0);
        assert(t.subrange(e.0.len() as int + 2, t.len() as int) =~= e.1);
        lemma_key_pos(h.subrange(0, k), e.0);
        assert(key_pos(h.subrange(0, k), e.0) < 0) by {
            assert forall|i: int| 0 <= i < k implies h.subrange(0, k)[i].0 != e.0 by {
                assert(h.subrange(0, k)[i] == h[i]);
            }
        }
        assert(insert_entry(h.subrange(0, k), e.0, e.1) =~= h.subrange(0, k + 1));
        lemma_scan_wire(w, start, h, k + 1);
    }
}

/// Reading the bytes of a response back as a message head gives its status
/// line, its headers in order, and then exactly its body.
pub proof fn lemma_wire_round_trip(status: HttpStatus, h: Entries, body: Seq<u8>)
    requires
        wire_safe(h),
    ensures
        head_spec(wire(status, h, body)) matches Ok((line, headers, start)) && line == ascii("HTTP/1.1 ")
            + status_text(status) && headers == h && wire(status, h, body).subrange(
            start,
            wire(status, h, body).len() as int,
        ) == body,
{
    let w = wire(status, h, body);
    let sl = status_line(status);
    let blk = header_block(h);
    let start = sl.len() as int;
    reveal_strlit("HTTP/1.1 ");
    reveal_strlit("200 OK");
    reveal_strlit("400 Bad Request");
    reveal_strlit("404 Not Found");
    reveal_strlit("500 Internal Server Error");
    assert(w.subrange(0, start) =~= sl);
    assert forall|j: int| 0 <= j < start - 1 implies w[j] != 10u8 by {
        assert(w.subrange(0, start)[j] == w[j]);
    }
    assert(w[start - 1] == 10u8) by {
        assert(w.subrange(0, start)[start - 1] == w[start - 1]);
    }
    lemma_line_end_unique(w, 0, start - 1);
    assert(first_line(w) =~= ascii("HTTP/1.1 ") + status_text(status));
    assert(w.subrange(start, start + blk.len()) =~= blk);
    assert(w.subrange(start + blk.len(), start + blk.len() + 2) =~= crlf());
    assert(h.subrange(0, 0) =~= Seq::<(Seq<u8>, Seq<u8>)>::empty());
    assert(header_block(h.subrange(0, 0)).len() == 0);
    lemma_scan_wire(w, start, h, 0);
    assert(w.subrange(start + blk.len() + 2, w.len() as int) =~= body);
}

} // verus!
