use vstd::prelude::*;
use crate::error::ProxyError;
use crate::head::{head_of, headers_view, parse_head, trim, trim_from, Header, HeadScan};
use crate::scan::{
    all_digits, bytes_eq, bytes_eq_ignore_case, copy_range, digits_value, eq_ignore_case,
    find_byte, first_byte, is_digit, lemma_first_byte_bounds,
};

verus! {

/// How the end of a message body is found.
#[derive(Clone, Copy, Debug, PartialEq, Eq, Structural)]
pub enum FramingMode {
    ContentLength(u64),
    Chunked,
    CloseDelimited,
    NoBody,
}

pub open spec fn http11_token() -> Seq<u8> {
    seq![72u8, 84, 84, 80, 47, 49, 46, 49]
}

pub open spec fn http10_token() -> Seq<u8> {
    seq![72u8, 84, 84, 80, 47, 49, 46, 48]
}

pub open spec fn content_length_name() -> Seq<u8> {
    seq![99u8, 111, 110, 116, 101, 110, 116, 45, 108, 101, 110, 103, 116, 104]
}

pub open spec fn transfer_encoding_name() -> Seq<u8> {
    seq![116u8, 114, 97, 110, 115, 102, 101, 114, 45, 101, 110, 99, 111, 100, 105, 110, 103]
}

pub open spec fn chunked_token() -> Seq<u8> {
    seq![99u8, 104, 117, 110, 107, 101, 100]
}

pub open spec fn connection_name() -> Seq<u8> {
    seq![99u8, 111, 110, 110, 101, 99, 116, 105, 111, 110]
}

pub open spec fn close_token() -> Seq<u8> {
    seq![99u8, 108, 111, 115, 101]
}

pub open spec fn keep_alive_token() -> Seq<u8> {
    seq![107u8, 101, 101, 112, 45, 97, 108, 105, 118, 101]
}

pub open spec fn head_method() -> Seq<u8> {
    seq![72u8, 69, 65, 68]
}

/// `Some(true)` for HTTP/1.1, `Some(false)` for HTTP/1.0.
pub open spec fn version_of(v: Seq<u8>) -> Option<bool> {
    if v == http11_token() {
        Some(true)
    } else if v == http10_token() {
        Some(false)
    } else {
        None
    }
}

fn parse_version(v: &[u8]) -> (r: Option<bool>)
    ensures
        r == version_of(v@),
{
    let one_one: Vec<u8> = vec![72u8, 84, 84, 80, 47, 49, 46, 49];
    let one_zero: Vec<u8> = vec![72u8, 84, 84, 80, 47, 49, 46, 48];
    if bytes_eq(v, one_one.as_slice()) {
        Some(true)
    } else if bytes_eq(v, one_zero.as_slice()) {
        Some(false)
    } else {
        None
    }
}

/// Method, request target and version of a request line `METHOD SP target SP version`.
pub open spec fn request_line_of(l: Seq<u8>) -> Option<(Seq<u8>, Seq<u8>, bool)> {
    match first_byte(l, 32u8, 0) {
        None => None,
        Some(a) => if a == 0 {
            None
        } else {
            match first_byte(l, 32u8, a + 1) {
                None => None,
                Some(b) => if b == a + 1 {
                    None
                } else {
                    match version_of(l.subrange(b + 1, l.len() as int)) {
                        None => None,
                        Some(v) => Some((l.subrange(0, a), l.subrange(a + 1, b), v)),
                    }
                },
            }
        },
    }
}

/// The parts of a request line.
pub struct RequestLine {
    pub method: Vec<u8>,
    pub target: Vec<u8>,
    pub http11: bool,
}

pub fn parse_request_line(l: &[u8]) -> (r: Option<RequestLine>)
    ensures
        r matches Some(q) ==> request_line_of(l@) == Some((q.method@, q.target@, q.http11)),
        r is None ==> request_line_of(l@) is None,
{
    let a = match find_byte(l, 32u8, 0) {
        None => return None,
        Some(a) => a,
    };
    proof {
        lemma_first_byte_bounds(l@, 32u8, 0);
        assert(a < l.len());
    }
    if a == 0 {
        return None;
    }
    let b = match find_byte(l, 32u8, a + 1) {
        None => return None,
        Some(b) => b,
    };
    proof {
        lemma_first_byte_bounds(l@, 32u8, a + 1);
        assert(b < l.len());
    }
    if b == a + 1 {
        return None;
    }
    let version = copy_range(l, b + 1, l.len());
    let http11 = match parse_version(version.as_slice()) {
        None => return None,
        Some(v) => v,
    };
    let method = copy_range(l, 0, a);
    let target = copy_range(l, a + 1, b);
    Some(RequestLine { method, target, http11 })
}

/// Version and status code of a status line `version SP 3DIGIT [SP reason]`.
pub open spec fn status_line_of(l: Seq<u8>) -> Option<(bool, u16)> {
    match first_byte(l, 32u8, 0) {
        None => None,
        Some(a) => if a + 4 > l.len() || !all_digits(l.subrange(a + 1, a + 4)) || (a + 4 < l.len()
            && l[a + 4] != 32u8) {
            None
        } else {
            match version_of(l.subrange(0, a)) {
                None => None,
                Some(v) => Some((v, digits_value(l.subrange(a + 1, a + 4)) as u16)),
            }
        },
    }
}

pub proof fn lemma_three_digits(d: Seq<u8>)
    requires
        d.len() == 3,
        all_digits(d),
    ensures
        digits_value(d) == (d[0] - 48) * 100 + (d[1] - 48) * 10 + (d[2] - 48),
        digits_value(d) < 1000,
{
    assert(is_digit(d[0]) && is_digit(d[1]) && is_digit(d[2]));
    let e2 = d.drop_last();
    let e1 = e2.drop_last();
    let e0 = e1.drop_last();
    assert(e0.len() == 0);
    assert(digits_value(e0) == 0);
    assert(e1.last() == d[0]);
    assert(digits_value(e1) == (d[0] - 48));
    assert(e2.last() == d[1]);
    assert(digits_value(e2) == (d[0] - 48) * 10 + (d[1] - 48));
    assert(d.last() == d[2]);
}

pub fn parse_status_line(l: &[u8]) -> (r: Option<(bool, u16)>)
    ensures
        r == status_line_of(l@),
{
    let a = match find_byte(l, 32u8, 0) {
        None => return None,
        Some(a) => a,
    };
    proof {
        lemma_first_byte_bounds(l@, 32u8, 0);
        assert(a < l.len());
    }
    if l.len() < 4 || a > l.len() - 4 {
        return None;
    }
    let d0 = l[a + 1];
    let d1 = l[a + 2];
    let d2 = l[a + 3];
    let ghost d = l@.subrange(a + 1, a + 4);
    if d0 < 48 || d0 > 57 || d1 < 48 || d1 > 57 || d2 < 48 || d2 > 57 {
        assert(!all_digits(d)) by {
            if d0 < 48 || d0 > 57 {
                assert(!is_digit(d[0]));
            } else if d1 < 48 || d1 > 57 {
                assert(!is_digit(d[1]));
            } else {
                assert(!is_digit(d[2]));
            }
        }
        return None;
    }
    assert(all_digits(d));
    if a + 4 < l.len() && l[a + 4] != 32u8 {
        return None;
    }
    let version = copy_range(l, 0, a);
    let http11 = match parse_version(version.as_slice()) {
        None => return None,
        Some(v) => v,
    };
    proof {
        lemma_three_digits(d);
    }
    let status: u16 = ((d0 - 48) as u16) * 100 + ((d1 - 48) as u16) * 10 + ((d2 - 48) as u16);
    Some((http11, status))
}

/// Index of the first header at or after `i` whose name is `name`, case ignored.
pub open spec fn find_header(hs: Seq<(Seq<u8>, Seq<u8>)>, name: Seq<u8>, i: int) -> Option<int>
    decreases hs.len() - i,
{
    if i < 0 || i >= hs.len() {
        None
    } else if eq_ignore_case(hs[i].0, name) {
        Some(i)
    } else {
        find_header(hs, name, i + 1)
    }
}

pub proof fn lemma_find_header_bounds(hs: Seq<(Seq<u8>, Seq<u8>)>, name: Seq<u8>, i: int)
    ensures
        find_header(hs, name, i) matches Some(k) ==> i <= k < hs.len() && eq_ignore_case(
            hs[k].0,
            name,
        ),
    decreases hs.len() - i,
{
    if 0 <= i < hs.len() && !eq_ignore_case(hs[i].0, name) {
        lemma_find_header_bounds(hs, name, i + 1);
    }
}

/// Finds the first header named `name` (given in lower case).
pub fn header_index(hs: &Vec<Header>, name: &[u8]) -> (r: Option<usize>)
    ensures
        r matches Some(k) ==> find_header(headers_view(hs@), name@, 0) == Some(k as int),
        r is None ==> find_header(headers_view(hs@), name@, 0) is None,
{
    let ghost v = headers_view(hs@);
    let mut i: usize = 0;
    while i < hs.len()
        invariant
            i <= hs.len(),
            v == headers_view(hs@),
            find_header(v, name@, 0) == find_header(v, name@, i as int),
        decreases hs.len() - i,
    {
        if bytes_eq_ignore_case(hs[i].name.as_slice(), name) {
            return Some(i);
        }
        i = i + 1;
    }
    None
}

/// Whether every `Content-Length` header from index `k` on has the value `v`.
pub open spec fn lengths_agree(hs: Seq<(Seq<u8>, Seq<u8>)>, v: Seq<u8>, k: int) -> bool
    decreases hs.len() - k,
{
    if k < 0 || k >= hs.len() {
        true
    } else {
        (!eq_ignore_case(hs[k].0, content_length_name()) || hs[k].1 == v) && lengths_agree(hs, v, k + 1)
    }
}

fn all_lengths_agree(hs: &Vec<Header>, cl_name: &[u8], v: &[u8]) -> (r: bool)
    requires
        cl_name@ == content_length_name(),
    ensures
        r == lengths_agree(headers_view(hs@), v@, 0),
{
    let ghost hv = headers_view(hs@);
    let mut k: usize = 0;
    while k < hs.len()
        invariant
            k <= hs.len(),
            cl_name@ == content_length_name(),
            hv == headers_view(hs@),
            lengths_agree(hv, v@, 0) == lengths_agree(hv, v@, k as int),
        decreases hs.len() - k,
    {
        if bytes_eq_ignore_case(hs[k].name.as_slice(), cl_name) && !bytes_eq(hs[k].value.as_slice(), v) {
            return false;
        }
        k = k + 1;
    }
    true
}

/// The framing that the headers declare; `absent` when they declare none.
/// `Content-Length` beside `Transfer-Encoding` is ambiguous and refused, as
/// are `Content-Length` headers with differing values, a transfer coding
/// other than `chunked` and a length that is no number.
pub open spec fn declared_framing(hs: Seq<(Seq<u8>, Seq<u8>)>, absent: FramingMode) -> Result<
    FramingMode,
    ProxyError,
> {
    match (find_header(hs, transfer_encoding_name(), 0), find_header(hs, content_length_name(), 0)) {
        (Some(_), Some(_)) => Err(ProxyError::MalformedMessage),
        (Some(t), None) => if eq_ignore_case(hs[t].1, chunked_token()) {
            Ok(FramingMode::Chunked)
        } else {
            Err(ProxyError::MalformedMessage)
        },
        (None, Some(c)) => if !lengths_agree(hs, hs[c].1, 0) {
            Err(ProxyError::MalformedMessage)
        } else {
            match crate::scan::decimal_of(hs[c].1) {
                Some(n) => Ok(FramingMode::ContentLength(n)),
                None => Err(ProxyError::MalformedMessage),
            }
        },
        (None, None) => Ok(absent),
    }
}

/// A request without framing headers has no body.
pub open spec fn request_framing(hs: Seq<(Seq<u8>, Seq<u8>)>) -> Result<FramingMode, ProxyError> {
    declared_framing(hs, FramingMode::NoBody)
}

/// Statuses 1xx, 204 and 304 never carry a body.
pub open spec fn status_forbids_body(status: u16) -> bool {
    (100 <= status < 200) || status == 204 || status == 304
}

/// A response to `HEAD`, or with a status that forbids a body, has none; one
/// without framing headers runs until the connection closes.
pub open spec fn response_framing(
    hs: Seq<(Seq<u8>, Seq<u8>)>,
    status: u16,
    to_head: bool,
) -> Result<FramingMode, ProxyError> {
    if to_head || status_forbids_body(status) {
        Ok(FramingMode::NoBody)
    } else {
        declared_framing(hs, FramingMode::CloseDelimited)
    }
}

pub fn framing_from_headers(hs: &Vec<Header>, absent: FramingMode) -> (r: Result<
    FramingMode,
    ProxyError,
>)
    ensures
        r == declared_framing(headers_view(hs@), absent),
{
    let te_name: Vec<u8> = vec![116u8, 114, 97, 110, 115, 102, 101, 114, 45, 101, 110, 99, 111, 100, 105, 110, 103];
    let cl_name: Vec<u8> = vec![99u8, 111, 110, 116, 101, 110, 116, 45, 108, 101, 110, 103, 116, 104];
    let chunked: Vec<u8> = vec![99u8, 104, 117, 110, 107, 101, 100];
    let te = header_index(hs, te_name.as_slice());
    let cl = header_index(hs, cl_name.as_slice());
    proof {
        lemma_find_header_bounds(headers_view(hs@), te_name@, 0);
        lemma_find_header_bounds(headers_view(hs@), cl_name@, 0);
    }
    match (te, cl) {
        (Some(_), Some(_)) => Err(ProxyError::MalformedMessage),
        (Some(t), None) => {
            if bytes_eq_ignore_case(hs[t].value.as_slice(), chunked.as_slice()) {
                Ok(FramingMode::Chunked)
            } else {
                Err(ProxyError::MalformedMessage)
            }
        },
        (None, Some(c)) => if !all_lengths_agree(hs, cl_name.as_slice(), hs[c].value.as_slice()) {
            Err(ProxyError::MalformedMessage)
        } else {
            match crate::scan::parse_decimal(hs[c].value.as_slice()) {
                Some(n) => Ok(FramingMode::ContentLength(n)),
                None => Err(ProxyError::MalformedMessage),
            }
        },
        (None, None) => Ok(absent),
    }
}

/// Whether the comma-separated list `v`, from position `i` on, holds the
/// element `tok` (given in lower case), blanks around elements and case ignored.
pub open spec fn token_in(v: Seq<u8>, tok: Seq<u8>, i: int) -> bool
    decreases v.len() - i,
{
    if i < 0 || i > v.len() {
        false
    } else {
        let e = match first_byte(v, 44u8, i) {
            Some(j) => j,
            None => v.len() as int,
        };
        eq_ignore_case(trim(v.subrange(i, e)), tok) || (i <= e < v.len() && token_in(v, tok, e + 1))
    }
}

/// Whether the list value `v` holds the element `tok` (given in lower case).
pub fn has_token(v: &[u8], tok: &[u8]) -> (r: bool)
    ensures
        r == token_in(v@, tok@, 0),
{
    let mut i: usize = 0;
    loop
        invariant
            i <= v.len(),
            token_in(v@, tok@, 0) == token_in(v@, tok@, i as int),
        decreases v.len() - i,
    {
        let e = match find_byte(v, 44u8, i) {
            Some(j) => j,
            None => v.len(),
        };
        proof {
            lemma_first_byte_bounds(v@, 44u8, i as int);
        }
        let elem = copy_range(v, i, e);
        let t = trim_from(elem.as_slice(), 0);
        if bytes_eq_ignore_case(t.as_slice(), tok) {
            return true;
        }
        if e >= v.len() {
            return false;
        }
        i = e + 1;
    }
}

/// Whether some header from index `k` on is named `name` and lists `tok`.
pub open spec fn header_token(hs: Seq<(Seq<u8>, Seq<u8>)>, name: Seq<u8>, tok: Seq<u8>, k: int) -> bool
    decreases hs.len() - k,
{
    if k < 0 || k >= hs.len() {
        false
    } else {
        (eq_ignore_case(hs[k].0, name) && token_in(hs[k].1, tok, 0)) || header_token(hs, name, tok, k + 1)
    }
}

/// Any header named `name` that lists `tok` is found.
pub proof fn lemma_header_token_any(hs: Seq<(Seq<u8>, Seq<u8>)>, name: Seq<u8>, tok: Seq<u8>, i: int, k: int)
    requires
        0 <= i <= k < hs.len(),
        eq_ignore_case(hs[k].0, name),
        token_in(hs[k].1, tok, 0),
    ensures
        header_token(hs, name, tok, i),
    decreases k - i,
{
    if i < k {
        lemma_header_token_any(hs, name, tok, i + 1, k);
    }
}

/// Whether some header named `name` (lower case) lists `tok` (lower case).
pub fn headers_have_token(hs: &Vec<Header>, name: &[u8], tok: &[u8]) -> (r: bool)
    ensures
        r == header_token(headers_view(hs@), name@, tok@, 0),
{
    let ghost v = headers_view(hs@);
    let mut k: usize = 0;
    while k < hs.len()
        invariant
            k <= hs.len(),
            v == headers_view(hs@),
            header_token(v, name@, tok@, 0) == header_token(v, name@, tok@, k as int),
        decreases hs.len() - k,
    {
        if bytes_eq_ignore_case(hs[k].name.as_slice(), name) && has_token(hs[k].value.as_slice(), tok) {
            return true;
        }
        k = k + 1;
    }
    false
}

/// Whether the connection stays open after this message: never when any
/// `Connection` header lists `close`; else under HTTP/1.1, or when a
/// `Connection` header lists `keep-alive`.
pub open spec fn keeps_alive(hs: Seq<(Seq<u8>, Seq<u8>)>, http11: bool) -> bool {
    !header_token(hs, connection_name(), close_token(), 0) && (http11 || header_token(
        hs,
        connection_name(),
        keep_alive_token(),
        0,
    ))
}

pub fn connection_keeps_alive(hs: &Vec<Header>, http11: bool) -> (r: bool)
    ensures
        r == keeps_alive(headers_view(hs@), http11),
{
    let name: Vec<u8> = vec![99u8, 111, 110, 110, 101, 99, 116, 105, 111, 110];
    let close: Vec<u8> = vec![99u8, 108, 111, 115, 101];
    let keep: Vec<u8> = vec![107u8, 101, 101, 112, 45, 97, 108, 105, 118, 101];
    if headers_have_token(hs, name.as_slice(), close.as_slice()) {
        return false;
    }
    http11 || headers_have_token(hs, name.as_slice(), keep.as_slice())
}

/// A parsed request head.
pub struct Request {
    pub method: Vec<u8>,
    pub target: Vec<u8>,
    pub http11: bool,
    pub headers: Vec<Header>,
    pub framing: FramingMode,
    pub body_start: usize,
}

/// Parses the request at the start of `buf`. `Ok(None)`: its head is not
/// complete yet. It fails with `MalformedMessage` exactly when the head, the
/// request line or the framing headers are malformed.
pub fn parse_request(buf: &[u8]) -> (r: Result<Option<Request>, ProxyError>)
    ensures
        r matches Ok(None) ==> head_of(buf@) is Incomplete,
        r matches Ok(Some(q)) ==> head_of(buf@) matches HeadScan::Complete(l, hs, e) && hs
            == headers_view(q.headers@) && e == q.body_start && request_line_of(l) == Some(
            (q.method@, q.target@, q.http11),
        ) && request_framing(hs) == Ok::<FramingMode, ProxyError>(q.framing),
        r matches Err(e) ==> e == ProxyError::MalformedMessage && (head_of(buf@) is Malformed || (
        head_of(buf@) matches HeadScan::Complete(l, hs, _) && (request_line_of(l) is None
            || request_framing(hs) is Err))),
{
    let head = match parse_head(buf) {
        Err(e) => return Err(e),
        Ok(None) => return Ok(None),
        Ok(Some(h)) => h,
    };
    let line = match parse_request_line(head.start_line.as_slice()) {
        None => return Err(ProxyError::MalformedMessage),
        Some(l) => l,
    };
    let framing = match framing_from_headers(&head.headers, FramingMode::NoBody) {
        Err(e) => return Err(e),
        Ok(f) => f,
    };
    Ok(
        Some(
            Request {
                method: line.method,
                target: line.target,
                http11: line.http11,
                headers: head.headers,
                framing,
                body_start: head.body_start,
            },
        ),
    )
}

/// A parsed response head.
pub struct Response {
    pub http11: bool,
    pub status: u16,
    pub headers: Vec<Header>,
    pub framing: FramingMode,
    pub body_start: usize,
}

/// Whether a request method is `HEAD`.
pub fn is_head_method(method: &[u8]) -> (r: bool)
    ensures
        r == (method@ == head_method()),
{
    let head: Vec<u8> = vec![72u8, 69, 65, 68];
    bytes_eq(method, head.as_slice())
}

/// Parses the response at the start of `buf`; `to_head` tells whether it
/// answers a `HEAD` request. `Ok(None)`: its head is not complete yet.
pub fn parse_response(buf: &[u8], to_head: bool) -> (r: Result<Option<Response>, ProxyError>)
    ensures
        r matches Ok(None) ==> head_of(buf@) is Incomplete,
        r matches Ok(Some(p)) ==> head_of(buf@) matches HeadScan::Complete(l, hs, e) && hs
            == headers_view(p.headers@) && e == p.body_start && status_line_of(l) == Some(
            (p.http11, p.status),
        ) && response_framing(hs, p.status, to_head) == Ok::<FramingMode, ProxyError>(p.framing),
        r matches Err(e) ==> e == ProxyError::MalformedMessage && (head_of(buf@) is Malformed || (
        head_of(buf@) matches HeadScan::Complete(l, hs, _) && (status_line_of(l) is None || (
        status_line_of(l) matches Some((_, st)) && response_framing(hs, st, to_head) is Err)))),
{
    let head = match parse_head(buf) {
        Err(e) => return Err(e),
        Ok(None) => return Ok(None),
        Ok(Some(h)) => h,
    };
    let (http11, status) = match parse_status_line(head.start_line.as_slice()) {
        None => return Err(ProxyError::MalformedMessage),
        Some(x) => x,
    };
    let framing = if to_head || (100 <= status && status < 200) || status == 204 || status == 304 {
        FramingMode::NoBody
    } else {
        match framing_from_headers(&head.headers, FramingMode::CloseDelimited) {
            Err(e) => return Err(e),
            Ok(f) => f,
        }
    };
    Ok(Some(Response { http11, status, headers: head.headers, framing, body_start: head.body_start }))
}

/// A message that carries both `Content-Length` and `Transfer-Encoding` is
/// refused as malformed, request or response (unless its status or the
/// request method rules out a body); one with only a numeric
/// `Content-Length` has a body of exactly that length.
pub proof fn lemma_framing_is_derived(hs: Seq<(Seq<u8>, Seq<u8>)>, status: u16, to_head: bool)
    ensures
        find_header(hs, transfer_encoding_name(), 0) is Some && find_header(hs, content_length_name(), 0) is Some
            ==> request_framing(hs) == Err::<FramingMode, ProxyError>(ProxyError::MalformedMessage)
            && (!to_head && !status_forbids_body(status) ==> response_framing(hs, status, to_head)
            == Err::<FramingMode, ProxyError>(ProxyError::MalformedMessage)),
        find_header(hs, transfer_encoding_name(), 0) is None ==> (find_header(hs, content_length_name(), 0)
            matches Some(c) ==> (lengths_agree(hs, hs[c].1, 0) ==> (crate::scan::decimal_of(hs[c].1) matches Some(n) ==> request_framing(hs)
            == Ok::<FramingMode, ProxyError>(FramingMode::ContentLength(n))))),
{
}

} // verus!
