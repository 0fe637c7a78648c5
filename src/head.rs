use vstd::prelude::*;
use crate::error::ProxyError;
use crate::scan::{
    append_bytes, copy_range, crlf_at, find_byte, find_crlf, first_byte, first_crlf,
    lemma_first_byte_bounds, lemma_first_crlf_bounds,
};

verus! {

/// One header field, name and value, as they stood in the message.
pub struct Header {
    pub name: Vec<u8>,
    pub value: Vec<u8>,
}

pub open spec fn header_view(h: Header) -> (Seq<u8>, Seq<u8>) {
    (h.name@, h.value@)
}

pub open spec fn headers_view(hs: Seq<Header>) -> Seq<(Seq<u8>, Seq<u8>)> {
    hs.map_values(|h: Header| header_view(h))
}

pub open spec fn is_ows(b: u8) -> bool {
    b == 32u8 || b == 9u8
}

/// The first position at or after `i` that holds no space or tab.
pub open spec fn skip_ows(s: Seq<u8>, i: int) -> int
    decreases s.len() - i,
{
    if i < 0 || i >= s.len() || !is_ows(s[i]) {
        i
    } else {
        skip_ows(s, i + 1)
    }
}

pub proof fn lemma_skip_ows_bounds(s: Seq<u8>, i: int)
    requires
        0 <= i <= s.len(),
    ensures
        i <= skip_ows(s, i) <= s.len(),
    decreases s.len() - i,
{
    if i < s.len() && is_ows(s[i]) {
        lemma_skip_ows_bounds(s, i + 1);
    }
}

/// The end of `s[lo..hi]` once trailing spaces and tabs are dropped.
pub open spec fn trim_end(s: Seq<u8>, lo: int, hi: int) -> int
    decreases hi - lo,
{
    if hi <= lo || hi > s.len() || !is_ows(s[hi - 1]) {
        hi
    } else {
        trim_end(s, lo, hi - 1)
    }
}

pub proof fn lemma_trim_end_bounds(s: Seq<u8>, lo: int, hi: int)
    requires
        0 <= lo <= hi <= s.len(),
    ensures
        lo <= trim_end(s, lo, hi) <= hi,
    decreases hi - lo,
{
    if lo < hi && is_ows(s[hi - 1]) {
        lemma_trim_end_bounds(s, lo, hi - 1);
    }
}

/// `s` without leading and trailing spaces and tabs.
pub open spec fn trim(s: Seq<u8>) -> Seq<u8> {
    s.subrange(skip_ows(s, 0), trim_end(s, skip_ows(s, 0), s.len() as int))
}

/// Drops leading and trailing spaces and tabs from `s[lo..]`.
pub fn trim_from(s: &[u8], lo: usize) -> (r: Vec<u8>)
    requires
        lo <= s.len(),
    ensures
        r@ == s@.subrange(skip_ows(s@, lo as int), trim_end(s@, skip_ows(s@, lo as int), s.len() as int)),
{
    let mut a: usize = lo;
    while a < s.len() && (s[a] == 32u8 || s[a] == 9u8)
        invariant
            lo <= a <= s.len(),
            skip_ows(s@, lo as int) == skip_ows(s@, a as int),
        decreases s.len() - a,
    {
        a = a + 1;
    }
    let mut b: usize = s.len();
    while b > a && (s[b - 1] == 32u8 || s[b - 1] == 9u8)
        invariant
            a <= b <= s.len(),
            a == skip_ows(s@, lo as int),
            trim_end(s@, a as int, s.len() as int) == trim_end(s@, a as int, b as int),
        decreases b,
    {
        b = b - 1;
    }
    copy_range(s, a, b)
}

/// A header line: a nonempty name, a colon, then the value with its
/// surrounding blanks dropped.
pub open spec fn header_of_line(line: Seq<u8>) -> Option<(Seq<u8>, Seq<u8>)> {
    match first_byte(line, 58u8, 0) {
        None => None,
        Some(c) => if c == 0 {
            None
        } else {
            Some(
                (
                    line.subrange(0, c),
                    line.subrange(
                        skip_ows(line, c + 1),
                        trim_end(line, skip_ows(line, c + 1), line.len() as int),
                    ),
                ),
            )
        },
    }
}

/// Splits a header line into name and value.
pub fn split_header(line: &[u8]) -> (r: Option<Header>)
    ensures
        r matches Some(h) ==> header_of_line(line@) == Some(header_view(h)),
        r is None ==> header_of_line(line@) is None,
{
    match find_byte(line, 58u8, 0) {
        None => None,
        Some(c) => {
            if c == 0 {
                return None;
            }
            proof {
                lemma_first_byte_bounds(line@, 58u8, 0);
                assert(c < line.len());
            }
            let name = copy_range(line, 0, c);
            let value = trim_from(line, c + 1);
            Some(Header { name, value })
        },
    }
}

/// What scanning a message head can come to.
pub enum HeadScan {
    Complete(Seq<u8>, Seq<(Seq<u8>, Seq<u8>)>, int),
    Incomplete,
    Malformed,
}

/// Puts `hs` before the headers of a complete scan.
pub open spec fn prepend(hs: Seq<(Seq<u8>, Seq<u8>)>, x: HeadScan) -> HeadScan {
    match x {
        HeadScan::Complete(l, rest, e) => HeadScan::Complete(l, hs + rest, e),
        other => other,
    }
}

/// Header lines from position `i` up to and including the empty line that ends them.
pub open spec fn scan_headers(s: Seq<u8>, i: int) -> HeadScan
    decreases s.len() - i,
{
    match first_crlf(s, i) {
        None => HeadScan::Incomplete,
        Some(j) => if j < i || j + 2 > s.len() {
            HeadScan::Incomplete
        } else if j == i {
            HeadScan::Complete(Seq::empty(), Seq::empty(), i + 2)
        } else {
            match header_of_line(s.subrange(i, j)) {
                None => HeadScan::Malformed,
                Some(h) => prepend(seq![h], scan_headers(s, j + 2)),
            }
        },
    }
}

/// A message head: a nonempty start line, the header lines, an empty line.
/// When complete, it gives the start line, the headers in order and where the body begins.
pub open spec fn head_of(s: Seq<u8>) -> HeadScan {
    match first_crlf(s, 0) {
        None => HeadScan::Incomplete,
        Some(j) => if j <= 0 || j + 2 > s.len() {
            HeadScan::Malformed
        } else {
            match scan_headers(s, j + 2) {
                HeadScan::Complete(_l, hs, e) => HeadScan::Complete(s.subrange(0, j), hs, e),
                other => other,
            }
        },
    }
}

proof fn lemma_prepend_push(acc: Seq<(Seq<u8>, Seq<u8>)>, h: (Seq<u8>, Seq<u8>), x: HeadScan)
    ensures
        prepend(acc, prepend(seq![h], x)) == prepend(acc.push(h), x),
{
    match x {
        HeadScan::Complete(l, rest, e) => {
            assert(acc + (seq![h] + rest) =~= acc.push(h) + rest);
        },
        _ => {},
    }
}

/// A message head as read from the buffer.
pub struct RawHead {
    pub start_line: Vec<u8>,
    pub headers: Vec<Header>,
    pub body_start: usize,
}

/// Scans the head of the message at the start of `buf`: `Ok(None)` while the
/// empty line that ends it has not arrived.
pub fn parse_head(buf: &[u8]) -> (r: Result<Option<RawHead>, ProxyError>)
    ensures
        r matches Ok(Some(h)) ==> head_of(buf@) == HeadScan::Complete(
            h.start_line@,
            headers_view(h.headers@),
            h.body_start as int,
        ),
        r matches Ok(None) ==> head_of(buf@) is Incomplete,
        r matches Err(e) ==> e == ProxyError::MalformedMessage && head_of(buf@) is Malformed,
{
    let j = match find_crlf(buf, 0) {
        None => return Ok(None),
        Some(j) => j,
    };
    proof {
        lemma_first_crlf_bounds(buf@, 0);
        assert(crlf_at(buf@, j as int));
    }
    if j == 0 {
        return Err(ProxyError::MalformedMessage);
    }
    let start_line = copy_range(buf, 0, j);
    let mut headers: Vec<Header> = Vec::new();
    let mut i: usize = j + 2;
    loop
        invariant
            j + 2 <= i <= buf.len(),
            0 < j,
            first_crlf(buf@, 0) == Some(j as int),
            start_line@ == buf@.subrange(0, j as int),
            scan_headers(buf@, j + 2) == prepend(headers_view(headers@), scan_headers(buf@, i as int)),
        decreases buf.len() - i,
    {
        let e = match find_crlf(buf, i) {
            None => return Ok(None),
            Some(e) => e,
        };
        proof {
            lemma_first_crlf_bounds(buf@, i as int);
            assert(crlf_at(buf@, e as int));
        }
        if e == i {
            let ghost hv = headers_view(headers@);
            assert(hv + Seq::<(Seq<u8>, Seq<u8>)>::empty() =~= hv);
            return Ok(Some(RawHead { start_line, headers, body_start: i + 2 }));
        }
        let line = copy_range(buf, i, e);
        match split_header(&line) {
            None => return Err(ProxyError::MalformedMessage),
            Some(h) => {
                proof {
                    lemma_prepend_push(headers_view(headers@), header_view(h), scan_headers(buf@, e + 2));
                }
                let ghost old_headers = headers@;
                headers.push(h);
                assert(headers_view(headers@) =~= headers_view(old_headers).push(header_view(h)));
                i = e + 2;
            },
        }
    }
}

pub open spec fn no_byte(s: Seq<u8>, b: u8) -> bool {
    forall|k: int| 0 <= k < s.len() ==> #[trigger] s[k] != b
}

/// A header that writes out as one line `name: value` and reads back the same.
pub open spec fn valid_header(h: (Seq<u8>, Seq<u8>)) -> bool {
    h.0.len() > 0 && no_byte(h.0, 58u8) && no_byte(h.0, 13u8) && no_byte(h.1, 13u8) && (h.1.len()
        == 0 || (!is_ows(h.1[0]) && !is_ows(h.1.last())))
}

pub open spec fn header_line(h: (Seq<u8>, Seq<u8>)) -> Seq<u8> {
    h.0 + (seq![58u8, 32u8] + h.1)
}

pub open spec fn crlf() -> Seq<u8> {
    seq![13u8, 10u8]
}

/// Header lines, each ended by CR LF.
pub open spec fn header_lines(hs: Seq<(Seq<u8>, Seq<u8>)>) -> Seq<u8>
    decreases hs.len(),
{
    if hs.len() == 0 {
        Seq::empty()
    } else {
        header_line(hs[0]) + (crlf() + header_lines(hs.drop_first()))
    }
}

/// A message head written out: start line, header lines, empty line.
pub open spec fn head_bytes(start: Seq<u8>, hs: Seq<(Seq<u8>, Seq<u8>)>) -> Seq<u8> {
    start + (crlf() + (header_lines(hs) + crlf()))
}

proof fn lemma_first_crlf_at(s: Seq<u8>, i: int, j: int)
    requires
        0 <= i <= j,
        crlf_at(s, j),
        forall|k: int| i <= k < j ==> #[trigger] s[k] != 13u8,
    ensures
        first_crlf(s, i) == Some(j),
    decreases j - i,
{
    if i < j {
        lemma_first_crlf_at(s, i + 1, j);
    }
}

proof fn lemma_first_byte_at(s: Seq<u8>, b: u8, i: int, j: int)
    requires
        0 <= i <= j < s.len(),
        s[j] == b,
        forall|k: int| i <= k < j ==> #[trigger] s[k] != b,
    ensures
        first_byte(s, b, i) == Some(j),
    decreases j - i,
{
    if i < j {
        lemma_first_byte_at(s, b, i + 1, j);
    }
}

proof fn lemma_header_line(h: (Seq<u8>, Seq<u8>))
    requires
        valid_header(h),
    ensures
        header_of_line(header_line(h)) == Some(h),
        no_byte(header_line(h), 13u8),
{
    let line = header_line(h);
    let c = h.0.len() as int;
    assert forall|k: int| 0 <= k < c implies #[trigger] line[k] != 58u8 by {
        assert(line[k] == h.0[k]);
    }
    assert(line[c] == 58u8);
    lemma_first_byte_at(line, 58u8, 0, c);
    assert(line[c + 1] == 32u8);
    if h.1.len() > 0 {
        assert(line[c + 2] == h.1[0]);
    }
    assert(skip_ows(line, c + 2) == c + 2);
    assert(skip_ows(line, c + 1) == c + 2);
    if h.1.len() > 0 {
        assert(line[line.len() - 1] == h.1.last());
    }
    assert(trim_end(line, c + 2, line.len() as int) == line.len());
    assert(line.subrange(0, c) =~= h.0);
    assert(line.subrange(c + 2, line.len() as int) =~= h.1);
    assert forall|k: int| 0 <= k < line.len() implies #[trigger] line[k] != 13u8 by {
        if k < c {
            assert(line[k] == h.0[k]);
        } else if k >= c + 2 {
            assert(line[k] == h.1[k - c - 2]);
        }
    }
}

proof fn lemma_scan_lines(s: Seq<u8>, i: int, hs: Seq<(Seq<u8>, Seq<u8>)>)
    requires
        0 <= i,
        i + header_lines(hs).len() + 2 <= s.len(),
        s.subrange(i, i + header_lines(hs).len() + 2) == header_lines(hs) + crlf(),
        forall|k: int| 0 <= k < hs.len() ==> valid_header(#[trigger] hs[k]),
    ensures
        scan_headers(s, i) == HeadScan::Complete(Seq::empty(), hs, i + header_lines(hs).len() + 2),
    decreases hs.len(),
{
    let w = s.subrange(i, i + header_lines(hs).len() + 2);
    if hs.len() == 0 {
        assert(w[0] == 13u8 && w[1] == 10u8);
        assert(s[i] == w[0] && s[i + 1] == w[1]);
        lemma_first_crlf_at(s, i, i);
        assert(hs =~= Seq::<(Seq<u8>, Seq<u8>)>::empty());
    } else {
        let h = hs[0];
        let more = hs.drop_first();
        assert(valid_header(h));
        lemma_header_line(h);
        let line = header_line(h);
        let len = line.len() as int;
        let j = i + len;
        assert(header_lines(hs) == line + (crlf() + header_lines(more)));
        assert forall|k: int| i <= k < j implies #[trigger] s[k] != 13u8 by {
            assert(s[k] == w[k - i]);
            assert(w[k - i] == line[k - i]);
        }
        assert(s[j] == w[len] && w[len] == 13u8);
        assert(s[j + 1] == w[len + 1] && w[len + 1] == 10u8);
        lemma_first_crlf_at(s, i, j);
        assert(s.subrange(i, j) =~= line);
        assert forall|k: int| 0 <= k < more.len() implies valid_header(#[trigger] more[k]) by {
            assert(more[k] == hs[k + 1]);
        }
        assert(s.subrange(j + 2, j + 2 + header_lines(more).len() + 2) =~= header_lines(more) + crlf()) by {
            assert forall|k: int| 0 <= k < header_lines(more).len() + 2 implies s.subrange(
                j + 2,
                j + 2 + header_lines(more).len() + 2,
            )[k] == (header_lines(more) + crlf())[k] by {
                assert(s[j + 2 + k] == w[len + 2 + k]);
            }
        }
        lemma_scan_lines(s, j + 2, more);
        assert(seq![h] + more =~= hs);
        assert(header_lines(hs).len() == len + 2 + header_lines(more).len());
    }
}

/// A head written out from a start line and headers reads back as that start
/// line and exactly those headers, in order, duplicates included, with the
/// body starting right after it, whatever follows.
pub proof fn lemma_head_round_trip(start: Seq<u8>, hs: Seq<(Seq<u8>, Seq<u8>)>, body: Seq<u8>)
    requires
        start.len() > 0,
        no_byte(start, 13u8),
        forall|k: int| 0 <= k < hs.len() ==> valid_header(#[trigger] hs[k]),
    ensures
        head_of(head_bytes(start, hs) + body) == HeadScan::Complete(start, hs, head_bytes(start, hs).len() as int),
{
    let s = head_bytes(start, hs) + body;
    let n = start.len() as int;
    assert forall|k: int| 0 <= k < n implies #[trigger] s[k] != 13u8 by {
        assert(s[k] == start[k]);
    }
    assert(s[n] == 13u8 && s[n + 1] == 10u8);
    lemma_first_crlf_at(s, 0, n);
    let m = header_lines(hs).len() as int;
    assert(s.subrange(n + 2, n + 2 + m + 2) =~= header_lines(hs) + crlf());
    lemma_scan_lines(s, n + 2, hs);
    assert(s.subrange(0, n) =~= start);
}

proof fn lemma_header_lines_push(a: Seq<(Seq<u8>, Seq<u8>)>, h: (Seq<u8>, Seq<u8>))
    ensures
        header_lines(a.push(h)) == header_lines(a) + (header_line(h) + crlf()),
    decreases a.len(),
{
    if a.len() == 0 {
        assert(a.push(h).drop_first() =~= Seq::<(Seq<u8>, Seq<u8>)>::empty());
        assert(a.push(h)[0] == h);
        assert(header_lines(a.push(h).drop_first()) == Seq::<u8>::empty());
        assert(header_lines(a) == Seq::<u8>::empty());
        assert(header_lines(a.push(h)) =~= header_lines(a) + (header_line(h) + crlf()));
    } else {
        assert(a.push(h).drop_first() =~= a.drop_first().push(h));
        lemma_header_lines_push(a.drop_first(), h);
        assert(a.push(h)[0] == a[0]);
        let x = header_line(h) + crlf();
        assert(header_lines(a.push(h)) == header_line(a[0]) + (crlf() + (header_lines(a.drop_first()) + x)));
        assert(header_lines(a) == header_line(a[0]) + (crlf() + header_lines(a.drop_first())));
        assert(header_lines(a.push(h)) =~= header_lines(a) + (header_line(h) + crlf()));
    }
}

/// Writes a message head out: the start line, each header as `name: value`,
/// in order, and the empty line.
pub fn write_head(start: &[u8], hs: &Vec<Header>) -> (r: Vec<u8>)
    ensures
        r@ == head_bytes(start@, headers_view(hs@)),
{
    let crlf_bytes: Vec<u8> = vec![13u8, 10u8];
    let sep: Vec<u8> = vec![58u8, 32u8];
    let mut out: Vec<u8> = Vec::new();
    append_bytes(&mut out, start);
    append_bytes(&mut out, crlf_bytes.as_slice());
    let ghost hv = headers_view(hs@);
    let mut i: usize = 0;
    while i < hs.len()
        invariant
            i <= hs.len(),
            hv == headers_view(hs@),
            crlf_bytes@ == crlf(),
            sep@ == seq![58u8, 32u8],
            out@ == start@ + crlf() + header_lines(hv.take(i as int)),
        decreases hs.len() - i,
    {
        let h = &hs[i];
        append_bytes(&mut out, h.name.as_slice());
        append_bytes(&mut out, sep.as_slice());
        append_bytes(&mut out, h.value.as_slice());
        append_bytes(&mut out, crlf_bytes.as_slice());
        proof {
            assert(hv.take(i + 1) =~= hv.take(i as int).push(hv[i as int]));
            lemma_header_lines_push(hv.take(i as int), hv[i as int]);
            assert(hv[i as int] == header_view(hs@[i as int]));
            assert(out@ =~= start@ + crlf() + header_lines(hv.take(i + 1)));
        }
        i = i + 1;
    }
    append_bytes(&mut out, crlf_bytes.as_slice());
    assert(hv.take(i as int) =~= hv);
    assert(out@ =~= head_bytes(start@, hv));
    out
}

/// Request heads sent back to back on one connection.
pub open spec fn pipelined(rs: Seq<(Seq<u8>, Seq<(Seq<u8>, Seq<u8>)>)>) -> Seq<u8>
    decreases rs.len(),
{
    if rs.len() == 0 {
        Seq::empty()
    } else {
        head_bytes(rs[0].0, rs[0].1) + pipelined(rs.drop_first())
    }
}

/// Where the `k`-th of pipelined heads starts.
pub open spec fn pipelined_offset(rs: Seq<(Seq<u8>, Seq<(Seq<u8>, Seq<u8>)>)>, k: int) -> int
    decreases k,
{
    if k <= 0 || rs.len() == 0 {
        0
    } else {
        head_bytes(rs[0].0, rs[0].1).len() + pipelined_offset(rs.drop_first(), k - 1)
    }
}

proof fn lemma_offset_bound(rs: Seq<(Seq<u8>, Seq<(Seq<u8>, Seq<u8>)>)>, k: int)
    requires
        0 <= k <= rs.len(),
    ensures
        0 <= pipelined_offset(rs, k) <= pipelined(rs).len(),
    decreases k,
{
    if k > 0 {
        lemma_offset_bound(rs.drop_first(), k - 1);
    }
}

/// Heads pipelined on one connection are framed one after the other, in the
/// order they were sent: scanning from where the `k`-th starts yields the
/// `k`-th start line and headers, and its end is where the next one starts.
pub proof fn lemma_pipelined_in_order(rs: Seq<(Seq<u8>, Seq<(Seq<u8>, Seq<u8>)>)>, k: int)
    requires
        0 <= k < rs.len(),
        forall|i: int| 0 <= i < rs.len() ==> (#[trigger] rs[i]).0.len() > 0 && no_byte(rs[i].0, 13u8),
        forall|i: int, j: int| 0 <= i < rs.len() && 0 <= j < rs[i].1.len() ==> valid_header(#[trigger] rs[i].1[j]),
    ensures
        head_of(pipelined(rs).skip(pipelined_offset(rs, k))) == HeadScan::Complete(
            rs[k].0,
            rs[k].1,
            pipelined_offset(rs, k + 1) - pipelined_offset(rs, k),
        ),
    decreases k,
{
    let first = head_bytes(rs[0].0, rs[0].1);
    let more = rs.drop_first();
    if k == 0 {
        assert(pipelined(rs).skip(0) =~= first + pipelined(more));
        assert(rs[0].0.len() > 0 && no_byte(rs[0].0, 13u8));
        assert forall|j: int| 0 <= j < rs[0].1.len() implies valid_header(#[trigger] rs[0].1[j]) by {
            assert(valid_header(rs[0].1[j]));
        }
        lemma_head_round_trip(rs[0].0, rs[0].1, pipelined(more));
        assert(pipelined_offset(more, 0) == 0);
    } else {
        assert forall|i: int| 0 <= i < more.len() implies (#[trigger] more[i]).0.len() > 0 && no_byte(
            more[i].0,
            13u8,
        ) by {
            assert(more[i] == rs[i + 1]);
        }
        assert forall|i: int, j: int| 0 <= i < more.len() && 0 <= j < more[i].1.len() implies valid_header(
            #[trigger] more[i].1[j],
        ) by {
            assert(more[i] == rs[i + 1]);
            assert(valid_header(rs[i + 1].1[j]));
        }
        lemma_pipelined_in_order(more, k - 1);
        lemma_offset_bound(more, k - 1);
        assert(pipelined(rs) == first + pipelined(more));
        assert(pipelined_offset(rs, k) == first.len() + pipelined_offset(more, k - 1));
        assert(pipelined_offset(rs, k + 1) == first.len() + pipelined_offset(more, k));
        assert(pipelined(rs).skip(pipelined_offset(rs, k)) =~= pipelined(more).skip(
            pipelined_offset(more, k - 1),
        ));
        assert(more[k - 1] == rs[k]);
    }
}

proof fn lemma_first_crlf_agree(s: Seq<u8>, t: Seq<u8>, i: int, j: int)
    requires
        first_crlf(s, i) == Some(j),
        0 <= i <= j,
        j + 2 <= t.len(),
        forall|k: int| i <= k < j + 2 ==> #[trigger] s[k] == t[k],
    ensures
        first_crlf(t, i) == Some(j),
    decreases j - i,
{
    lemma_first_crlf_bounds(s, i);
    assert(s[i] == t[i] && s[i + 1] == t[i + 1]);
    if i < j {
        assert(!crlf_at(s, i));
        lemma_first_crlf_agree(s, t, i + 1, j);
    }
}

proof fn lemma_scan_end(s: Seq<u8>, i: int)
    ensures
        scan_headers(s, i) matches HeadScan::Complete(_, _, e) ==> e >= i + 2,
    decreases s.len() - i,
{
    if let Some(j) = first_crlf(s, i) {
        if i < j && j + 2 <= s.len() {
            lemma_scan_end(s, j + 2);
        }
    }
}

proof fn lemma_scan_agree(s: Seq<u8>, t: Seq<u8>, i: int)
    requires
        0 <= i,
        scan_headers(s, i) matches HeadScan::Complete(_, _, e) && e <= t.len() && forall|k: int|
            i <= k < e ==> #[trigger] s[k] == t[k],
    ensures
        scan_headers(t, i) == scan_headers(s, i),
    decreases s.len() - i,
{
    let e = scan_headers(s, i)->Complete_2;
    let j = first_crlf(s, i).unwrap();
    lemma_first_crlf_bounds(s, i);
    if j == i {
        lemma_first_crlf_agree(s, t, i, j);
    } else {
        lemma_scan_end(s, j + 2);
        lemma_first_crlf_agree(s, t, i, j);
        assert(t.subrange(i, j) =~= s.subrange(i, j));
        lemma_scan_agree(s, t, j + 2);
    }
}

/// A complete head depends on its own bytes alone: any byte sequence that
/// agrees with `s` up to the end of its head holds the same head.
pub proof fn lemma_head_agree(s: Seq<u8>, t: Seq<u8>)
    requires
        head_of(s) matches HeadScan::Complete(_, _, e) && e <= t.len() && forall|k: int|
            0 <= k < e ==> #[trigger] s[k] == t[k],
    ensures
        head_of(t) == head_of(s),
{
    let e = head_of(s)->Complete_2;
    let j = first_crlf(s, 0).unwrap();
    lemma_first_crlf_bounds(s, 0);
    lemma_scan_end(s, j + 2);
    lemma_first_crlf_agree(s, t, 0, j);
    lemma_scan_agree(s, t, j + 2);
    assert(t.subrange(0, j) =~= s.subrange(0, j));
}

} // verus!
