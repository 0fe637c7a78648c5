use vstd::prelude::*;
use crate::error::ProxyError;
use crate::head::{head_of, headers_view, lemma_head_agree, parse_head, HeadScan};
use crate::scan::{append_bytes, copy_range};
use crate::message::{parse_request, request_framing, request_line_of, FramingMode, Request};

verus! {

/// Bytes received from a peer and not yet handed on, with a bound on how
/// many may wait while a message head is incomplete.
pub struct ReadBuffer {
    pub data: Vec<u8>,
    pub max: usize,
}

/// What one read from a socket comes to: bytes, the peer's end, or no bytes
/// before the deadline.
pub open spec fn read_outcome(n: usize, timed_out: bool) -> Result<usize, ProxyError> {
    if timed_out {
        Err(ProxyError::Timeout)
    } else if n == 0 {
        Err(ProxyError::PeerClosed)
    } else {
        Ok(n)
    }
}

pub fn classify_read(n: usize, timed_out: bool) -> (r: Result<usize, ProxyError>)
    ensures
        r == read_outcome(n, timed_out),
{
    if timed_out {
        Err(ProxyError::Timeout)
    } else if n == 0 {
        Err(ProxyError::PeerClosed)
    } else {
        Ok(n)
    }
}

/// Whether bytes `s` break the head budget `max`: more than `max` are held
/// and the head is not complete yet, or ends past `max`.
pub open spec fn over_budget(s: Seq<u8>, max: usize) -> bool {
    s.len() > max && match head_of(s) {
        HeadScan::Incomplete => true,
        HeadScan::Complete(_, _, e) => e > max,
        HeadScan::Malformed => false,
    }
}

impl ReadBuffer {
    pub fn new(max: usize) -> (r: ReadBuffer)
        ensures
            r.data@.len() == 0,
            r.max == max,
    {
        ReadBuffer { data: Vec::new(), max }
    }

    /// Appends freshly read bytes. Fails with `HeaderTooLarge`, leaving the
    /// buffer as it was, only when the bytes would take the buffer past its
    /// bound while the head is still incomplete, or ends past the bound.
    pub fn append(&mut self, bytes: &[u8]) -> (r: Result<usize, ProxyError>)
        ensures
            final(self).max == old(self).max,
            !over_budget(old(self).data@ + bytes@, old(self).max) ==> r == Ok::<usize, ProxyError>(
                bytes@.len() as usize,
            ) && final(self).data@ == old(self).data@ + bytes@,
            over_budget(old(self).data@ + bytes@, old(self).max) ==> r == Err::<usize, ProxyError>(
                ProxyError::HeaderTooLarge,
            ) && final(self).data@ == old(self).data@,
    {
        let mut joined = copy_range(self.data.as_slice(), 0, self.data.len());
        assert(joined@ =~= self.data@);
        append_bytes(&mut joined, bytes);
        if joined.len() > self.max {
            let over = match parse_head(joined.as_slice()) {
                Ok(None) => true,
                Ok(Some(h)) => h.body_start > self.max,
                Err(_) => false,
            };
            if over {
                return Err(ProxyError::HeaderTooLarge);
            }
        }
        self.data = joined;
        Ok(bytes.len())
    }

    /// Drops the first `n` bytes, which were handed on.
    pub fn consume(&mut self, n: usize)
        requires
            n <= old(self).data@.len(),
        ensures
            final(self).max == old(self).max,
            final(self).data@ == old(self).data@.skip(n as int),
    {
        let mut rest: Vec<u8> = Vec::new();
        let mut i: usize = n;
        while i < self.data.len()
            invariant
                n <= i <= self.data@.len(),
                self.data@ == old(self).data@,
                self.max == old(self).max,
                rest@ == self.data@.subrange(n as int, i as int),
            decreases self.data.len() - i,
        {
            rest.push(self.data[i]);
            assert(rest@ =~= self.data@.subrange(n as int, i + 1));
            i = i + 1;
        }
        assert(rest@ =~= old(self).data@.skip(n as int));
        self.data = rest;
    }

    /// The request at the front of the buffer; `Ok(None)` while its head is
    /// incomplete and the buffer has room, `HeaderTooLarge` once it is full.
    pub fn next_request(&self) -> (r: Result<Option<Request>, ProxyError>)
        ensures
            r matches Ok(None) ==> head_of(self.data@) is Incomplete && self.data@.len() < self.max,
            r matches Ok(Some(q)) ==> head_of(self.data@) matches HeadScan::Complete(l, hs, e) && hs
                == headers_view(q.headers@) && e == q.body_start && request_line_of(l) == Some(
                (q.method@, q.target@, q.http11),
            ) && request_framing(hs) == Ok::<FramingMode, ProxyError>(q.framing),
            r matches Err(e) ==> (e == ProxyError::HeaderTooLarge && head_of(self.data@) is Incomplete
                && self.data@.len() >= self.max) || (e == ProxyError::MalformedMessage && (head_of(
                self.data@,
            ) is Malformed || (head_of(self.data@) matches HeadScan::Complete(l, hs, _) && (
            request_line_of(l) is None || request_framing(hs) is Err)))),
    {
        match parse_request(self.data.as_slice()) {
            Ok(None) => {
                if self.data.len() >= self.max {
                    Err(ProxyError::HeaderTooLarge)
                } else {
                    Ok(None)
                }
            },
            other => other,
        }
    }
}

/// A request whose head ends within the budget is never refused, however
/// its bytes are split over reads: no prefix of it is over budget.
pub proof fn lemma_fitting_head_accepted(s: Seq<u8>, max: usize, n: int)
    requires
        head_of(s) matches HeadScan::Complete(_, _, e) && e <= max,
        0 <= n <= s.len(),
    ensures
        !over_budget(s.take(n), max),
{
    let p = s.take(n);
    if n > max {
        lemma_head_agree(s, p);
    }
}

} // verus!
