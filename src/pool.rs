use vstd::prelude::*;
use crate::head::headers_view;
use crate::message::{
    close_token, connection_name, keeps_alive, lemma_header_token_any, token_in, FramingMode, Response,
};
use crate::scan::{bytes_eq, copy_range, eq_ignore_case};

verus! {

/// Where a request goes: host and port.
pub struct UpstreamTarget {
    pub host: Vec<u8>,
    pub port: u16,
}

/// An idle upstream connection: its target, its id and when it went idle.
pub struct IdleEntry {
    pub host: Vec<u8>,
    pub port: u16,
    pub id: u64,
    pub since: u64,
}

pub open spec fn entry_view(e: IdleEntry) -> (Seq<u8>, u16, u64, u64) {
    (e.host@, e.port, e.id, e.since)
}

/// An idle connection to `(host, port)` that went idle no more than `limit` before `now`.
pub open spec fn usable(e: (Seq<u8>, u16, u64, u64), host: Seq<u8>, port: u16, now: u64, limit: u64) -> bool {
    e.0 == host && e.1 == port && e.3 <= now && now - e.3 <= limit
}

/// The last usable entry among the first `n`: idle connections are reused latest first.
pub open spec fn last_usable(
    idle: Seq<(Seq<u8>, u16, u64, u64)>,
    host: Seq<u8>,
    port: u16,
    now: u64,
    limit: u64,
    n: int,
) -> Option<int>
    decreases n,
{
    if n <= 0 || n > idle.len() {
        None
    } else if usable(idle[n - 1], host, port, now, limit) {
        Some(n - 1)
    } else {
        last_usable(idle, host, port, now, limit, n - 1)
    }
}

/// The model of a pool: its idle entries, in the order they were released,
/// and how many connections it has opened.
pub struct PoolModel {
    pub idle: Seq<(Seq<u8>, u16, u64, u64)>,
    pub connects: nat,
}

/// What `acquire` does to the pool, and the connection id it hands out.
pub open spec fn acquired(p: PoolModel, host: Seq<u8>, port: u16, now: u64, limit: u64) -> (PoolModel, u64, bool) {
    match last_usable(p.idle, host, port, now, limit, p.idle.len() as int) {
        Some(k) => (PoolModel { idle: p.idle.remove(k), connects: p.connects }, p.idle[k].2, false),
        None => (PoolModel { idle: p.idle, connects: p.connects + 1 }, p.connects as u64, true),
    }
}

/// What `release` does to the pool: only a reusable connection goes back.
pub open spec fn released(p: PoolModel, host: Seq<u8>, port: u16, id: u64, reusable: bool, now: u64) -> PoolModel {
    if reusable {
        PoolModel { idle: p.idle.push((host, port, id, now)), connects: p.connects }
    } else {
        p
    }
}

/// A connection handed out by the pool; `fresh` when it must be opened now.
pub struct Lease {
    pub id: u64,
    pub fresh: bool,
}

/// Idle upstream connections by target, and a count of connections opened.
pub struct Pool {
    pub idle: Vec<IdleEntry>,
    pub connects: u64,
}

impl Pool {
    pub open spec fn model(&self) -> PoolModel {
        PoolModel { idle: self.idle@.map_values(|e: IdleEntry| entry_view(e)), connects: self.connects as nat }
    }

    pub fn new() -> (r: Pool)
        ensures
            r.model().idle.len() == 0,
            r.model().connects == 0,
    {
        Pool { idle: Vec::new(), connects: 0 }
    }

    /// Hands out the most recently released usable connection to the target,
    /// or a new id to be connected, counting the connect.
    pub fn acquire(&mut self, target: &UpstreamTarget, now: u64, limit: u64) -> (r: Lease)
        requires
            old(self).connects < u64::MAX,
        ensures
            (final(self).model(), r.id, r.fresh) == acquired(old(self).model(), target.host@, target.port, now, limit),
    {
        let ghost m = self.model();
        let mut n: usize = self.idle.len();
        while n > 0
            invariant
                n <= self.idle.len(),
                m == self.model(),
                m == old(self).model(),
                old(self).connects < u64::MAX,
                last_usable(m.idle, target.host@, target.port, now, limit, m.idle.len() as int)
                    == last_usable(m.idle, target.host@, target.port, now, limit, n as int),
            decreases n,
        {
            let e = &self.idle[n - 1];
            assert(m.idle[n - 1] == entry_view(self.idle@[n - 1]));
            if e.port == target.port && bytes_eq(e.host.as_slice(), target.host.as_slice())
                && e.since <= now && now - e.since <= limit {
                assert(usable(m.idle[n - 1], target.host@, target.port, now, limit));
                assert(last_usable(m.idle, target.host@, target.port, now, limit, n as int) == Some(
                    n - 1,
                ));
                let taken = self.idle.remove(n - 1);
                assert(m.idle[n - 1].2 == taken.id);

                assert(self.model().idle =~= m.idle.remove(n - 1));
                return Lease { id: taken.id, fresh: false };
            }
            n = n - 1;
        }
        let id = self.connects;
        self.connects = self.connects + 1;
        assert(self.model().idle =~= m.idle);
        Lease { id, fresh: true }
    }

    /// Returns a connection after its transaction: kept when `reusable`, else
    /// dropped (the caller closes it). Returns whether it was kept.
    pub fn release(&mut self, target: &UpstreamTarget, id: u64, reusable: bool, now: u64) -> (r: bool)
        ensures
            r == reusable,
            final(self).model() == released(old(self).model(), target.host@, target.port, id, reusable, now),
    {
        if reusable {
            let ghost m = self.model();
            let host = crate::scan::copy_range(target.host.as_slice(), 0, target.host.len());
            assert(host@ =~= target.host@);
            self.idle.push(IdleEntry { host, port: target.port, id, since: now });
            assert(self.model().idle =~= m.idle.push((target.host@, target.port, id, now)));
        }
        reusable
    }
}

/// Whether an upstream connection may go back to the pool after a
/// transaction: both sides keep alive, the response is not delimited by
/// closing, and no I/O error came up.
pub open spec fn reusable_after(
    request_keeps_alive: bool,
    response_headers: Seq<(Seq<u8>, Seq<u8>)>,
    response_http11: bool,
    response_framing: FramingMode,
    io_error: bool,
) -> bool {
    request_keeps_alive && keeps_alive(response_headers, response_http11) && response_framing
        != FramingMode::CloseDelimited && !io_error
}

pub fn upstream_reusable(request_keeps_alive: bool, response: &Response, io_error: bool) -> (r: bool)
    ensures
        r == reusable_after(
            request_keeps_alive,
            headers_view(response.headers@),
            response.http11,
            response.framing,
            io_error,
        ),
{
    if !request_keeps_alive || io_error {
        return false;
    }
    if let FramingMode::CloseDelimited = response.framing {
        return false;
    }
    crate::message::connection_keeps_alive(&response.headers, response.http11)
}

/// Whether an idle entry has waited longer than `limit` at time `now`.
pub open spec fn stale(e: (Seq<u8>, u16, u64, u64), now: u64, limit: u64) -> bool {
    !(e.3 <= now && now - e.3 <= limit)
}

/// The idle entries that are not stale, in order.
pub open spec fn fresh_entries(idle: Seq<(Seq<u8>, u16, u64, u64)>, now: u64, limit: u64) -> Seq<(Seq<u8>, u16, u64, u64)>
    decreases idle.len(),
{
    if idle.len() == 0 {
        Seq::empty()
    } else if stale(idle.last(), now, limit) {
        fresh_entries(idle.drop_last(), now, limit)
    } else {
        fresh_entries(idle.drop_last(), now, limit).push(idle.last())
    }
}

/// The ids of the stale idle entries, in order.
pub open spec fn stale_ids(idle: Seq<(Seq<u8>, u16, u64, u64)>, now: u64, limit: u64) -> Seq<u64>
    decreases idle.len(),
{
    if idle.len() == 0 {
        Seq::empty()
    } else if stale(idle.last(), now, limit) {
        stale_ids(idle.drop_last(), now, limit).push(idle.last().2)
    } else {
        stale_ids(idle.drop_last(), now, limit)
    }
}

impl Pool {
    /// Drops the idle entries that waited longer than `limit` and returns
    /// their ids, for the caller to close those connections.
    pub fn evict_stale(&mut self, now: u64, limit: u64) -> (r: Vec<u64>)
        ensures
            r@ == stale_ids(old(self).model().idle, now, limit),
            final(self).model().idle == fresh_entries(old(self).model().idle, now, limit),
            final(self).model().connects == old(self).model().connects,
    {
        let ghost m = self.model().idle;
        let mut kept: Vec<IdleEntry> = Vec::new();
        let mut gone: Vec<u64> = Vec::new();
        let mut old_idle: Vec<IdleEntry> = Vec::new();
        std::mem::swap(&mut old_idle, &mut self.idle);
        assert(old_idle@.map_values(|e: IdleEntry| entry_view(e)) == m);
        let mut i: usize = 0;
        while i < old_idle.len()
            invariant
                i <= old_idle.len(),
                m == old_idle@.map_values(|e: IdleEntry| entry_view(e)),
                kept@.map_values(|e: IdleEntry| entry_view(e)) == fresh_entries(m.take(i as int), now, limit),
                gone@ == stale_ids(m.take(i as int), now, limit),
                self.connects == old(self).connects,
            decreases old_idle.len() - i,
        {
            let e = &old_idle[i];
            let ghost ev = entry_view(old_idle@[i as int]);
            assert(m.take(i + 1).drop_last() =~= m.take(i as int));
            assert(m.take(i + 1).last() == ev);
            if e.since <= now && now - e.since <= limit {
                let ghost before = kept@;
                let host = copy_range(e.host.as_slice(), 0, e.host.len());
                assert(host@ =~= e.host@);
                kept.push(IdleEntry { host, port: e.port, id: e.id, since: e.since });
                assert(kept@.map_values(|x: IdleEntry| entry_view(x)) =~= before.map_values(
                    |x: IdleEntry| entry_view(x),
                ).push(ev));
            } else {
                gone.push(e.id);
            }
            i = i + 1;
        }
        assert(m.take(i as int) =~= m);
        self.idle = kept;
        gone
    }
}

/// Two transactions to one target with keep-alive: the second reuses the
/// connection of the first, and the pool opens no connection for it.
pub proof fn lemma_pool_reuse(p: PoolModel, host: Seq<u8>, port: u16, t1: u64, t2: u64, limit: u64)
    requires
        t1 <= t2,
        t2 - t1 <= limit,
    ensures
        ({
            let (first_pool, id1, _) = acquired(p, host, port, t1, limit);
            let back_pool = released(first_pool, host, port, id1, true, t1);
            let (second_pool, id2, fresh2) = acquired(back_pool, host, port, t2, limit);
            id2 == id1 && !fresh2 && second_pool.connects == first_pool.connects && second_pool.idle == first_pool.idle
        }),
{
    let (first_pool, id1, _) = acquired(p, host, port, t1, limit);
    let back_pool = released(first_pool, host, port, id1, true, t1);
    assert(usable(back_pool.idle[back_pool.idle.len() - 1], host, port, t2, limit));
    assert(back_pool.idle.remove(back_pool.idle.len() - 1) =~= first_pool.idle);
}

/// Two sequential transactions to one target, the first ending with a
/// response that keeps alive (both sides keep alive, the body is framed by
/// length or chunks, no I/O error) and the second starting within the idle
/// limit: on a pool that starts empty, exactly one connection is opened.
pub proof fn lemma_one_connect_for_two(
    host: Seq<u8>,
    port: u16,
    t1: u64,
    t2: u64,
    limit: u64,
    hs: Seq<(Seq<u8>, Seq<u8>)>,
    http11: bool,
    framing: FramingMode,
)
    requires
        t1 <= t2,
        t2 - t1 <= limit,
        keeps_alive(hs, http11),
        framing != FramingMode::CloseDelimited,
    ensures
        ({
            let p = PoolModel { idle: Seq::empty(), connects: 0 };
            let (first_pool, id1, _) = acquired(p, host, port, t1, limit);
            let back_pool = released(first_pool, host, port, id1, reusable_after(true, hs, http11, framing, false), t1);
            let (second_pool, id2, fresh2) = acquired(back_pool, host, port, t2, limit);
            second_pool.connects == 1 && id2 == id1 && !fresh2
        }),
{
    let p = PoolModel { idle: Seq::empty(), connects: 0 };
    lemma_pool_reuse(p, host, port, t1, t2, limit);
}

/// A response with a `Connection` header that lists `close` (among any
/// others) makes its upstream connection non-reusable, and releasing it
/// leaves the pool as it was.
pub proof fn lemma_close_not_pooled(
    p: PoolModel,
    host: Seq<u8>,
    port: u16,
    id: u64,
    now: u64,
    request_keeps_alive: bool,
    hs: Seq<(Seq<u8>, Seq<u8>)>,
    k: int,
    http11: bool,
    framing: FramingMode,
    io_error: bool,
)
    requires
        0 <= k < hs.len(),
        eq_ignore_case(hs[k].0, connection_name()),
        token_in(hs[k].1, close_token(), 0),
    ensures
        !reusable_after(request_keeps_alive, hs, http11, framing, io_error),
        released(p, host, port, id, reusable_after(request_keeps_alive, hs, http11, framing, io_error), now) == p,
{
    lemma_header_token_any(hs, connection_name(), close_token(), 0, k);
}

/// After a `Connection: close` response, the next transaction to the same
/// target, when the pool holds no other usable connection to it, opens a
/// new connection: the count of connects goes from `k` to `k + 1`.
pub proof fn lemma_close_then_new_connect(
    p: PoolModel,
    host: Seq<u8>,
    port: u16,
    id: u64,
    t1: u64,
    t2: u64,
    limit: u64,
    hs: Seq<(Seq<u8>, Seq<u8>)>,
    k: int,
    http11: bool,
    framing: FramingMode,
)
    requires
        0 <= k < hs.len(),
        eq_ignore_case(hs[k].0, connection_name()),
        token_in(hs[k].1, close_token(), 0),
        last_usable(p.idle, host, port, t2, limit, p.idle.len() as int) is None,
    ensures
        ({
            let back_pool = released(p, host, port, id, reusable_after(true, hs, http11, framing, false), t1);
            let (next_pool, _, fresh) = acquired(back_pool, host, port, t2, limit);
            back_pool == p && fresh && next_pool.connects == p.connects + 1
        }),
{
    lemma_close_not_pooled(p, host, port, id, t1, true, hs, k, http11, framing, false);
}

} // verus!
