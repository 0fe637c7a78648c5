use vstd::prelude::*;
use crate::error::ProxyError;

verus! {

/// Where a client connection stands.
#[derive(Clone, Copy, Debug, PartialEq, Eq, Structural)]
pub enum SessionState {
    Idle,
    ReadingRequest,
    Forwarding,
    ReadingResponse,
    Draining,
    Closed,
}

/// What the outside world reports to the supervisor.
#[derive(Clone, Copy, Debug, PartialEq, Eq, Structural)]
pub enum Event {
    /// Request bytes arrived and the head is not complete yet.
    ClientBytes,
    /// A request head is complete; `allowed` is the policy's verdict on its target.
    RequestReady { allowed: bool },
    /// The request could not be framed or routed.
    ClientError(ProxyError),
    /// The upstream connection is ready and the request was sent.
    UpstreamReady,
    UpstreamFailed,
    /// The response head was relayed to the client.
    ResponseHead,
    /// The response body was relayed; `persistent` when both sides keep alive.
    ResponseDone { persistent: bool },
    IoFailed,
    Timeout,
    PeerClosed,
}

/// What the supervisor asks to be done next.
#[derive(Clone, Copy, Debug, PartialEq, Eq, Structural)]
pub enum Action {
    ReadClient,
    ConnectUpstream,
    ReadUpstream,
    RelayBody,
    /// Send an error response with this status, then close.
    ErrorReply(u16, ProxyError),
    /// Close both connections; the error, if any, that ended the session.
    Close(Option<ProxyError>),
}

/// The status of the error response the client gets for a failure.
pub open spec fn error_status(e: ProxyError) -> u16 {
    match e {
        ProxyError::MalformedMessage => 400,
        ProxyError::HeaderTooLarge => 431,
        ProxyError::MissingHost => 400,
        ProxyError::Forbidden => 403,
        ProxyError::UpstreamUnreachable => 502,
        ProxyError::RelayInterrupted => 502,
        ProxyError::Timeout => 504,
        ProxyError::PeerClosed => 400,
    }
}

pub fn status_for(e: ProxyError) -> (r: u16)
    ensures
        r == error_status(e),
{
    match e {
        ProxyError::MalformedMessage => 400,
        ProxyError::HeaderTooLarge => 431,
        ProxyError::MissingHost => 400,
        ProxyError::Forbidden => 403,
        ProxyError::UpstreamUnreachable => 502,
        ProxyError::RelayInterrupted => 502,
        ProxyError::Timeout => 504,
        ProxyError::PeerClosed => 400,
    }
}

/// A timeout or the peer's end is never answered: there is no one to tell.
pub open spec fn reported(e: ProxyError) -> bool {
    e != ProxyError::Timeout && e != ProxyError::PeerClosed
}

fn is_reported(e: ProxyError) -> (r: bool)
    ensures
        r == reported(e),
{
    match e {
        ProxyError::Timeout | ProxyError::PeerClosed => false,
        _ => true,
    }
}

pub open spec fn awaiting_request(s: SessionState) -> bool {
    s == SessionState::Idle || s == SessionState::ReadingRequest
}

/// The supervisor's transition: a timeout or the peer's end closes the
/// session silently; a request error other than those is answered before
/// closing; an upstream
/// failure gets a gateway error while no response byte has been sent, and an
/// abrupt close after.
pub open spec fn step(s: SessionState, e: Event) -> (SessionState, Action) {
    if s == SessionState::Closed {
        (SessionState::Closed, Action::Close(None))
    } else {
        match e {
            Event::Timeout => (SessionState::Closed, Action::Close(Some(ProxyError::Timeout))),
            Event::PeerClosed => (SessionState::Closed, Action::Close(Some(ProxyError::PeerClosed))),
            Event::ClientBytes => if awaiting_request(s) {
                (SessionState::ReadingRequest, Action::ReadClient)
            } else {
                (SessionState::Closed, Action::Close(None))
            },
            Event::RequestReady { allowed } => if !awaiting_request(s) {
                (SessionState::Closed, Action::Close(None))
            } else if allowed {
                (SessionState::Forwarding, Action::ConnectUpstream)
            } else {
                (SessionState::Closed, Action::ErrorReply(403, ProxyError::Forbidden))
            },
            Event::ClientError(err) => if awaiting_request(s) && reported(err) {
                (SessionState::Closed, Action::ErrorReply(error_status(err), err))
            } else {
                (SessionState::Closed, Action::Close(Some(err)))
            },
            Event::UpstreamReady => if s == SessionState::Forwarding {
                (SessionState::ReadingResponse, Action::ReadUpstream)
            } else {
                (SessionState::Closed, Action::Close(None))
            },
            Event::UpstreamFailed => if s == SessionState::Forwarding || s == SessionState::ReadingResponse {
                (SessionState::Closed, Action::ErrorReply(502, ProxyError::UpstreamUnreachable))
            } else {
                (SessionState::Closed, Action::Close(Some(ProxyError::UpstreamUnreachable)))
            },
            Event::ResponseHead => if s == SessionState::ReadingResponse {
                (SessionState::Draining, Action::RelayBody)
            } else {
                (SessionState::Closed, Action::Close(None))
            },
            Event::ResponseDone { persistent } => if s != SessionState::Draining {
                (SessionState::Closed, Action::Close(None))
            } else if persistent {
                (SessionState::Idle, Action::ReadClient)
            } else {
                (SessionState::Closed, Action::Close(None))
            },
            Event::IoFailed => if s == SessionState::Forwarding || s == SessionState::ReadingResponse {
                (SessionState::Closed, Action::ErrorReply(502, ProxyError::RelayInterrupted))
            } else {
                (SessionState::Closed, Action::Close(Some(ProxyError::RelayInterrupted)))
            },
        }
    }
}

pub fn next(s: SessionState, e: Event) -> (r: (SessionState, Action))
    ensures
        r == step(s, e),
{
    if let SessionState::Closed = s {
        return (SessionState::Closed, Action::Close(None));
    }
    let waiting = match s {
        SessionState::Idle | SessionState::ReadingRequest => true,
        _ => false,
    };
    match e {
        Event::Timeout => (SessionState::Closed, Action::Close(Some(ProxyError::Timeout))),
        Event::PeerClosed => (SessionState::Closed, Action::Close(Some(ProxyError::PeerClosed))),
        Event::ClientBytes => if waiting {
            (SessionState::ReadingRequest, Action::ReadClient)
        } else {
            (SessionState::Closed, Action::Close(None))
        },
        Event::RequestReady { allowed } => if !waiting {
            (SessionState::Closed, Action::Close(None))
        } else if allowed {
            (SessionState::Forwarding, Action::ConnectUpstream)
        } else {
            (SessionState::Closed, Action::ErrorReply(403, ProxyError::Forbidden))
        },
        Event::ClientError(err) => if waiting && is_reported(err) {
            (SessionState::Closed, Action::ErrorReply(status_for(err), err))
        } else {
            (SessionState::Closed, Action::Close(Some(err)))
        },
        Event::UpstreamReady => match s {
            SessionState::Forwarding => (SessionState::ReadingResponse, Action::ReadUpstream),
            _ => (SessionState::Closed, Action::Close(None)),
        },
        Event::UpstreamFailed => match s {
            SessionState::Forwarding | SessionState::ReadingResponse => (
                SessionState::Closed,
                Action::ErrorReply(502, ProxyError::UpstreamUnreachable),
            ),
            _ => (SessionState::Closed, Action::Close(Some(ProxyError::UpstreamUnreachable))),
        },
        Event::ResponseHead => match s {
            SessionState::ReadingResponse => (SessionState::Draining, Action::RelayBody),
            _ => (SessionState::Closed, Action::Close(None)),
        },
        Event::ResponseDone { persistent } => match s {
            SessionState::Draining => if persistent {
                (SessionState::Idle, Action::ReadClient)
            } else {
                (SessionState::Closed, Action::Close(None))
            },
            _ => (SessionState::Closed, Action::Close(None)),
        },
        Event::IoFailed => match s {
            SessionState::Forwarding | SessionState::ReadingResponse => (
                SessionState::Closed,
                Action::ErrorReply(502, ProxyError::RelayInterrupted),
            ),
            _ => (SessionState::Closed, Action::Close(Some(ProxyError::RelayInterrupted))),
        },
    }
}

/// The actions taken from state `s` on the events `evs`, in order.
pub open spec fn actions(s: SessionState, evs: Seq<Event>) -> Seq<Action>
    decreases evs.len(),
{
    if evs.len() == 0 {
        Seq::empty()
    } else {
        let (s2, a) = step(s, evs[0]);
        seq![a] + actions(s2, evs.drop_first())
    }
}

/// The state reached from `s` on the events `evs`.
pub open spec fn final_state(s: SessionState, evs: Seq<Event>) -> SessionState
    decreases evs.len(),
{
    if evs.len() == 0 {
        s
    } else {
        final_state(step(s, evs[0]).0, evs.drop_first())
    }
}

/// A client whose request head does not complete before the deadline: the
/// session closes with `Timeout`.
pub proof fn lemma_timeout_closes(s: SessionState)
    requires
        awaiting_request(s),
    ensures
        step(s, Event::Timeout) == (SessionState::Closed, Action::Close(Some(ProxyError::Timeout))),
{
}

/// No upstream connection is asked for unless a complete, allowed request
/// was reported: on any run of events without one, no `ConnectUpstream`.
pub proof fn lemma_no_connect_without_request(s: SessionState, evs: Seq<Event>)
    requires
        forall|i: int| 0 <= i < evs.len() ==> !(#[trigger] evs[i] is RequestReady),
    ensures
        forall|j: int| 0 <= j < actions(s, evs).len() ==> !(#[trigger] actions(s, evs)[j] is ConnectUpstream),
    decreases evs.len(),
{
    if evs.len() > 0 {
        let (s2, a) = step(s, evs[0]);
        let rest = evs.drop_first();
        assert forall|i: int| 0 <= i < rest.len() implies !(#[trigger] rest[i] is RequestReady) by {
            assert(rest[i] == evs[i + 1]);
        }
        lemma_no_connect_without_request(s2, rest);
        assert(!(evs[0] is RequestReady));
        let all = actions(s, evs);
        assert(all == seq![a] + actions(s2, rest));
        assert forall|j: int| 0 <= j < all.len() implies !(#[trigger] all[j] is ConnectUpstream) by {
            if j > 0 {
                assert(all[j] == actions(s2, rest)[j - 1]);
            }
        }
    }
}

/// Bytes that trickle in and then a timeout, before any head completes:
/// the session ends closed, and never asked for an upstream connection.
pub proof fn lemma_slow_head_times_out(s: SessionState, n: nat)
    requires
        awaiting_request(s),
    ensures
        ({
            let evs = Seq::new(n, |i: int| Event::ClientBytes).push(Event::Timeout);
            &&& final_state(s, evs) == SessionState::Closed
            &&& actions(s, evs).last() == Action::Close(Some(ProxyError::Timeout))
            &&& forall|j: int| 0 <= j < actions(s, evs).len() ==> !(#[trigger] actions(s, evs)[j] is ConnectUpstream)
        }),
    decreases n,
{
    let evs = Seq::new(n, |i: int| Event::ClientBytes).push(Event::Timeout);
    assert forall|i: int| 0 <= i < evs.len() implies !(#[trigger] evs[i] is RequestReady) by {
        if i < n {
            assert(evs[i] == Event::ClientBytes);
        }
    }
    lemma_no_connect_without_request(s, evs);
    if n > 0 {
        let rest = Seq::new((n - 1) as nat, |i: int| Event::ClientBytes).push(Event::Timeout);
        assert(evs.drop_first() =~= rest);
        assert(evs[0] == Event::ClientBytes);
        lemma_slow_head_times_out(SessionState::ReadingRequest, (n - 1) as nat);
        lemma_actions_len(SessionState::ReadingRequest, rest);
        let tail = actions(SessionState::ReadingRequest, rest);
        assert(step(s, evs[0]) == (SessionState::ReadingRequest, Action::ReadClient));
        assert(final_state(s, evs) == final_state(SessionState::ReadingRequest, rest));
        assert(actions(s, evs) == seq![Action::ReadClient] + tail);
        assert((seq![Action::ReadClient] + tail).last() == tail.last());
    } else {
        assert(evs.drop_first() =~= Seq::<Event>::empty());
        assert(evs[0] == Event::Timeout);
        assert(actions(SessionState::Closed, evs.drop_first()) =~= Seq::<Action>::empty());
        assert(final_state(SessionState::Closed, evs.drop_first()) == SessionState::Closed);
        assert(actions(s, evs) =~= seq![Action::Close(Some(ProxyError::Timeout))]);
    }
}

proof fn lemma_actions_len(s: SessionState, evs: Seq<Event>)
    ensures
        actions(s, evs).len() == evs.len(),
    decreases evs.len(),
{
    if evs.len() > 0 {
        lemma_actions_len(step(s, evs[0]).0, evs.drop_first());
    }
}

pub open spec fn in_transaction(s: SessionState) -> bool {
    s == SessionState::Forwarding || s == SessionState::ReadingResponse || s == SessionState::Draining
}

/// One transaction at a time, in order: once an upstream connection is asked
/// for, no other is asked for until the response is done, whatever else
/// happens; so pipelined requests are forwarded, and answered, one after the
/// other in the order they came.
pub proof fn lemma_one_transaction_at_a_time(s: SessionState, evs: Seq<Event>)
    requires
        in_transaction(s) || s == SessionState::Closed,
        forall|i: int| 0 <= i < evs.len() ==> !(#[trigger] evs[i] is ResponseDone),
    ensures
        forall|j: int| 0 <= j < actions(s, evs).len() ==> !(#[trigger] actions(s, evs)[j] is ConnectUpstream),
    decreases evs.len(),
{
    if evs.len() > 0 {
        let (s2, a) = step(s, evs[0]);
        let rest = evs.drop_first();
        assert(!(evs[0] is ResponseDone));
        assert(in_transaction(s2) || s2 == SessionState::Closed);
        assert forall|i: int| 0 <= i < rest.len() implies !(#[trigger] rest[i] is ResponseDone) by {
            assert(rest[i] == evs[i + 1]);
        }
        lemma_one_transaction_at_a_time(s2, rest);
        let all = actions(s, evs);
        assert(all == seq![a] + actions(s2, rest));
        assert forall|j: int| 0 <= j < all.len() implies !(#[trigger] all[j] is ConnectUpstream) by {
            if j > 0 {
                assert(all[j] == actions(s2, rest)[j - 1]);
            }
        }
    }
}

/// Asking for an upstream connection starts a transaction.
pub proof fn lemma_connect_starts_transaction(s: SessionState, e: Event)
    ensures
        step(s, e).1 is ConnectUpstream ==> awaiting_request(s) && step(s, e).0 == SessionState::Forwarding,
{
}

/// Where a transaction stands as its actions show it: 0 none open, 1 its
/// upstream asked for, 2 its response being relayed.
pub open spec fn phase_of(s: SessionState) -> int {
    if s == SessionState::Forwarding || s == SessionState::ReadingResponse {
        1
    } else if s == SessionState::Draining {
        2
    } else {
        0
    }
}

/// Actions that keep transactions in their cycle from `phase`: an upstream
/// is asked for only when none is open, a response is relayed only for the
/// transaction just connected, and the next request is read only once that
/// relay is done (or the session ends).
pub open spec fn cycles(acts: Seq<Action>, phase: int) -> bool
    decreases acts.len(),
{
    if acts.len() == 0 {
        true
    } else {
        let rest = acts.drop_first();
        match acts[0] {
            Action::ConnectUpstream => phase == 0 && cycles(rest, 1),
            Action::RelayBody => phase == 1 && cycles(rest, 2),
            Action::ReadClient => cycles(rest, if phase == 2 { 0 } else { phase }),
            Action::ReadUpstream => phase == 1 && cycles(rest, 1),
            Action::ErrorReply(_, _) => cycles(rest, 0),
            Action::Close(_) => cycles(rest, 0),
        }
    }
}

/// Pipelined requests are served strictly in turn: on any run of events,
/// the actions go connect, relay the response, read the next request, and
/// never start a transaction while another one's response is pending, so
/// responses reach the client in the order the requests came.
pub proof fn lemma_transactions_in_turn(s: SessionState, evs: Seq<Event>)
    ensures
        cycles(actions(s, evs), phase_of(s)),
    decreases evs.len(),
{
    if evs.len() > 0 {
        let (s2, a) = step(s, evs[0]);
        lemma_transactions_in_turn(s2, evs.drop_first());
        let all = actions(s, evs);
        assert(all == seq![a] + actions(s2, evs.drop_first()));
        assert(all.drop_first() =~= actions(s2, evs.drop_first()));
        assert(all[0] == a);
    }
}

/// How long each kind of wait may last, in milliseconds.
pub struct Deadlines {
    /// Between requests on a kept-alive connection.
    pub idle: u64,
    /// For a whole request head, from its first byte.
    pub header: u64,
    pub connect: u64,
    /// For each read from the upstream.
    pub response: u64,
}

pub open spec fn sat_add(a: u64, b: u64) -> u64 {
    if a + b > u64::MAX {
        u64::MAX
    } else {
        (a + b) as u64
    }
}

/// When the next wait in state `s` ends, at time `now`; `head_began` is when
/// the first byte of the current request head came, if one has. A head's
/// deadline is fixed when it begins, so a client that trickles bytes still
/// runs out of time.
pub open spec fn wait_until(d: Deadlines, s: SessionState, head_began: Option<u64>, now: u64) -> Option<u64> {
    match s {
        SessionState::Idle | SessionState::ReadingRequest => match head_began {
            Some(t) => Some(sat_add(t, d.header)),
            None => if s == SessionState::Idle {
                Some(sat_add(now, d.idle))
            } else {
                Some(sat_add(now, d.header))
            },
        },
        SessionState::Forwarding => Some(sat_add(now, d.connect)),
        SessionState::ReadingResponse | SessionState::Draining => Some(sat_add(now, d.response)),
        SessionState::Closed => None,
    }
}

fn add_saturating(a: u64, b: u64) -> (r: u64)
    ensures
        r == sat_add(a, b),
{
    if a > u64::MAX - b {
        u64::MAX
    } else {
        a + b
    }
}

pub fn deadline_for(d: &Deadlines, s: SessionState, head_began: Option<u64>, now: u64) -> (r: Option<u64>)
    ensures
        r == wait_until(*d, s, head_began, now),
{
    match s {
        SessionState::Idle | SessionState::ReadingRequest => match head_began {
            Some(t) => Some(add_saturating(t, d.header)),
            None => match s {
                SessionState::Idle => Some(add_saturating(now, d.idle)),
                _ => Some(add_saturating(now, d.header)),
            },
        },
        SessionState::Forwarding => Some(add_saturating(now, d.connect)),
        SessionState::ReadingResponse | SessionState::Draining => Some(add_saturating(now, d.response)),
        SessionState::Closed => None,
    }
}

} // verus!
