use relay_proxy::error::ProxyError;
use relay_proxy::message::parse_request;
use relay_proxy::pool::{upstream_reusable, Pool, UpstreamTarget};
use relay_proxy::message::parse_response;
use relay_proxy::reader::{classify_read, ReadBuffer};
use relay_proxy::resolver::{pick_target, resolve};
use relay_proxy::session::{deadline_for, next, status_for, Action, Deadlines, Event, SessionState};

fn target(raw: &[u8]) -> Result<(Vec<u8>, u16), ProxyError> {
    let req = parse_request(raw).unwrap().unwrap();
    resolve(&req).map(|t| (t.host, t.port))
}

#[test]
fn absolute_uri_targets() {
    assert_eq!(target(b"GET http://example.com:8080/a HTTP/1.1\r\n\r\n"), Ok((b"example.com".to_vec(), 8080)));
    assert_eq!(target(b"GET http://example.com/a HTTP/1.1\r\nHost: other\r\n\r\n"), Ok((b"example.com".to_vec(), 80)));
    assert_eq!(target(b"GET https://secure.example HTTP/1.1\r\n\r\n"), Ok((b"secure.example".to_vec(), 443)));
}

#[test]
fn authority_forms_read_by_the_uri_parser() {
    assert_eq!(target(b"GET http://user@h.example:81/x HTTP/1.1\r\n\r\n"), Ok((b"h.example".to_vec(), 81)));
    assert_eq!(target(b"GET http://[::1]:8080/ HTTP/1.1\r\n\r\n"), Ok((b"[::1]".to_vec(), 8080)));
    assert_eq!(target(b"GET / HTTP/1.1\r\nHost: [::1]\r\n\r\n"), Ok((b"[::1]".to_vec(), 80)));
}

#[test]
fn pick_target_rules() {
    let r = pick_target(b"a:8", b"a", Some(8), 80).map(|t| (t.host, t.port));
    assert_eq!(r, Ok((b"a".to_vec(), 8)));
    let r = pick_target(b"a", b"a", None, 443).map(|t| (t.host, t.port));
    assert_eq!(r, Ok((b"a".to_vec(), 443)));
    assert!(matches!(pick_target(b"a:99999", b"a", None, 80), Err(ProxyError::MalformedMessage)));
    assert!(matches!(pick_target(b"", b"", None, 80), Err(ProxyError::MissingHost)));
}

#[test]
fn host_header_target() {
    assert_eq!(target(b"GET / HTTP/1.1\r\nhost: h.example:81\r\n\r\n"), Ok((b"h.example".to_vec(), 81)));
    assert_eq!(target(b"GET / HTTP/1.1\r\nHost: h.example\r\n\r\n"), Ok((b"h.example".to_vec(), 80)));
}

#[test]
fn missing_or_bad_host() {
    assert_eq!(target(b"GET / HTTP/1.1\r\n\r\n"), Err(ProxyError::MissingHost));
    assert_eq!(target(b"GET / HTTP/1.1\r\nHost:\r\n\r\n"), Err(ProxyError::MissingHost));
    assert_eq!(target(b"GET / HTTP/1.1\r\nHost: a:99999\r\n\r\n"), Err(ProxyError::MalformedMessage));
    assert_eq!(target(b"GET / HTTP/1.1\r\nHost: a:x\r\n\r\n"), Err(ProxyError::MalformedMessage));
}

fn t(host: &str, port: u16) -> UpstreamTarget {
    UpstreamTarget { host: host.as_bytes().to_vec(), port }
}

#[test]
fn pool_reuses_keep_alive_connection() {
    let mut pool = Pool::new();
    let a = pool.acquire(&t("h", 80), 100, 30);
    assert!(a.fresh);
    assert!(pool.release(&t("h", 80), a.id, true, 100));
    let b = pool.acquire(&t("h", 80), 110, 30);
    assert!(!b.fresh);
    assert_eq!(b.id, a.id);
    assert_eq!(pool.connects, 1);
}

#[test]
fn pool_keeps_targets_apart() {
    let mut pool = Pool::new();
    let a = pool.acquire(&t("h", 80), 0, 30);
    pool.release(&t("h", 80), a.id, true, 0);
    let b = pool.acquire(&t("h", 81), 0, 30);
    assert!(b.fresh);
    assert_ne!(a.id, b.id);
    assert_eq!(pool.connects, 2);
}

#[test]
fn pool_skips_expired_connection() {
    let mut pool = Pool::new();
    let a = pool.acquire(&t("h", 80), 0, 30);
    pool.release(&t("h", 80), a.id, true, 0);
    let b = pool.acquire(&t("h", 80), 31, 30);
    assert!(b.fresh);
    assert_eq!(pool.connects, 2);
}

#[test]
fn connection_close_is_not_pooled() {
    let resp = parse_response(b"HTTP/1.1 200 OK\r\nConnection: close\r\nContent-Length: 0\r\n\r\n", false)
        .unwrap()
        .unwrap();
    let reusable = upstream_reusable(true, &resp, false);
    assert!(!reusable);
    let mut pool = Pool::new();
    let a = pool.acquire(&t("h", 80), 0, 30);
    assert!(!pool.release(&t("h", 80), a.id, reusable, 0));
    assert!(pool.idle.is_empty());
    let b = pool.acquire(&t("h", 80), 1, 30);
    assert!(b.fresh);
    assert_eq!(pool.connects, 2);
}

#[test]
fn reuse_rules() {
    let ok = parse_response(b"HTTP/1.1 200 OK\r\nContent-Length: 0\r\n\r\n", false).unwrap().unwrap();
    assert!(upstream_reusable(true, &ok, false));
    assert!(!upstream_reusable(false, &ok, false));
    assert!(!upstream_reusable(true, &ok, true));
    let open_ended = parse_response(b"HTTP/1.1 200 OK\r\n\r\n", false).unwrap().unwrap();
    assert!(!upstream_reusable(true, &open_ended, false));
}

#[test]
fn slow_head_times_out_without_upstream() {
    let (s, a) = next(SessionState::Idle, Event::ClientBytes);
    assert_eq!((s, a), (SessionState::ReadingRequest, Action::ReadClient));
    let (s, a) = next(s, Event::ClientBytes);
    assert_eq!(a, Action::ReadClient);
    let (s, a) = next(s, Event::Timeout);
    assert_eq!(s, SessionState::Closed);
    assert_eq!(a, Action::Close(Some(ProxyError::Timeout)));
}

#[test]
fn full_transaction_and_keep_alive() {
    let (s, a) = next(SessionState::Idle, Event::RequestReady { allowed: true });
    assert_eq!(a, Action::ConnectUpstream);
    let (s, a) = next(s, Event::UpstreamReady);
    assert_eq!(a, Action::ReadUpstream);
    let (s, a) = next(s, Event::ResponseHead);
    assert_eq!(a, Action::RelayBody);
    let (s, a) = next(s, Event::ResponseDone { persistent: true });
    assert_eq!((s, a), (SessionState::Idle, Action::ReadClient));
    let (s, a) = next(SessionState::Draining, Event::ResponseDone { persistent: false });
    assert_eq!((s, a), (SessionState::Closed, Action::Close(None)));
}

#[test]
fn error_replies() {
    assert_eq!(
        next(SessionState::ReadingRequest, Event::RequestReady { allowed: false }).1,
        Action::ErrorReply(403, ProxyError::Forbidden)
    );
    assert_eq!(
        next(SessionState::Forwarding, Event::UpstreamFailed).1,
        Action::ErrorReply(502, ProxyError::UpstreamUnreachable)
    );
    assert_eq!(
        next(SessionState::Draining, Event::IoFailed).1,
        Action::Close(Some(ProxyError::RelayInterrupted))
    );
    assert_eq!(
        next(SessionState::ReadingRequest, Event::ClientError(ProxyError::HeaderTooLarge)).1,
        Action::ErrorReply(431, ProxyError::HeaderTooLarge)
    );
    assert_eq!(next(SessionState::Idle, Event::PeerClosed).1, Action::Close(Some(ProxyError::PeerClosed)));
    assert_eq!(status_for(ProxyError::MissingHost), 400);
}

#[test]
fn one_transaction_at_a_time() {
    let (s, a) = next(SessionState::Idle, Event::RequestReady { allowed: true });
    assert_eq!(a, Action::ConnectUpstream);
    let (s2, a2) = next(s, Event::RequestReady { allowed: true });
    assert_ne!(a2, Action::ConnectUpstream);
    assert_eq!(s2, SessionState::Closed);
    let (s, _) = next(s, Event::UpstreamReady);
    let (s, _) = next(s, Event::ResponseHead);
    let (s, a) = next(s, Event::ResponseDone { persistent: true });
    assert_eq!((s, a), (SessionState::Idle, Action::ReadClient));
    let (_, a) = next(s, Event::RequestReady { allowed: true });
    assert_eq!(a, Action::ConnectUpstream);
}

#[test]
fn timeout_and_peer_close_are_not_answered() {
    assert_eq!(
        next(SessionState::ReadingRequest, Event::ClientError(ProxyError::Timeout)),
        (SessionState::Closed, Action::Close(Some(ProxyError::Timeout)))
    );
    assert_eq!(
        next(SessionState::Idle, Event::ClientError(ProxyError::PeerClosed)),
        (SessionState::Closed, Action::Close(Some(ProxyError::PeerClosed)))
    );
}

#[test]
fn any_connection_close_token_blocks_reuse() {
    for raw in [
        &b"HTTP/1.1 200 OK\r\nConnection: Upgrade\r\nConnection: close\r\nContent-Length: 0\r\n\r\n"[..],
        &b"HTTP/1.1 200 OK\r\nConnection: close, TE\r\nContent-Length: 0\r\n\r\n"[..],
        &b"HTTP/1.1 200 OK\r\nConnection: TE ,CLOSE \r\nContent-Length: 0\r\n\r\n"[..],
        &b"HTTP/1.1 200 OK\r\nConnection: close \r\nContent-Length: 0\r\n\r\n"[..],
    ] {
        let resp = parse_response(raw, false).unwrap().unwrap();
        assert!(!upstream_reusable(true, &resp, false));
    }
    let resp = parse_response(b"HTTP/1.0 200 OK\r\nConnection: foo, keep-alive\r\nContent-Length: 0\r\n\r\n", false)
        .unwrap()
        .unwrap();
    assert!(upstream_reusable(true, &resp, false));
}

#[test]
fn stale_idle_connections_are_evicted() {
    let mut pool = Pool::new();
    let a = pool.acquire(&t("h", 80), 0, 30);
    let b = pool.acquire(&t("h", 80), 0, 30);
    pool.release(&t("h", 80), a.id, true, 0);
    pool.release(&t("h", 80), b.id, true, 20);
    assert_eq!(pool.evict_stale(40, 30), vec![a.id]);
    assert_eq!(pool.idle.len(), 1);
    assert_eq!(pool.idle[0].id, b.id);
    assert_eq!(pool.evict_stale(40, 30), Vec::<u64>::new());
}

#[test]
fn pipelined_requests_parse_in_order() {
    let mut buf = ReadBuffer::new(1024);
    buf.append(b"GET /1 HTTP/1.1\r\nHost: a\r\n\r\nPOST /2 HTTP/1.1\r\nHost: a\r\nContent-Length: 2\r\n\r\nhiGET /3 HTTP/1.1\r\nHost: a\r\n\r\n").unwrap();
    let mut seen = Vec::new();
    while let Some(req) = buf.next_request().unwrap() {
        let len = match req.framing {
            relay_proxy::message::FramingMode::ContentLength(n) => n as usize,
            _ => 0,
        };
        seen.push(req.target.clone());
        buf.consume(req.body_start + len);
    }
    assert_eq!(seen, vec![b"/1".to_vec(), b"/2".to_vec(), b"/3".to_vec()]);
    assert!(buf.data.is_empty());
}

#[test]
fn read_buffer_limits() {
    let mut buf = ReadBuffer::new(8);
    assert_eq!(buf.append(b"GET / HT"), Ok(8));
    assert_eq!(buf.append(b"T"), Err(ProxyError::HeaderTooLarge));
    assert_eq!(buf.data, b"GET / HT".to_vec());
    assert!(matches!(buf.next_request(), Err(ProxyError::HeaderTooLarge)));
    buf.consume(4);
    assert_eq!(buf.data, b"/ HT".to_vec());
    assert!(matches!(buf.next_request(), Ok(None)));
    assert_eq!(classify_read(0, false), Err(ProxyError::PeerClosed));
    assert_eq!(classify_read(5, true), Err(ProxyError::Timeout));
    assert_eq!(classify_read(5, false), Ok(5));
}

#[test]
fn head_within_budget_survives_a_large_read() {
    let head = b"POST / HTTP/1.1\r\nHost: a\r\nContent-Length: 20\r\n\r\n";
    let mut buf = ReadBuffer::new(head.len() + 2);
    assert_eq!(buf.append(&head[..10]), Ok(10));
    let mut rest = head[10..].to_vec();
    rest.extend_from_slice(b"01234567890123456789");
    assert_eq!(buf.append(&rest), Ok(rest.len()));
    let req = buf.next_request().unwrap().unwrap();
    assert_eq!(req.body_start, head.len());
    assert_eq!(buf.data.len(), head.len() + 20);
}

#[test]
fn head_past_budget_is_refused() {
    let head = b"GET / HTTP/1.1\r\nHost: a\r\nX-Long: 0123456789\r\n\r\n";
    let mut buf = ReadBuffer::new(20);
    assert_eq!(buf.append(head), Err(ProxyError::HeaderTooLarge));
    assert!(buf.data.is_empty());
}

#[test]
fn target_without_scheme_uses_host_header() {
    assert_eq!(target(b"GET example.com:8080 HTTP/1.1\r\nHost: other:81\r\n\r\n"), Ok((b"other".to_vec(), 81)));
}

#[test]
fn upstream_failure_before_response_bytes_is_answered() {
    assert_eq!(
        next(SessionState::ReadingResponse, Event::UpstreamFailed).1,
        Action::ErrorReply(502, ProxyError::UpstreamUnreachable)
    );
    assert_eq!(
        next(SessionState::Draining, Event::UpstreamFailed).1,
        Action::Close(Some(ProxyError::UpstreamUnreachable))
    );
}

#[test]
fn deadlines_by_phase() {
    let d = Deadlines { idle: 60, header: 10, connect: 5, response: 30 };
    assert_eq!(deadline_for(&d, SessionState::Idle, None, 100), Some(160));
    assert_eq!(deadline_for(&d, SessionState::ReadingRequest, Some(100), 150), Some(110));
    assert_eq!(deadline_for(&d, SessionState::ReadingRequest, None, 150), Some(160));
    assert_eq!(deadline_for(&d, SessionState::Forwarding, None, 7), Some(12));
    assert_eq!(deadline_for(&d, SessionState::Draining, None, u64::MAX - 1), Some(u64::MAX));
    assert_eq!(deadline_for(&d, SessionState::Closed, None, 0), None);
}
