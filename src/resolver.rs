use vstd::prelude::*;
use crate::error::ProxyError;
use crate::head::{headers_view, Header};
use crate::message::{find_header, header_index, lemma_find_header_bounds, Request};
use crate::pool::UpstreamTarget;
use crate::scan::{bytes_eq, copy_range};

verus! {

pub open spec fn https_scheme() -> Seq<u8> {
    seq![104u8, 116, 116, 112, 115]
}

pub open spec fn host_name() -> Seq<u8> {
    seq![104u8, 111, 115, 116]
}

/// What the http crate reads from a request target taken as a URI: the
/// authority as written, its host, its port, and the scheme; `None` when
/// the target is no URI or has no authority.
pub uninterp spec fn uri_authority_of(t: Seq<u8>) -> Option<(Seq<u8>, Seq<u8>, Option<u16>, Option<Seq<u8>>)>;

/// What the http crate reads from a `Host` value taken as an authority: the
/// authority as written, its host and its port; `None` when it is no authority.
pub uninterp spec fn authority_parts_of(v: Seq<u8>) -> Option<(Seq<u8>, Seq<u8>, Option<u16>)>;

pub open spec fn opt_bytes(o: Option<Vec<u8>>) -> Option<Seq<u8>> {
    match o {
        Some(v) => Some(v@),
        None => None,
    }
}

/// Relies on `hyper::Uri::try_from(&[u8])` (the http crate's URI parser) and
/// its `authority`, `Authority::as_str`, `Authority::host`,
/// `Authority::port_u16` and `scheme_str` accessors.
#[verifier::external_body]
fn target_authority(t: &[u8]) -> (r: Option<(Vec<u8>, Vec<u8>, Option<u16>, Option<Vec<u8>>)>)
    ensures
        r matches Some((a, h, p, sc)) ==> uri_authority_of(t@) == Some((a@, h@, p, opt_bytes(sc))),
        r is None ==> uri_authority_of(t@) is None,
{
    let uri = hyper::Uri::try_from(t).ok()?;
    let a = uri.authority()?;
    let scheme = uri.scheme_str().map(|s| s.as_bytes().to_vec());
    Some((a.as_str().as_bytes().to_vec(), a.host().as_bytes().to_vec(), a.port_u16(), scheme))
}

/// Relies on `hyper::http::uri::Authority::try_from(&[u8])` (the http
/// crate's authority parser) and its `as_str`, `host` and `port_u16` accessors.
#[verifier::external_body]
fn host_authority(v: &[u8]) -> (r: Option<(Vec<u8>, Vec<u8>, Option<u16>)>)
    ensures
        r matches Some((a, h, p)) ==> authority_parts_of(v@) == Some((a@, h@, p)),
        r is None ==> authority_parts_of(v@) is None,
{
    let a = hyper::http::uri::Authority::try_from(v).ok()?;
    Some((a.as_str().as_bytes().to_vec(), a.host().as_bytes().to_vec(), a.port_u16()))
}

/// The target named by a parsed authority `a` with host `h` and port `p`:
/// an empty host is missing; without a port the default applies, unless the
/// authority wrote a port that is no number up to 65535 (it then does not
/// end with its host), which is malformed.
pub open spec fn authority_target(a: Seq<u8>, h: Seq<u8>, p: Option<u16>, default_port: u16) -> Result<
    (Seq<u8>, u16),
    ProxyError,
> {
    if h.len() == 0 {
        Err(ProxyError::MissingHost)
    } else {
        match p {
            Some(n) => Ok((h, n)),
            None => if a.len() >= h.len() && a.skip(a.len() - h.len()) == h {
                Ok((h, default_port))
            } else {
                Err(ProxyError::MalformedMessage)
            },
        }
    }
}

/// The port a scheme implies: 443 for `https`, else 80.
pub open spec fn scheme_port(sc: Option<Seq<u8>>) -> u16 {
    if sc == Some(https_scheme()) {
        443
    } else {
        80
    }
}

/// Where a request goes: the authority of an absolute target (one with a
/// scheme), else the
/// first `Host` header, on port 80 unless it gives one.
pub open spec fn destination(target: Seq<u8>, hs: Seq<(Seq<u8>, Seq<u8>)>) -> Result<
    (Seq<u8>, u16),
    ProxyError,
> {
    match uri_authority_of(target) {
        Some((a, h, p, Some(sc))) => authority_target(a, h, p, scheme_port(Some(sc))),
        _ => match find_header(hs, host_name(), 0) {
            Some(k) => if hs[k].1.len() == 0 {
                Err(ProxyError::MissingHost)
            } else {
                match authority_parts_of(hs[k].1) {
                    Some((a, h, p)) => authority_target(a, h, p, 80),
                    None => Err(ProxyError::MalformedMessage),
                }
            },
            None => Err(ProxyError::MissingHost),
        },
    }
}

/// Picks the target from a parsed authority.
pub fn pick_target(a: &[u8], h: &[u8], p: Option<u16>, default_port: u16) -> (r: Result<UpstreamTarget, ProxyError>)
    ensures
        r matches Ok(t) ==> authority_target(a@, h@, p, default_port) == Ok::<(Seq<u8>, u16), ProxyError>(
            (t.host@, t.port),
        ),
        r matches Err(e) ==> authority_target(a@, h@, p, default_port) == Err::<(Seq<u8>, u16), ProxyError>(e),
{
    if h.len() == 0 {
        return Err(ProxyError::MissingHost);
    }
    let host = copy_range(h, 0, h.len());
    assert(host@ =~= h@);
    match p {
        Some(n) => Ok(UpstreamTarget { host, port: n }),
        None => {
            if a.len() < h.len() {
                return Err(ProxyError::MalformedMessage);
            }
            let tail = copy_range(a, a.len() - h.len(), a.len());
            assert(tail@ =~= a@.skip(a.len() - h.len()));
            if bytes_eq(tail.as_slice(), h) {
                Ok(UpstreamTarget { host, port: default_port })
            } else {
                Err(ProxyError::MalformedMessage)
            }
        },
    }
}

/// Resolves the target of a request from its request target and headers.
pub fn resolve_target(target: &[u8], headers: &Vec<Header>) -> (r: Result<UpstreamTarget, ProxyError>)
    ensures
        r matches Ok(t) ==> destination(target@, headers_view(headers@)) == Ok::<
            (Seq<u8>, u16),
            ProxyError,
        >((t.host@, t.port)),
        r matches Err(e) ==> destination(target@, headers_view(headers@)) == Err::<
            (Seq<u8>, u16),
            ProxyError,
        >(e),
{
    if let Some((a, h, p, Some(sc))) = target_authority(target) {
        let https: Vec<u8> = vec![104u8, 116, 116, 112, 115];
        let port: u16 = if bytes_eq(sc.as_slice(), https.as_slice()) { 443 } else { 80 };
        return pick_target(a.as_slice(), h.as_slice(), p, port);
    }
    let host: Vec<u8> = vec![104u8, 111, 115, 116];
    proof {
        lemma_find_header_bounds(headers_view(headers@), host@, 0);
    }
    match header_index(headers, host.as_slice()) {
        Some(k) => {
            let v = headers[k].value.as_slice();
            if v.len() == 0 {
                return Err(ProxyError::MissingHost);
            }
            match host_authority(v) {
                Some((a, h, p)) => pick_target(a.as_slice(), h.as_slice(), p, 80),
                None => Err(ProxyError::MalformedMessage),
            }
        },
        None => Err(ProxyError::MissingHost),
    }
}

/// Resolves where a parsed request goes.
pub fn resolve(req: &Request) -> (r: Result<UpstreamTarget, ProxyError>)
    ensures
        r matches Ok(t) ==> destination(req.target@, headers_view(req.headers@)) == Ok::<
            (Seq<u8>, u16),
            ProxyError,
        >((t.host@, t.port)),
        r matches Err(e) ==> destination(req.target@, headers_view(req.headers@)) == Err::<
            (Seq<u8>, u16),
            ProxyError,
        >(e),
{
    resolve_target(req.target.as_slice(), &req.headers)
}

} // verus!
