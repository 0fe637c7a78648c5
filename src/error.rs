use vstd::prelude::*;

verus! {

/// The failures a transaction can end with.
#[derive(Clone, Copy, Debug, PartialEq, Eq, Structural)]
pub enum ProxyError {
    MalformedMessage,
    HeaderTooLarge,
    MissingHost,
    Forbidden,
    UpstreamUnreachable,
    RelayInterrupted,
    Timeout,
    PeerClosed,
}

} // verus!
