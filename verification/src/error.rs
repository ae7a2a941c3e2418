//! The error type shared by the codec and by callers that drive a query.

use vstd::prelude::*;

verus! {

use crate::header::ResponseCode;

/// Declares std::io::Error so the `Io` variant can carry one; the codec
/// never constructs or inspects such a value, it only passes it through for
/// the caller that owns the socket.
#[verifier::external_type_specification]
#[verifier::external_body]
pub struct ExIoError(std::io::Error);

/// Everything that can go wrong while resolving a name: transport failures
/// (produced by the caller that owns the socket, never by the codec itself),
/// malformed wire data, and server-signalled failures.
#[derive(Debug)]
pub enum DnsError {
    /// An I/O error occurred during network communication.
    Io(std::io::Error),
    /// No response arrived within the transport's timeout.
    Timeout,
    /// The byte buffer could not be decoded as a DNS message, or a query
    /// could not be encoded; the string describes what went wrong.
    InvalidResponse(String),
    /// The response parsed, but the server reported an error code.
    ServerReturnedError(ResponseCode),
}

impl From<std::io::Error> for DnsError {
    fn from(e: std::io::Error) -> (r: Self) {
        DnsError::Io(e)
    }
}

impl vstd::std_specs::convert::FromSpecImpl<std::io::Error> for DnsError {
    open spec fn obeys_from_spec() -> bool {
        true
    }

    open spec fn from_spec(e: std::io::Error) -> Self {
        DnsError::Io(e)
    }
}

/// The error every decoder returns when a read would run past the bytes
/// that are actually present.
pub(crate) fn truncated_error() -> (r: DnsError)
    ensures
        r is InvalidResponse,
{
    DnsError::InvalidResponse(String::from_str("unexpected end of message"))
}

} // verus!
