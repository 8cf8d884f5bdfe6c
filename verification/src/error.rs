use vstd::prelude::*;

verus! {

/// The mathematical value of an [`Error`].
pub enum ErrorV {
    ProtocolViolation,
    MalformedInteger,
    KeyNotFound,
    ServerError(Seq<u8>),
    UnknownTypeTag,
    ConnectionClosed,
}

/// Why a protocol exchange failed.
///
/// Transport failures (connect, read, write) are reported by the I/O layer
/// that owns the socket, not by this codec, so they have no variant here.
#[derive(Debug, PartialEq)]
pub enum Error {
    /// The peer or stream is not speaking the protocol correctly: a
    /// malformed length, a bad line terminator, a truncated payload, or an
    /// empty frame on a closed stream. Fatal for the current exchange.
    ProtocolViolation,
    /// An integer reply payload failed to parse as a signed 64-bit value.
    MalformedInteger,
    /// The recognized `$-1` sentinel: the requested value is absent. A
    /// legitimate, expected outcome, not a transport fault.
    KeyNotFound,
    /// The peer reported an application-level error (a `-` frame); carries
    /// the verbatim server message.
    ServerError(Vec<u8>),
    /// The frame began with a byte that is none of the five type tags.
    UnknownTypeTag,
    /// An operation was attempted after the connection was closed.
    ConnectionClosed,
}

impl View for Error {
    type V = ErrorV;

    open spec fn view(&self) -> ErrorV {
        match self {
            Error::ProtocolViolation => ErrorV::ProtocolViolation,
            Error::MalformedInteger => ErrorV::MalformedInteger,
            Error::KeyNotFound => ErrorV::KeyNotFound,
            Error::ServerError(m) => ErrorV::ServerError(m@),
            Error::UnknownTypeTag => ErrorV::UnknownTypeTag,
            Error::ConnectionClosed => ErrorV::ConnectionClosed,
        }
    }
}

} // verus!
