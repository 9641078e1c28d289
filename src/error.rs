//! Error kinds that the library reports.
use vstd::prelude::*;

verus! {

/// Failures of the frame codecs.
#[derive(Clone, Copy, Debug, PartialEq, Eq, Structural)]
pub enum EncodingError {
    /// The leading byte names no known header version.
    InvalidVersion(u8),
    /// The bytes end early or hold an unknown tag.
    Parsing,
    /// A length does not fit the field that carries it.
    FrameTooLarge,
    /// The payload is not as long as the header says.
    PayloadLength,
}

/// Structured failures reported to a local client.
#[derive(Clone, Copy, Debug, PartialEq, Eq, Structural)]
pub enum ClientError {
    /// The mode names no known namespace/operator pair.
    InvalidMode,
    /// The request lacks a field it needs.
    MissingField,
    /// The request carried no credentials, or unknown ones.
    InvalidAuth,
    /// The router does not carry out this request.
    Unsupported,
}

/// Failures of a peering session.
#[derive(Clone, Copy, Debug, PartialEq, Eq, Structural)]
pub enum SessionError {
    /// Connecting failed this many times and the session gave up.
    Refused(u16),
    /// The peer dropped an established connection.
    Dropped,
    /// The two sides disagree on the peering type.
    Handshake,
    /// The requested peering type is reserved and not supported.
    Unsupported,
}

} // verus!
