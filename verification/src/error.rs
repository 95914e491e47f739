//! Errors of the MOO protocol implementation.
use vstd::prelude::*;

verus! {

/// `std::io::Error`, carried through as it is.
#[verifier::external_type_specification]
#[verifier::external_body]
pub struct ExIoError(std::io::Error);

/// `std::string::FromUtf8Error`, carried through as it is.
#[verifier::external_type_specification]
#[verifier::external_body]
pub struct ExFromUtf8Error(std::string::FromUtf8Error);

/// `serde_json::Error`, carried through as it is.
#[verifier::external_type_specification]
#[verifier::external_body]
pub struct ExJsonError(serde_json::Error);

/// Result type alias for MOO operations.
pub type Result<T> = std::result::Result<T, MooError>;

/// Errors that can occur when using the MOO protocol.
#[derive(Debug)]
pub enum MooError {
    /// IO error from the underlying transport.
    Io(std::io::Error),
    /// Protocol violation detected.
    ProtocolViolation(String),
    /// Invalid or missing header.
    InvalidHeader(String),
    /// Missing required header.
    MissingHeader(String),
    /// JSON serialization/deserialization error.
    Json(serde_json::Error),
    /// Connection closed unexpectedly.
    ConnectionClosed,
    /// Operation timed out.
    Timeout,
    /// Wrong body type (expected JSON but got binary, or vice versa).
    WrongBodyType(String),
    /// Protocol version mismatch.
    VersionMismatch(String),
    /// No response received for request.
    NoResponse(String),
    /// WebSocket error.
    WebSocket(String),
    /// Error from a request handler.
    HandlerError(String),
    /// Invalid message format.
    InvalidMessage(String),
    /// Invalid verb in message.
    InvalidVerb(String),
    /// Invalid request ID.
    InvalidRequestId(String),
    /// Content-Length header does not match actual content length.
    ContentLengthMismatch { expected: usize, actual: usize },
    /// Missing Content-Type header when body is present.
    MissingContentType,
    /// Missing Content-Length header when body is present.
    MissingContentLength,
    /// Invalid Content-Length value.
    InvalidContentLength(String),
    /// UTF-8 encoding error in headers.
    Utf8Error(std::string::FromUtf8Error),
    /// Message too large.
    MessageTooLarge(usize),
}

/// A copy of `s` as an owned string.
pub fn owned(s: &str) -> (r: String)
    ensures
        r@ == s@,
{
    s.to_owned()
}

impl MooError {
    /// Create a protocol violation error.
    pub fn protocol_violation(msg: &str) -> (r: MooError)
        ensures
            r matches MooError::ProtocolViolation(m) && m@ == msg@,
    {
        MooError::ProtocolViolation(owned(msg))
    }

    /// Create an invalid header error.
    pub fn invalid_header(msg: &str) -> (r: MooError)
        ensures
            r matches MooError::InvalidHeader(m) && m@ == msg@,
    {
        MooError::InvalidHeader(owned(msg))
    }

    /// Create a missing header error.
    pub fn missing_header(name: &str) -> (r: MooError)
        ensures
            r matches MooError::MissingHeader(m) && m@ == name@,
    {
        MooError::MissingHeader(owned(name))
    }

    /// Create a wrong body type error.
    pub fn wrong_body_type(msg: &str) -> (r: MooError)
        ensures
            r matches MooError::WrongBodyType(m) && m@ == msg@,
    {
        MooError::WrongBodyType(owned(msg))
    }

    /// Create a handler error.
    pub fn handler_error(msg: &str) -> (r: MooError)
        ensures
            r matches MooError::HandlerError(m) && m@ == msg@,
    {
        MooError::HandlerError(owned(msg))
    }

    /// Create an invalid message error.
    pub fn invalid_message(msg: &str) -> (r: MooError)
        ensures
            r matches MooError::InvalidMessage(m) && m@ == msg@,
    {
        MooError::InvalidMessage(owned(msg))
    }
}

} // verus!
