//! Error taxonomy: parse failures named by the offending token, and the
//! connection-level errors surfaced by the transport layer.

use vstd::prelude::*;

use crate::text::{ascii_chars, is_ascii_bytes, lossy_string};

verus! {

/// Spec-level shape of a [`ParseError`].
pub enum ParseErrSpec {
    /// Too few colon-separated segments for a socket address.
    Format,
    /// The final segment is not an unsigned 16-bit port number.
    Port { token: Seq<u8> },
    /// Four octet-like segments that still do not form an IPv4 literal.
    Ip { token: Seq<u8> },
    /// Neither an address literal, a loopback alias, nor a well-formed hostname.
    Host { token: Seq<u8> },
    /// A GPIB primary address outside the accepted range.
    GpibPrimary { token: Seq<u8> },
}

/// A rejected address string; the payload names the offending token.
#[derive(Clone, Debug, PartialEq, Eq)]
pub enum ParseError {
    Format,
    Port(Vec<u8>),
    Ip(Vec<u8>),
    Host(Vec<u8>),
    GpibPrimary(Vec<u8>),
}

impl View for ParseError {
    type V = ParseErrSpec;

    open spec fn view(&self) -> ParseErrSpec {
        match self {
            ParseError::Format => ParseErrSpec::Format,
            ParseError::Port(t) => ParseErrSpec::Port { token: t@ },
            ParseError::Ip(t) => ParseErrSpec::Ip { token: t@ },
            ParseError::Host(t) => ParseErrSpec::Host { token: t@ },
            ParseError::GpibPrimary(t) => ParseErrSpec::GpibPrimary { token: t@ },
        }
    }
}

/// The human-readable text of each parse failure, for ASCII tokens.
pub open spec fn spec_message(e: ParseErrSpec) -> Seq<char> {
    match e {
        ParseErrSpec::Format => {
            "Incorrect Socket address format. Address format is shown inside the quotes \"IP:PortNumber\" Or \"HostName:PortNumber\" examples:\n 192.168.0.20:8080 or PCNAME1:50050"@
        },
        ParseErrSpec::Port { token } => {
            "Unable to parse port into a number. port: "@ + ascii_chars(token)
        },
        ParseErrSpec::Ip { token } => "Unable to parse IP address: "@ + ascii_chars(token),
        ParseErrSpec::Host { token } => "Unable to parse IP or hostname: "@ + ascii_chars(token),
        ParseErrSpec::GpibPrimary { token } => {
            "Invalid primary GPIB address "@ + ascii_chars(token)
        },
    }
}

impl ParseError {
    /// The failure as human-readable text, naming the offending token.
    pub fn message(&self) -> (r: String)
        ensures
            self.is_ascii_token() ==> r@ == spec_message(self@),
    {
        match self {
            ParseError::Format => {
                String::from_str(
                    "Incorrect Socket address format. Address format is shown inside the quotes \"IP:PortNumber\" Or \"HostName:PortNumber\" examples:\n 192.168.0.20:8080 or PCNAME1:50050",
                )
            },
            ParseError::Port(t) => {
                let tok = lossy_string(t);
                String::from_str("Unable to parse port into a number. port: ").concat(tok.as_str())
            },
            ParseError::Ip(t) => {
                let tok = lossy_string(t);
                String::from_str("Unable to parse IP address: ").concat(tok.as_str())
            },
            ParseError::Host(t) => {
                let tok = lossy_string(t);
                String::from_str("Unable to parse IP or hostname: ").concat(tok.as_str())
            },
            ParseError::GpibPrimary(t) => {
                let tok = lossy_string(t);
                String::from_str("Invalid primary GPIB address ").concat(tok.as_str())
            },
        }
    }

    /// Whether the offending token, if any, is plain ASCII.
    pub open spec fn is_ascii_token(&self) -> bool {
        match self@ {
            ParseErrSpec::Format => true,
            ParseErrSpec::Port { token } => is_ascii_bytes(token),
            ParseErrSpec::Ip { token } => is_ascii_bytes(token),
            ParseErrSpec::Host { token } => is_ascii_bytes(token),
            ParseErrSpec::GpibPrimary { token } => is_ascii_bytes(token),
        }
    }
}

/// Spec-level shape of an [`Error`].
pub enum ErrorSpec {
    Timeout,
    Binary { msg: Seq<char> },
    OpenSession { msg: Seq<char> },
    ParseFailed { msg: Seq<char> },
    ConnectionFailed { msg: Seq<char> },
    FunctionFailure { msg: Seq<char> },
    ConflictingSettings { msg: Seq<char> },
}

/// Errors surfaced by the transport layer. Parse failures are wrapped in
/// `ParseFailed`; driver-load failures are memoized as `BinaryError` or
/// `OpenSessionError` and re-surfaced on every later attempt.
#[derive(Clone, Debug, PartialEq, Eq)]
#[non_exhaustive]
pub enum Error {
    Timeout,
    BinaryError(String),
    OpenSessionError(String),
    ParseFailed(String),
    ConnectionFailed(String),
    FunctionFailure(String),
    ConflictingSettings(String),
}

impl Error {
    /// A structurally equal copy of the error.
    pub fn duplicate(&self) -> (r: Error)
        ensures
            r@ == self@,
    {
        match self {
            Error::Timeout => Error::Timeout,
            Error::BinaryError(m) => Error::BinaryError(m.clone()),
            Error::OpenSessionError(m) => Error::OpenSessionError(m.clone()),
            Error::ParseFailed(m) => Error::ParseFailed(m.clone()),
            Error::ConnectionFailed(m) => Error::ConnectionFailed(m.clone()),
            Error::FunctionFailure(m) => Error::FunctionFailure(m.clone()),
            Error::ConflictingSettings(m) => Error::ConflictingSettings(m.clone()),
        }
    }
}

impl View for Error {
    type V = ErrorSpec;

    open spec fn view(&self) -> ErrorSpec {
        match self {
            Error::Timeout => ErrorSpec::Timeout,
            Error::BinaryError(m) => ErrorSpec::Binary { msg: m@ },
            Error::OpenSessionError(m) => ErrorSpec::OpenSession { msg: m@ },
            Error::ParseFailed(m) => ErrorSpec::ParseFailed { msg: m@ },
            Error::ConnectionFailed(m) => ErrorSpec::ConnectionFailed { msg: m@ },
            Error::FunctionFailure(m) => ErrorSpec::FunctionFailure { msg: m@ },
            Error::ConflictingSettings(m) => ErrorSpec::ConflictingSettings { msg: m@ },
        }
    }
}

} // verus!
