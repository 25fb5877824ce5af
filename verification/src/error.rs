//! The errors of parsing an HTTP request.

use vstd::prelude::*;

verus! {

/// The class of a failure, as `std::io::ErrorKind` names it.
#[derive(Clone, Copy, Debug, PartialEq, Eq, Structural)]
pub enum ErrorKind {
    InvalidData,
    InvalidInput,
    NotFound,
}

/// Why a request, or one of its parts, was rejected.
#[derive(Clone, Copy, Debug, PartialEq, Eq, Structural)]
pub enum ParseError {
    /// A header name is followed by a space before its colon.
    SpacesBeforeColon,
    /// A header name holds a character outside the token set.
    InvalidHeaderName,
    /// A header line has no colon.
    MissingColon,
    /// The request line does not have exactly three parts.
    WrongNumberOfParts,
    /// The protocol part of the request line does not start with `HTTP/`.
    MissingHttpPrefix,
    /// The protocol version is not 1.1.
    UnsupportedVersion,
    /// The method is not one of the seven known ones.
    InvalidMethod,
    /// More bytes follow the body than its `Content-Length` announced.
    BodyTooLong,
    /// The request was already complete.
    AlreadyDone,
}

impl ParseError {
    /// The message that describes the error.
    pub fn message(&self) -> (m: &'static str)
        ensures
            m@ == parse_error_message(*self),
    {
        match self {
            ParseError::SpacesBeforeColon => "spaces before colon not allowed",
            ParseError::InvalidHeaderName => "invalid character in header name",
            ParseError::MissingColon => "missing colon",
            ParseError::WrongNumberOfParts => "more than 3 elements to parse",
            ParseError::MissingHttpPrefix => "missing HTTP/ prefix",
            ParseError::UnsupportedVersion => "only HTTP 1.1 is currently supported",
            ParseError::InvalidMethod => "invalid HTTP method",
            ParseError::BodyTooLong => "body longer than provided content length",
            ParseError::AlreadyDone => "request state set to Done",
        }
    }

    /// The class of the error.
    pub fn kind(&self) -> (k: ErrorKind)
        ensures
            k == parse_error_kind(*self),
    {
        match self {
            ParseError::SpacesBeforeColon => ErrorKind::InvalidData,
            ParseError::InvalidHeaderName => ErrorKind::InvalidInput,
            ParseError::MissingColon => ErrorKind::InvalidData,
            ParseError::WrongNumberOfParts => ErrorKind::InvalidInput,
            ParseError::MissingHttpPrefix => ErrorKind::InvalidData,
            ParseError::UnsupportedVersion => ErrorKind::InvalidData,
            ParseError::InvalidMethod => ErrorKind::InvalidData,
            ParseError::BodyTooLong => ErrorKind::InvalidInput,
            ParseError::AlreadyDone => ErrorKind::InvalidInput,
        }
    }
}

/// The message of each parse error.
pub open spec fn parse_error_message(e: ParseError) -> Seq<char> {
    match e {
        ParseError::SpacesBeforeColon => "spaces before colon not allowed"@,
        ParseError::InvalidHeaderName => "invalid character in header name"@,
        ParseError::MissingColon => "missing colon"@,
        ParseError::WrongNumberOfParts => "more than 3 elements to parse"@,
        ParseError::MissingHttpPrefix => "missing HTTP/ prefix"@,
        ParseError::UnsupportedVersion => "only HTTP 1.1 is currently supported"@,
        ParseError::InvalidMethod => "invalid HTTP method"@,
        ParseError::BodyTooLong => "body longer than provided content length"@,
        ParseError::AlreadyDone => "request state set to Done"@,
    }
}

/// The class of each parse error.
pub open spec fn parse_error_kind(e: ParseError) -> ErrorKind {
    match e {
        ParseError::SpacesBeforeColon => ErrorKind::InvalidData,
        ParseError::InvalidHeaderName => ErrorKind::InvalidInput,
        ParseError::MissingColon => ErrorKind::InvalidData,
        ParseError::WrongNumberOfParts => ErrorKind::InvalidInput,
        ParseError::MissingHttpPrefix => ErrorKind::InvalidData,
        ParseError::UnsupportedVersion => ErrorKind::InvalidData,
        ParseError::InvalidMethod => ErrorKind::InvalidData,
        ParseError::BodyTooLong => ErrorKind::InvalidInput,
        ParseError::AlreadyDone => ErrorKind::InvalidInput,
    }
}

} // verus!
