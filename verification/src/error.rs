use vstd::prelude::*;

verus! {

/// The error codes of RFC 7540 section 7.
#[derive(Debug, Clone, Copy, PartialEq, Eq, Structural)]
pub enum ErrorCode {
    NoError,
    ProtocolError,
    InternalError,
    FlowControlError,
    SettingsTimeout,
    StreamClosed,
    FrameSizeError,
    RefusedStream,
    Cancel,
    CompressionError,
    ConnectError,
    EnhanceYourCalm,
    InadequateSecurity,
    Http11Required,
}

/// The number that stands for `c` on the wire.
pub open spec fn code_value(c: ErrorCode) -> u32 {
    match c {
        ErrorCode::NoError => 0x0,
        ErrorCode::ProtocolError => 0x1,
        ErrorCode::InternalError => 0x2,
        ErrorCode::FlowControlError => 0x3,
        ErrorCode::SettingsTimeout => 0x4,
        ErrorCode::StreamClosed => 0x5,
        ErrorCode::FrameSizeError => 0x6,
        ErrorCode::RefusedStream => 0x7,
        ErrorCode::Cancel => 0x8,
        ErrorCode::CompressionError => 0x9,
        ErrorCode::ConnectError => 0xa,
        ErrorCode::EnhanceYourCalm => 0xb,
        ErrorCode::InadequateSecurity => 0xc,
        ErrorCode::Http11Required => 0xd,
    }
}

/// The code that a received number stands for; numbers this endpoint does
/// not know are read as `InternalError`.
pub open spec fn code_of_value(v: u32) -> ErrorCode {
    if v == 0x0 {
        ErrorCode::NoError
    } else if v == 0x1 {
        ErrorCode::ProtocolError
    } else if v == 0x2 {
        ErrorCode::InternalError
    } else if v == 0x3 {
        ErrorCode::FlowControlError
    } else if v == 0x4 {
        ErrorCode::SettingsTimeout
    } else if v == 0x5 {
        ErrorCode::StreamClosed
    } else if v == 0x6 {
        ErrorCode::FrameSizeError
    } else if v == 0x7 {
        ErrorCode::RefusedStream
    } else if v == 0x8 {
        ErrorCode::Cancel
    } else if v == 0x9 {
        ErrorCode::CompressionError
    } else if v == 0xa {
        ErrorCode::ConnectError
    } else if v == 0xb {
        ErrorCode::EnhanceYourCalm
    } else if v == 0xc {
        ErrorCode::InadequateSecurity
    } else if v == 0xd {
        ErrorCode::Http11Required
    } else {
        ErrorCode::InternalError
    }
}

impl ErrorCode {
    pub fn as_u32(self) -> (r: u32)
        ensures
            r == code_value(self),
    {
        match self {
            ErrorCode::NoError => 0x0,
            ErrorCode::ProtocolError => 0x1,
            ErrorCode::InternalError => 0x2,
            ErrorCode::FlowControlError => 0x3,
            ErrorCode::SettingsTimeout => 0x4,
            ErrorCode::StreamClosed => 0x5,
            ErrorCode::FrameSizeError => 0x6,
            ErrorCode::RefusedStream => 0x7,
            ErrorCode::Cancel => 0x8,
            ErrorCode::CompressionError => 0x9,
            ErrorCode::ConnectError => 0xa,
            ErrorCode::EnhanceYourCalm => 0xb,
            ErrorCode::InadequateSecurity => 0xc,
            ErrorCode::Http11Required => 0xd,
        }
    }

    pub fn from_u32(v: u32) -> (r: Self)
        ensures
            r == code_of_value(v),
    {
        match v {
            0x0 => ErrorCode::NoError,
            0x1 => ErrorCode::ProtocolError,
            0x2 => ErrorCode::InternalError,
            0x3 => ErrorCode::FlowControlError,
            0x4 => ErrorCode::SettingsTimeout,
            0x5 => ErrorCode::StreamClosed,
            0x6 => ErrorCode::FrameSizeError,
            0x7 => ErrorCode::RefusedStream,
            0x8 => ErrorCode::Cancel,
            0x9 => ErrorCode::CompressionError,
            0xa => ErrorCode::ConnectError,
            0xb => ErrorCode::EnhanceYourCalm,
            0xc => ErrorCode::InadequateSecurity,
            0xd => ErrorCode::Http11Required,
            _ => ErrorCode::InternalError,
        }
    }
}

/// Reading back the number of any code gives that code.
pub proof fn lemma_code_value_round_trip(c: ErrorCode)
    ensures
        code_of_value(code_value(c)) == c,
{
}

/// Every number up to 0xd stands for a code that is written as that number;
/// every other number is read as `InternalError`.
pub proof fn lemma_code_of_value_round_trip(v: u32)
    ensures
        v <= 0xd ==> code_value(code_of_value(v)) == v,
        v > 0xd ==> code_of_value(v) == ErrorCode::InternalError,
{
}

/// An error is either fatal to the whole connection, or confined to one stream.
#[derive(Debug, Clone, Copy, PartialEq, Eq, Structural)]
pub enum H2Error {
    Connection(ErrorCode),
    Stream { id: u32, code: ErrorCode },
}

impl H2Error {
    pub fn code(self) -> (r: ErrorCode)
        ensures
            r == (match self {
                H2Error::Connection(c) => c,
                H2Error::Stream { code, .. } => code,
            }),
    {
        match self {
            H2Error::Connection(c) => c,
            H2Error::Stream { code, .. } => code,
        }
    }
}

pub type H2Result<T> = Result<T, H2Error>;

/// The connection error that every HPACK decoding failure becomes.
pub open spec fn compression_failure() -> H2Error {
    H2Error::Connection(ErrorCode::CompressionError)
}

} // verus!
