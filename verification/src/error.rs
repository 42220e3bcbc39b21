//! Error types.

use crate::base94::DecodeError;
use crate::text::{decimal_text, push_decimal, push_str, text_eq};
use vstd::prelude::*;
use vstd::std_specs::cmp::PartialEqSpecImpl;
use vstd::std_specs::convert::FromSpecImpl;

verus! {

/// The kinds of transport failures that the protocol tells apart.
#[derive(Debug, Clone, Copy, PartialEq, Eq, Hash, Structural)]
pub enum IoErrorKind {
    /// The stream ended inside a message.
    UnexpectedEof,
    /// The peer reset the connection.
    ConnectionReset,
    /// The connection was aborted.
    ConnectionAborted,
    /// The peer no longer reads.
    BrokenPipe,
    /// A deadline passed.
    TimedOut,
    /// A non-blocking or time-limited call had nothing to do.
    WouldBlock,
    /// A signal interrupted the call.
    Interrupted,
    /// The bytes that arrived make no sense.
    InvalidData,
    /// Any other failure.
    Other,
}

/// A transport failure: its kind and its text.
#[derive(Debug)]
pub struct IoError {
    /// What kind of failure it was.
    pub kind: IoErrorKind,
    /// The failure in words.
    pub message: String,
}

impl IoError {
    /// A failure of the given kind.
    pub fn new(kind: IoErrorKind, message: &str) -> (r: IoError)
        ensures
            r.kind == kind,
            r.message@ == message@,
    {
        let mut text: String = String::new();
        push_str(&mut text, message);
        assert(text@ =~= message@);
        IoError { kind, message: text }
    }
}

/// Errors produced by the protocol stack.
#[derive(Debug)]
pub enum Error {
    /// Underlying transport I/O failure (connection reset, end of stream,
    /// timeout, ...).
    Io(IoError),
    /// A frame header or body failed structural validation.
    InvalidFrame,
    /// A base94 payload holds characters outside the printable alphabet or a
    /// truncated or overflowing escape sequence.
    InvalidBase94,
    /// First-frame extended checksum mismatch: the stream is corrupted or
    /// tampered with, or the peer uses a different `kf`.
    ChecksumMismatch,
    /// A handshake session-id packet failed to parse.
    InvalidSessionId,
    /// The handshake sequence failed; the text describes the stage.
    HandshakeFailed(&'static str),
    /// The obfuscation-flag canary of the peer does not match the local
    /// configuration.
    FlagsMismatch,
    /// A decoded frame length exceeds the protocol ceiling.
    FrameTooLarge {
        /// Offending decoded length.
        len: usize,
    },
    /// Zero-length payloads cannot be framed.
    ZeroLength,
    /// The configuration breaks an invariant; the text names the field.
    InvalidConfig(&'static str),
}

impl Error {
    /// Whether the stream ended inside a message.
    pub open spec fn eof(self) -> bool {
        self matches Error::Io(e) && e.kind == IoErrorKind::UnexpectedEof
    }

    /// The error in words.
    pub open spec fn text(self) -> Seq<char> {
        match self {
            Error::Io(e) => "io error: "@ + e.message@,
            Error::InvalidFrame => "invalid frame"@,
            Error::InvalidBase94 => "invalid base94 data"@,
            Error::ChecksumMismatch => "first-frame checksum mismatch"@,
            Error::InvalidSessionId => "invalid session id"@,
            Error::HandshakeFailed(why) => "handshake failed: "@ + why@,
            Error::FlagsMismatch => "obfuscation flags mismatch between client and server"@,
            Error::FrameTooLarge { len } => "frame too large: "@ + decimal_text(len as nat),
            Error::ZeroLength => "zero-length payload rejected"@,
            Error::InvalidConfig(why) => "invalid configuration: "@ + why@,
        }
    }

    /// Returns `true` when the error is caused by the transport being closed
    /// (useful for clean shutdown detection in read loops).
    pub fn is_eof(&self) -> (r: bool)
        ensures
            r == self.eof(),
    {
        match self {
            Error::Io(e) => e.kind == IoErrorKind::UnexpectedEof,
            _ => false,
        }
    }

    /// The error in words.
    pub fn message(&self) -> (r: String)
        ensures
            r@ == self.text(),
    {
        let mut out: String = String::new();
        match self {
            Error::Io(e) => {
                push_str(&mut out, "io error: ");
                push_str(&mut out, e.message.as_str());
            },
            Error::InvalidFrame => push_str(&mut out, "invalid frame"),
            Error::InvalidBase94 => push_str(&mut out, "invalid base94 data"),
            Error::ChecksumMismatch => push_str(&mut out, "first-frame checksum mismatch"),
            Error::InvalidSessionId => push_str(&mut out, "invalid session id"),
            Error::HandshakeFailed(why) => {
                push_str(&mut out, "handshake failed: ");
                push_str(&mut out, why);
            },
            Error::FlagsMismatch => push_str(
                &mut out,
                "obfuscation flags mismatch between client and server",
            ),
            Error::FrameTooLarge { len } => {
                push_str(&mut out, "frame too large: ");
                push_decimal(&mut out, *len as u128);
            },
            Error::ZeroLength => push_str(&mut out, "zero-length payload rejected"),
            Error::InvalidConfig(why) => {
                push_str(&mut out, "invalid configuration: ");
                push_str(&mut out, why);
            },
        }
        assert(out@ =~= self.text());
        out
    }
}

/// Two errors are equal when they are of one variant with equal contents;
/// transport failures are compared by kind alone.
impl PartialEq for Error {
    fn eq(&self, other: &Self) -> (r: bool) {
        match (self, other) {
            (Error::Io(a), Error::Io(b)) => a.kind == b.kind,
            (Error::InvalidFrame, Error::InvalidFrame) => true,
            (Error::InvalidBase94, Error::InvalidBase94) => true,
            (Error::ChecksumMismatch, Error::ChecksumMismatch) => true,
            (Error::InvalidSessionId, Error::InvalidSessionId) => true,
            (Error::FlagsMismatch, Error::FlagsMismatch) => true,
            (Error::ZeroLength, Error::ZeroLength) => true,
            (Error::HandshakeFailed(a), Error::HandshakeFailed(b)) => text_eq(a, b),
            (Error::InvalidConfig(a), Error::InvalidConfig(b)) => text_eq(a, b),
            (Error::FrameTooLarge { len: a }, Error::FrameTooLarge { len: b }) => *a == *b,
            _ => false,
        }
    }
}

impl PartialEqSpecImpl for Error {
    open spec fn obeys_eq_spec() -> bool {
        true
    }

    open spec fn eq_spec(&self, other: &Self) -> bool {
        match (self, other) {
            (Error::Io(a), Error::Io(b)) => a.kind == b.kind,
            (Error::InvalidFrame, Error::InvalidFrame) => true,
            (Error::InvalidBase94, Error::InvalidBase94) => true,
            (Error::ChecksumMismatch, Error::ChecksumMismatch) => true,
            (Error::InvalidSessionId, Error::InvalidSessionId) => true,
            (Error::FlagsMismatch, Error::FlagsMismatch) => true,
            (Error::ZeroLength, Error::ZeroLength) => true,
            (Error::HandshakeFailed(a), Error::HandshakeFailed(b)) => a@ == b@,
            (Error::InvalidConfig(a), Error::InvalidConfig(b)) => a@ == b@,
            (Error::FrameTooLarge { len: a }, Error::FrameTooLarge { len: b }) => *a == *b,
            _ => false,
        }
    }
}

impl Eq for Error {

}

/// Undecodable base94 text inside a frame.
impl From<DecodeError> for Error {
    fn from(e: DecodeError) -> (r: Error) {
        Error::InvalidBase94
    }
}

impl FromSpecImpl<DecodeError> for Error {
    open spec fn obeys_from_spec() -> bool {
        true
    }

    open spec fn from_spec(e: DecodeError) -> Error {
        Error::InvalidBase94
    }
}

/// The errors in words.
pub proof fn law_error_texts(io: IoError, why: &'static str, len: usize)
    ensures
        Error::Io(io).text() == "io error: "@ + io.message@,
        Error::InvalidFrame.text() == "invalid frame"@,
        Error::InvalidBase94.text() == "invalid base94 data"@,
        Error::ChecksumMismatch.text() == "first-frame checksum mismatch"@,
        Error::InvalidSessionId.text() == "invalid session id"@,
        Error::HandshakeFailed(why).text() == "handshake failed: "@ + why@,
        Error::FlagsMismatch.text() == "obfuscation flags mismatch between client and server"@,
        (Error::FrameTooLarge { len }).text() == "frame too large: "@ + decimal_text(len as nat),
        Error::ZeroLength.text() == "zero-length payload rejected"@,
        Error::InvalidConfig(why).text() == "invalid configuration: "@ + why@,
        Error::Io(io).eof() <==> io.kind == IoErrorKind::UnexpectedEof,
        !Error::InvalidFrame.eof() && !Error::ChecksumMismatch.eof() && !Error::ZeroLength.eof(),
{
}

} // verus!
