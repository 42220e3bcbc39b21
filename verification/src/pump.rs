//! Decisions of the bidirectional pumps between a local peer and a tunnel.
//!
//! Data travels in `FRAME_DATA` frames and half-closes as `FRAME_EOF`. Each
//! direction classifies how it ended (graceful half-close, routine teardown,
//! fault), so that callers can log a teardown at the right level.

use crate::error::{Error, IoError, IoErrorKind};
use crate::fmt::{bytes_text, duration_text, fmt_bytes, fmt_duration};
use crate::proto::{FRAME_DATA, FRAME_EOF};
use crate::text::{hex_text, push_hex, push_str, text_eq};
use vstd::prelude::*;

verus! {

/// How one pump direction terminated.
#[derive(Debug, Clone, PartialEq, Eq)]
pub enum PumpEnd {
    /// Graceful in-band half-close (`FRAME_EOF` sent or received): the other
    /// direction may still be active, so the session stays up.
    Eof(&'static str),
    /// Routine transport teardown; the short cause feeds the log.
    Closed(&'static str),
    /// Protocol violation or unexpected I/O failure; worth a warning.
    Fault(String),
}

/// The kinds of routine transport teardown with their log causes; none for a
/// failure that is worth a warning.
pub open spec fn routine(kind: IoErrorKind) -> Option<&'static str> {
    match kind {
        IoErrorKind::ConnectionReset => Some("connection reset"),
        IoErrorKind::ConnectionAborted => Some("connection aborted"),
        IoErrorKind::BrokenPipe => Some("broken pipe"),
        IoErrorKind::UnexpectedEof => Some("eof"),
        IoErrorKind::TimedOut => Some("timeout"),
        IoErrorKind::WouldBlock => Some("timeout"),
        IoErrorKind::Interrupted => Some("interrupted"),
        _ => None,
    }
}

/// The log cause of a routine teardown; none for a failure that is worth a
/// warning.
pub fn routine_cause(kind: IoErrorKind) -> (r: Option<&'static str>)
    ensures
        r == routine(kind),
{
    match kind {
        IoErrorKind::ConnectionReset => Some("connection reset"),
        IoErrorKind::ConnectionAborted => Some("connection aborted"),
        IoErrorKind::BrokenPipe => Some("broken pipe"),
        IoErrorKind::UnexpectedEof => Some("eof"),
        IoErrorKind::TimedOut => Some("timeout"),
        IoErrorKind::WouldBlock => Some("timeout"),
        IoErrorKind::Interrupted => Some("interrupted"),
        _ => None,
    }
}

/// Which transport failures are routine, and how they are called: all but bad
/// bytes and failures of no known kind. A tunnel error is routine where it is a
/// routine transport failure or a failed handshake.
pub proof fn law_routine_failures(kind: IoErrorKind, e: Error)
    ensures
        routine(kind) is None <==> kind == IoErrorKind::InvalidData || kind == IoErrorKind::Other,
        routine(IoErrorKind::ConnectionReset) == Some("connection reset"),
        routine(IoErrorKind::ConnectionAborted) == Some("connection aborted"),
        routine(IoErrorKind::BrokenPipe) == Some("broken pipe"),
        routine(IoErrorKind::UnexpectedEof) == Some("eof"),
        routine(IoErrorKind::TimedOut) == Some("timeout"),
        routine(IoErrorKind::WouldBlock) == Some("timeout"),
        routine(IoErrorKind::Interrupted) == Some("interrupted"),
        e matches Error::Io(f) ==> (routine_core(e) <==> f.kind != IoErrorKind::InvalidData && f.kind
            != IoErrorKind::Other),
        !(e is Io) ==> (routine_core(e) <==> e is HandshakeFailed),
        harmless(Cause::Core(e)) == routine_core(e),
        harmless(Cause::Io(kind)) == (routine(kind) is Some),
        harmless(Cause::Other),
        recognized(Cause::Core(e)) && recognized(Cause::Io(kind)) && !recognized(Cause::Other),
{
}

/// Whether an I/O error is routine connection teardown (peer reset, half-close,
/// timeout) rather than a fault.
pub fn is_routine_io(kind: IoErrorKind) -> (r: bool)
    ensures
        r == (routine(kind) is Some),
{
    routine_cause(kind).is_some()
}

/// Whether a tunnel error is a routine close: routine I/O teardown, or a
/// handshake failure (probes and timeouts land there). Everything else is a
/// protocol violation.
pub open spec fn routine_core(err: Error) -> bool {
    match err {
        Error::Io(e) => routine(e.kind) is Some,
        Error::HandshakeFailed(why) => true,
        _ => false,
    }
}

/// Whether a tunnel error is a routine close.
pub fn is_routine_core(err: &Error) -> (r: bool)
    ensures
        r == routine_core(*err),
        err.eof() ==> r,
{
    match err {
        Error::Io(e) => is_routine_io(e.kind),
        Error::HandshakeFailed(why) => true,
        _ => false,
    }
}

/// One link in the chain of causes of a failure.
#[derive(Debug)]
pub enum Cause {
    /// A transport failure.
    Io(IoErrorKind),
    /// A tunnel error.
    Core(Error),
    /// Anything else, such as a note on what was being done.
    Other,
}

/// Whether a cause says anything of the failure.
pub open spec fn recognized(c: Cause) -> bool {
    !(c is Other)
}

/// Whether a cause is no more than a routine close.
pub open spec fn harmless(c: Cause) -> bool {
    match c {
        Cause::Io(kind) => routine(kind) is Some,
        Cause::Core(e) => routine_core(e),
        Cause::Other => true,
    }
}

/// Whether a failure is a routine close: every recognized cause is, and there
/// is at least one.
pub fn is_clean_close(chain: &[Cause]) -> (r: bool)
    ensures
        r == ((exists|i: int| 0 <= i < chain@.len() && recognized(#[trigger] chain@[i])) && (forall|
            i: int,
        |
            0 <= i < chain@.len() ==> harmless(#[trigger] chain@[i]))),
{
    let mut seen: bool = false;
    let mut i: usize = 0;
    while i < chain.len()
        invariant
            i <= chain@.len(),
            seen == (exists|j: int| 0 <= j < i && recognized(#[trigger] chain@[j])),
            forall|j: int| 0 <= j < i ==> harmless(#[trigger] chain@[j]),
        decreases chain@.len() - i,
    {
        let ok: bool = match &chain[i] {
            Cause::Io(kind) => {
                seen = true;
                is_routine_io(*kind)
            },
            Cause::Core(e) => {
                seen = true;
                is_routine_core(e)
            },
            Cause::Other => true,
        };
        if !ok {
            assert(!harmless(chain@[i as int]));
            return false;
        }
        proof {
            if recognized(chain@[i as int]) {
                assert(exists|j: int| 0 <= j < i + 1 && recognized(#[trigger] chain@[j]));
            }
        }
        i += 1;
    }
    seen
}

/// Classifies a local (non-tunnel) I/O error.
pub fn classify_io(err: &IoError) -> (r: PumpEnd)
    ensures
        match routine(err.kind) {
            Some(cause) => r == PumpEnd::Closed(cause),
            None => r matches PumpEnd::Fault(e) && e@ == err.message@,
        },
{
    match routine_cause(err.kind) {
        Some(cause) => PumpEnd::Closed(cause),
        None => PumpEnd::Fault(err.message.clone()),
    }
}

/// Classifies a tunnel error: every error but a transport failure is a fault.
pub fn classify_core(err: &Error) -> (r: PumpEnd)
    ensures
        match err {
            Error::Io(e) => match routine(e.kind) {
                Some(cause) => r == PumpEnd::Closed(cause),
                None => r matches PumpEnd::Fault(t) && t@ == e.message@,
            },
            _ => r matches PumpEnd::Fault(t) && t@ == err.text(),
        },
{
    match err {
        Error::Io(e) => classify_io(e),
        _ => PumpEnd::Fault(err.message()),
    }
}

/// Whether accepting a connection failed for want of resources, so that the
/// accept loop should pause. `errno` is the error number of the system: the
/// Unix numbers for no descriptors or memory, or the Windows one for no
/// buffers.
pub fn accept_exhausted(unix: bool, windows: bool, errno: Option<i32>) -> (r: bool)
    ensures
        r == match errno {
            Some(n) => (unix && (n == 23 || n == 24 || n == 12)) || (!unix && windows && n
                == 10055),
            None => false,
        },
{
    match errno {
        Some(n) => if unix {
            n == 23 || n == 24 || n == 12
        } else {
            windows && n == 10055
        },
        None => false,
    }
}

// ---------------------------------------------------------------------------
// Connecting
// ---------------------------------------------------------------------------

/// What to do next while connecting to the addresses of a host.
#[derive(Debug, Clone, Copy, PartialEq, Eq, Structural)]
pub enum ConnectStep {
    /// Try the address at this index.
    Try(usize),
    /// The overall deadline has passed.
    DeadlineExceeded,
    /// Every address has failed: report the last failure.
    GiveUp,
}

/// The next step of connecting to one of `count` addresses, in order, under one
/// deadline for all: `next` of them have failed so far.
pub fn connect_step(count: usize, next: usize, time_left: bool) -> (r: ConnectStep)
    ensures
        r == if next >= count {
            ConnectStep::GiveUp
        } else if !time_left {
            ConnectStep::DeadlineExceeded
        } else {
            ConnectStep::Try(next)
        },
{
    if next >= count {
        ConnectStep::GiveUp
    } else if !time_left {
        ConnectStep::DeadlineExceeded
    } else {
        ConnectStep::Try(next)
    }
}

// ---------------------------------------------------------------------------
// Pumping
// ---------------------------------------------------------------------------

/// What to do after reading from the local peer.
#[derive(Debug, Clone, Copy, PartialEq, Eq, Structural)]
pub enum UpStep {
    /// The peer has half-closed: send `FRAME_EOF` and end.
    SendEof,
    /// Send what was read in a `FRAME_DATA` frame.
    SendData,
    /// Read again.
    Retry,
    /// The read failed: classify the failure and end.
    Close,
}

/// What to do after reading from the local peer: `read` is the number of bytes,
/// or the kind of failure.
pub fn up_step(read: Result<usize, IoErrorKind>) -> (r: UpStep)
    ensures
        r == match read {
            Ok(n) => if n == 0 {
                UpStep::SendEof
            } else {
                UpStep::SendData
            },
            Err(kind) => if kind == IoErrorKind::Interrupted {
                UpStep::Retry
            } else {
                UpStep::Close
            },
        },
{
    match read {
        Ok(n) => if n == 0 {
            UpStep::SendEof
        } else {
            UpStep::SendData
        },
        Err(kind) => if kind == IoErrorKind::Interrupted {
            UpStep::Retry
        } else {
            UpStep::Close
        },
    }
}

/// What to do about a message from the tunnel.
#[derive(Debug, Clone, PartialEq, Eq)]
pub enum DownStep {
    /// Write everything behind the first byte to the local peer.
    Deliver,
    /// Half-close the local peer and end.
    HalfClose,
    /// Protocol violation: end with this fault.
    Fault(String),
}

/// What to do about a message from the tunnel. Messages are never empty.
pub fn down_step(msg: &[u8]) -> (r: DownStep)
    requires
        msg@.len() > 0,
    ensures
        msg@[0] == FRAME_DATA && msg@.len() > 1 ==> r == DownStep::Deliver,
        msg@[0] == FRAME_DATA && msg@.len() == 1 ==> (r matches DownStep::Fault(e) && e@
            == "empty data frame"@),
        msg@[0] == FRAME_EOF ==> r == DownStep::HalfClose,
        msg@[0] != FRAME_DATA && msg@[0] != FRAME_EOF ==> (r matches DownStep::Fault(e) && e@
            == "unknown frame kind "@ + hex_text(msg@[0])),
{
    if msg[0] == FRAME_EOF {
        return DownStep::HalfClose;
    }
    let mut text: String = String::new();
    if msg[0] == FRAME_DATA {
        if msg.len() > 1 {
            return DownStep::Deliver;
        }
        push_str(&mut text, "empty data frame");
        assert(text@ =~= "empty data frame"@);
        return DownStep::Fault(text);
    }
    push_str(&mut text, "unknown frame kind ");
    push_hex(&mut text, msg[0]);
    assert(text@ =~= "unknown frame kind "@ + hex_text(msg@[0]));
    DownStep::Fault(text)
}

impl PumpEnd {
    /// The cause in words.
    pub open spec fn why(self) -> Seq<char> {
        match self {
            PumpEnd::Eof(why) => why@,
            PumpEnd::Closed(why) => why@,
            PumpEnd::Fault(e) => e@,
        }
    }

    /// Short cause string for logs.
    pub fn cause(&self) -> (r: &str)
        ensures
            r@ == self.why(),
    {
        match self {
            PumpEnd::Eof(why) => why,
            PumpEnd::Closed(why) => why,
            PumpEnd::Fault(e) => e.as_str(),
        }
    }

    /// Whether this end needs a warning rather than an info line.
    pub fn is_fault(&self) -> (r: bool)
        ensures
            r == (self is Fault),
    {
        match self {
            PumpEnd::Fault(e) => true,
            _ => false,
        }
    }

    /// Whether this end kills the whole session: after anything but a graceful
    /// half-close the other direction can make no progress and must be woken.
    pub fn kills_session(&self) -> (r: bool)
        ensures
            r == !(self is Eof),
    {
        match self {
            PumpEnd::Eof(why) => false,
            _ => true,
        }
    }
}

/// Outcome of pumping one connection end to end.
#[derive(Debug)]
pub struct PumpStats {
    /// Bytes pumped local to tunnel.
    pub up: u64,
    /// Bytes pumped tunnel to local.
    pub down: u64,
    /// How the up direction ended.
    pub up_end: PumpEnd,
    /// How the down direction ended.
    pub down_end: PumpEnd,
}

impl PumpStats {
    /// The first fault-level termination, if any (for warning logs).
    pub fn fault(&self) -> (r: Option<&str>)
        ensures
            match (self.up_end, self.down_end) {
                (PumpEnd::Fault(e), _) => r matches Some(t) && t@ == e@,
                (_, PumpEnd::Fault(e)) => r matches Some(t) && t@ == e@,
                _ => r is None,
            },
    {
        match &self.up_end {
            PumpEnd::Fault(e) => return Some(e.as_str()),
            _ => {},
        }
        match &self.down_end {
            PumpEnd::Fault(e) => Some(e.as_str()),
            _ => None,
        }
    }

    /// A short human-readable cause list for close logs.
    pub fn end_causes(&self) -> (r: String)
        ensures
            r@ == self.causes(),
    {
        let up: &str = self.up_end.cause();
        let down: &str = self.down_end.cause();
        let mut out: String = String::new();
        if text_eq(up, down) {
            push_str(&mut out, up);
            assert(out@ =~= up@);
        } else {
            push_str(&mut out, "up: ");
            push_str(&mut out, up);
            push_str(&mut out, ", down: ");
            push_str(&mut out, down);
            assert(out@ =~= "up: "@ + up@ + ", down: "@ + down@);
        }
        out
    }

    /// The causes of both ends: one where they agree.
    pub open spec fn causes(self) -> Seq<char> {
        if self.up_end.why() == self.down_end.why() {
            self.up_end.why()
        } else {
            "up: "@ + self.up_end.why() + ", down: "@ + self.down_end.why()
        }
    }

    /// The totals of a connection that lasted `secs` seconds, for its close
    /// log.
    pub fn summary(&self, secs: u64) -> (r: String)
        ensures
            r@ == "up "@ + bytes_text(self.up as nat) + " down "@ + bytes_text(self.down as nat)
                + " in "@ + duration_text(secs as nat) + " ("@ + self.causes() + ")"@,
    {
        let up: String = fmt_bytes(self.up);
        let down: String = fmt_bytes(self.down);
        let lasted: String = fmt_duration(secs);
        let causes: String = self.end_causes();
        let mut out: String = String::new();
        push_str(&mut out, "up ");
        push_str(&mut out, up.as_str());
        push_str(&mut out, " down ");
        push_str(&mut out, down.as_str());
        push_str(&mut out, " in ");
        push_str(&mut out, lasted.as_str());
        push_str(&mut out, " (");
        push_str(&mut out, causes.as_str());
        push_str(&mut out, ")");
        assert(out@ =~= "up "@ + up@ + " down "@ + down@ + " in "@ + lasted@ + " ("@ + causes@
            + ")"@);
        out
    }
}

/// The causes of a closed connection: one text where both directions ended
/// alike, else both, the upward one first.
pub proof fn law_close_causes(s: PumpStats)
    ensures
        s.up_end.why() == s.down_end.why() ==> s.causes() == s.up_end.why(),
        s.up_end.why() != s.down_end.why() ==> s.causes() == "up: "@ + s.up_end.why()
            + ", down: "@ + s.down_end.why(),
        s.up_end matches PumpEnd::Eof(t) ==> s.up_end.why() == t@,
        s.up_end matches PumpEnd::Closed(t) ==> s.up_end.why() == t@,
        s.up_end matches PumpEnd::Fault(t) ==> s.up_end.why() == t@,
{
}

} // verus!
