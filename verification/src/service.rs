//! Decisions of the serving programs: session ids, connection limits, draining,
//! close levels and the desktop proxy bypass list.

use crate::addr::{AddrModel, ProxyAddr};
use crate::error::{Error, IoErrorKind};
use crate::proto::{STATUS_OK, STATUS_REFUSED};
use crate::pump::{Cause, PumpStats};
use crate::rng::{draw_any_u64, system_rng};
use crate::text::push_str;
use crate::SessionId;
use rand::rngs::StdRng;
use vstd::prelude::*;

verus! {

/// How long a draining program waits for active sessions to finish, in
/// seconds.
pub const DRAIN_TIMEOUT_SECS: u64 = 10;

/// The session id of the `count`-th connection of a server: the random base
/// plus the counter, never zero.
pub open spec fn nth_session(base: u64, count: u64) -> SessionId {
    if base == 0 && count == 0 {
        1
    } else {
        (base + count) as u128
    }
}

/// The session id of the `count`-th connection of a server.
pub fn session_id_for(base: u64, count: u64) -> (r: SessionId)
    ensures
        r == nth_session(base, count),
        r != 0,
{
    let sid: u128 = base as u128 + count as u128;
    if sid == 0 {
        1
    } else {
        sid
    }
}

/// The base that the ids of a server start from, for a random number: any but
/// zero, from which the first two ids would be the same.
pub fn session_base(drawn: u64) -> (r: u64)
    ensures
        r == if drawn == 0 {
            1
        } else {
            drawn
        },
        r != 0,
{
    if drawn == 0 {
        1
    } else {
        drawn
    }
}

/// The connections of a server have different session ids, as long as its
/// base is not zero.
pub proof fn law_session_ids_distinct(base: u64, a: u64, b: u64)
    requires
        base != 0,
        a != b,
    ensures
        nth_session(base, a) != nth_session(base, b),
{
}

/// The ids of a server count up from its base.
pub proof fn law_session_ids_count_up(base: u64, count: u64)
    requires
        base != 0,
    ensures
        nth_session(base, 0) == base,
        nth_session(base, count) == base + count,
        count < u64::MAX ==> nth_session(base, (count + 1) as u64) == nth_session(base, count) + 1,
{
}

/// The session ids of a server, one for each connection.
#[derive(Debug)]
pub struct SessionIds {
    base: u64,
    count: u64,
}

impl SessionIds {
    /// The base.
    pub closed spec fn base(&self) -> u64 {
        self.base
    }

    /// How many ids have been given, modulo `2^64`.
    pub closed spec fn given(&self) -> u64 {
        self.count
    }

    /// Ids from a random base, which may be any but zero, so that no two of them
    /// are the same; none where the system has no entropy to give.
    pub fn new() -> (r: Option<SessionIds>)
        ensures
            r matches Some(ids) ==> ids.given() == 0 && ids.base() != 0,
    {
        match system_rng() {
            Some(rng) => {
                let mut rng: StdRng = rng;
                Some(Self::starting_at(session_base(draw_any_u64(&mut rng))))
            },
            None => None,
        }
    }

    /// Ids from a given base.
    pub fn starting_at(base: u64) -> (r: SessionIds)
        ensures
            r.base() == base,
            r.given() == 0,
    {
        SessionIds { base, count: 0 }
    }

    /// The id of the next connection, never zero.
    pub fn next_id(&mut self) -> (r: SessionId)
        ensures
            r == nth_session(old(self).base(), old(self).given()),
            r != 0,
            final(self).base() == old(self).base(),
            final(self).given() == (old(self).given() + 1) % 0x1_0000_0000_0000_0000,
    {
        let sid: SessionId = session_id_for(self.base, self.count);
        self.count = self.count.wrapping_add(1);
        sid
    }
}

/// Whether another connection may be served.
pub fn admits(active: u64, max: Option<u64>) -> (r: bool)
    ensures
        r == match max {
            Some(m) => active < m,
            None => true,
        },
{
    match max {
        Some(m) => active < m,
        None => true,
    }
}

/// What a draining program does next.
#[derive(Debug, Clone, Copy, PartialEq, Eq, Structural)]
pub enum DrainStep {
    /// Every session has finished.
    Complete,
    /// Time is up with sessions still active.
    TimedOut,
    /// Look again later.
    Wait,
}

/// What a draining program does next.
pub fn drain_step(active: u64, deadline_passed: bool) -> (r: DrainStep)
    ensures
        r == if active == 0 {
            DrainStep::Complete
        } else if deadline_passed {
            DrainStep::TimedOut
        } else {
            DrainStep::Wait
        },
{
    if active == 0 {
        DrainStep::Complete
    } else if deadline_passed {
        DrainStep::TimedOut
    } else {
        DrainStep::Wait
    }
}

/// The bytes of a connect response.
pub open spec fn status_bytes(connected: bool) -> Seq<u8> {
    seq![if connected { STATUS_OK } else { STATUS_REFUSED }]
}

/// The answer of a server to a connect request.
pub fn connect_reply(connected: bool) -> (r: [u8; 1])
    ensures
        r@ == status_bytes(connected),
{
    let out: [u8; 1] = [if connected { STATUS_OK } else { STATUS_REFUSED }];
    assert(out@ =~= status_bytes(connected));
    out
}

/// Whether a server takes one cause of a failed request for a routine close.
pub open spec fn expected_cause(c: Cause) -> bool {
    match c {
        Cause::Io(kind) => kind == IoErrorKind::UnexpectedEof || kind
            == IoErrorKind::ConnectionReset || kind == IoErrorKind::ConnectionAborted || kind
            == IoErrorKind::BrokenPipe || kind == IoErrorKind::TimedOut || kind
            == IoErrorKind::WouldBlock,
        Cause::Core(e) => e is Io || e is HandshakeFailed,
        Cause::Other => true,
    }
}

/// Whether a server takes a failure before the request for a routine close:
/// none of its causes says otherwise.
pub fn closed_before_request(chain: &[Cause]) -> (r: bool)
    ensures
        r == (forall|i: int| 0 <= i < chain@.len() ==> expected_cause(#[trigger] chain@[i])),
{
    let mut i: usize = 0;
    while i < chain.len()
        invariant
            i <= chain@.len(),
            forall|j: int| 0 <= j < i ==> expected_cause(#[trigger] chain@[j]),
        decreases chain@.len() - i,
    {
        let ok: bool = match &chain[i] {
            Cause::Io(kind) => match kind {
                IoErrorKind::UnexpectedEof => true,
                IoErrorKind::ConnectionReset => true,
                IoErrorKind::ConnectionAborted => true,
                IoErrorKind::BrokenPipe => true,
                IoErrorKind::TimedOut => true,
                IoErrorKind::WouldBlock => true,
                _ => false,
            },
            Cause::Core(e) => match e {
                Error::Io(f) => true,
                Error::HandshakeFailed(why) => true,
                _ => false,
            },
            Cause::Other => true,
        };
        if !ok {
            assert(!expected_cause(chain@[i as int]));
            return false;
        }
        i += 1;
    }
    true
}

/// Where a server connection stands: what its last action waits for.
#[derive(Debug, Clone, Copy, PartialEq, Eq, Structural)]
pub enum ServerState {
    /// The handshake runs.
    Handshaking,
    /// The connect request is being read.
    AwaitingRequest,
    /// The target is being connected.
    Connecting,
    /// The connect response is being sent, for a target that was connected or
    /// not.
    Replying(bool),
    /// Bytes are pumped both ways.
    Pumping,
    /// The connection has ended.
    Ended,
}

/// What happened on a server connection.
pub enum ServerEvent<'a> {
    /// The handshake is complete.
    HandshakeDone,
    /// The handshake failed: a probe, wrong secrets or a timeout.
    HandshakeFailed,
    /// The connect request has arrived.
    RequestRead(&'a [u8]),
    /// The connect request could not be read, for these causes.
    RequestFailed(&'a [Cause]),
    /// The target was connected, or not.
    TargetTried(bool),
    /// The connect response was sent.
    ReplySent,
    /// The connect response could not be sent.
    ReplyFailed,
}

/// An event on a server connection, as the contracts speak of it.
pub enum EventModel {
    /// The handshake is complete.
    HandshakeDone,
    /// The handshake failed.
    HandshakeFailed,
    /// The connect request has arrived.
    RequestRead(Seq<u8>),
    /// The connect request could not be read, for these causes.
    RequestFailed(Seq<Cause>),
    /// The target was connected, or not.
    TargetTried(bool),
    /// The connect response was sent.
    ReplySent,
    /// The connect response could not be sent.
    ReplyFailed,
}

impl<'a> View for ServerEvent<'a> {
    type V = EventModel;

    open spec fn view(&self) -> EventModel {
        match self {
            ServerEvent::HandshakeDone => EventModel::HandshakeDone,
            ServerEvent::HandshakeFailed => EventModel::HandshakeFailed,
            ServerEvent::RequestRead(msg) => EventModel::RequestRead(msg@),
            ServerEvent::RequestFailed(chain) => EventModel::RequestFailed(chain@),
            ServerEvent::TargetTried(connected) => EventModel::TargetTried(*connected),
            ServerEvent::ReplySent => EventModel::ReplySent,
            ServerEvent::ReplyFailed => EventModel::ReplyFailed,
        }
    }
}

/// At which level a server logs the failure of a connection.
#[derive(Debug, Clone, Copy, PartialEq, Eq, Structural)]
pub enum CloseLevel {
    /// Routine detail.
    Debug,
    /// Worth a warning.
    Warn,
}

/// What a server does next on a connection.
pub enum ServerAction {
    /// Read the connect request.
    ReadRequest,
    /// Connect to the target.
    Connect(ProxyAddr),
    /// Send the connect response.
    Reply([u8; 1]),
    /// Pump bytes both ways.
    Pump,
    /// Close the connection in order.
    Finish,
    /// Close the connection with the error that came up.
    Fail(CloseLevel),
}

/// An action on a server connection, as the contracts speak of it.
pub enum ActionModel {
    /// Read the connect request.
    ReadRequest,
    /// Connect to the target.
    Connect(AddrModel),
    /// Send the connect response.
    Reply(Seq<u8>),
    /// Pump bytes both ways.
    Pump,
    /// Close the connection in order.
    Finish,
    /// Close the connection with the error that came up.
    Fail(CloseLevel),
}

impl View for ServerAction {
    type V = ActionModel;

    open spec fn view(&self) -> ActionModel {
        match self {
            ServerAction::ReadRequest => ActionModel::ReadRequest,
            ServerAction::Connect(a) => ActionModel::Connect(a@),
            ServerAction::Reply(bytes) => ActionModel::Reply(bytes@),
            ServerAction::Pump => ActionModel::Pump,
            ServerAction::Finish => ActionModel::Finish,
            ServerAction::Fail(level) => ActionModel::Fail(*level),
        }
    }
}

/// The level of a failure to read the connect request.
pub open spec fn request_failure_level(chain: Seq<Cause>) -> CloseLevel {
    if forall|i: int| 0 <= i < chain.len() ==> expected_cause(#[trigger] chain[i]) {
        CloseLevel::Debug
    } else {
        CloseLevel::Warn
    }
}

/// What a server does about an event, and where the connection stands then.
/// Bytes are pumped once a positive response is out; behind a refusal, sent or
/// not, the connection closes in order. An event out of place ends the
/// connection.
pub open spec fn server_next(state: ServerState, event: EventModel) -> (ServerState, ActionModel) {
    let failed: (ServerState, ActionModel) = (
        ServerState::Ended,
        ActionModel::Fail(CloseLevel::Warn),
    );
    match (state, event) {
        (ServerState::Handshaking, EventModel::HandshakeDone) => (
            ServerState::AwaitingRequest,
            ActionModel::ReadRequest,
        ),
        (ServerState::AwaitingRequest, EventModel::RequestRead(msg)) => match AddrModel::parsed(
            msg,
        ) {
            Some(a) => (ServerState::Connecting, ActionModel::Connect(a)),
            None => failed,
        },
        (ServerState::AwaitingRequest, EventModel::RequestFailed(chain)) => (
            ServerState::Ended,
            ActionModel::Fail(request_failure_level(chain)),
        ),
        (ServerState::Connecting, EventModel::TargetTried(connected)) => (
            ServerState::Replying(connected),
            ActionModel::Reply(status_bytes(connected)),
        ),
        (ServerState::Replying(true), EventModel::ReplySent) => (
            ServerState::Pumping,
            ActionModel::Pump,
        ),
        (ServerState::Replying(false), EventModel::ReplySent) => (
            ServerState::Ended,
            ActionModel::Finish,
        ),
        (ServerState::Replying(false), EventModel::ReplyFailed) => (
            ServerState::Ended,
            ActionModel::Finish,
        ),
        _ => failed,
    }
}

/// The actions of a server connection on which these events happened, and where
/// it stands then.
pub open spec fn served(events: Seq<EventModel>) -> (ServerState, Seq<ActionModel>)
    decreases events.len(),
{
    if events.len() == 0 {
        (ServerState::Handshaking, Seq::empty())
    } else {
        let (state, actions) = served(events.drop_last());
        let (next, action) = server_next(state, events.last());
        (next, actions.push(action))
    }
}

/// Whatever happens on a connection, the server sends at most one response, of
/// one byte, and nothing is pumped but directly behind a positive response,
/// when the target was connected and the response was sent. Behind a refusal
/// nothing is ever pumped.
pub proof fn law_one_response_before_data(events: Seq<EventModel>)
    ensures
        ({
            let actions: Seq<ActionModel> = served(events).1;
            &&& actions.len() == events.len()
            &&& forall|i: int, j: int|
                0 <= i < actions.len() && 0 <= j < actions.len() && actions[i] is Reply
                    && actions[j] is Reply ==> i == j
            &&& forall|i: int|
                0 <= i < actions.len() && (#[trigger] actions[i]) is Reply ==> (events[i] matches
                    EventModel::TargetTried(connected) && actions[i] == ActionModel::Reply(
                    status_bytes(connected),
                ))
            &&& forall|i: int|
                0 <= i < actions.len() && (#[trigger] actions[i]) is Pump ==> i > 0 && events[i]
                    == EventModel::ReplySent && events[i - 1] == EventModel::TargetTried(true)
                    && actions[i - 1] == ActionModel::Reply(status_bytes(true))
            &&& forall|i: int, j: int|
                0 <= i < actions.len() && 0 <= j < actions.len() && #[trigger] actions[i]
                    == ActionModel::Reply(status_bytes(false)) ==> !((#[trigger] actions[j]) is Pump)
        }),
{
    lemma_served(events);
    let actions: Seq<ActionModel> = served(events).1;
    assert forall|i: int, j: int|
        0 <= i < actions.len() && 0 <= j < actions.len() && #[trigger] actions[i]
            == ActionModel::Reply(status_bytes(false)) implies !((#[trigger] actions[j]) is Pump) by {
        if actions[j] is Pump {
            assert(actions[j - 1] is Reply);
            assert(status_bytes(true)[0] != status_bytes(false)[0]);
        }
    }
}

/// What a connection has done so far, by where it stands.
proof fn lemma_served(events: Seq<EventModel>)
    ensures
        ({
            let (state, actions) = served(events);
            let n: int = actions.len() as int;
            &&& n == events.len()
            &&& state == ServerState::Handshaking || state == ServerState::AwaitingRequest || state
                == ServerState::Connecting ==> forall|i: int|
                0 <= i < n ==> !((#[trigger] actions[i]) is Reply) && !(actions[i] is Pump)
            &&& state matches ServerState::Replying(connected) ==> n > 0 && events.last()
                == EventModel::TargetTried(connected) && actions.last() == ActionModel::Reply(
                status_bytes(connected),
            ) && forall|i: int|
                0 <= i < n - 1 ==> !((#[trigger] actions[i]) is Reply) && !(actions[i] is Pump)
            &&& forall|i: int, j: int|
                0 <= i < n && 0 <= j < n && actions[i] is Reply && actions[j] is Reply ==> i == j
            &&& forall|i: int|
                0 <= i < n && (#[trigger] actions[i]) is Reply ==> (events[i] matches
                    EventModel::TargetTried(connected) && actions[i] == ActionModel::Reply(
                    status_bytes(connected),
                ))
            &&& forall|i: int|
                0 <= i < n && (#[trigger] actions[i]) is Pump ==> i > 0 && events[i]
                    == EventModel::ReplySent && events[i - 1] == EventModel::TargetTried(true)
                    && actions[i - 1] == ActionModel::Reply(status_bytes(true))
        }),
    decreases events.len(),
{
    if events.len() > 0 {
        lemma_served(events.drop_last());
    }
}

/// The whole course of a connection whose handshake succeeded. A malformed
/// request is answered with nothing and ends in an error. To a well-formed one
/// the server sends exactly one byte: a zero where the target was connected,
/// and then it pumps; a one where it was not, and then it closes in order,
/// pumping nothing.
pub proof fn law_request_is_answered(request: Seq<u8>, connected: bool)
    ensures
        AddrModel::parsed(request) is None ==> served(
            seq![EventModel::HandshakeDone, EventModel::RequestRead(request)],
        ) == (
            ServerState::Ended,
            seq![ActionModel::ReadRequest, ActionModel::Fail(CloseLevel::Warn)],
        ),
        AddrModel::parsed(request) matches Some(target) ==> served(
            seq![
                EventModel::HandshakeDone,
                EventModel::RequestRead(request),
                EventModel::TargetTried(connected),
                EventModel::ReplySent,
            ],
        ) == (
            if connected {
                ServerState::Pumping
            } else {
                ServerState::Ended
            },
            seq![
                ActionModel::ReadRequest,
                ActionModel::Connect(target),
                ActionModel::Reply(seq![if connected { 0x00u8 } else { 0x01u8 }]),
                if connected {
                    ActionModel::Pump
                } else {
                    ActionModel::Finish
                },
            ],
        ),
{
    let e1: Seq<EventModel> = seq![EventModel::HandshakeDone];
    let e2: Seq<EventModel> = e1.push(EventModel::RequestRead(request));
    let e3: Seq<EventModel> = e2.push(EventModel::TargetTried(connected));
    let e4: Seq<EventModel> = e3.push(EventModel::ReplySent);
    assert(e1.drop_last() =~= Seq::<EventModel>::empty());
    assert(e2.drop_last() =~= e1);
    assert(e3.drop_last() =~= e2);
    assert(e4.drop_last() =~= e3);
    assert(served(Seq::<EventModel>::empty()) == (
        ServerState::Handshaking,
        Seq::<ActionModel>::empty(),
    ));
    assert(served(e1) == (ServerState::AwaitingRequest, seq![ActionModel::ReadRequest])) by {
        assert(Seq::<ActionModel>::empty().push(ActionModel::ReadRequest) =~= seq![
            ActionModel::ReadRequest,
        ]);
    }
    assert(e2 =~= seq![EventModel::HandshakeDone, EventModel::RequestRead(request)]);
    assert(e4 =~= seq![
        EventModel::HandshakeDone,
        EventModel::RequestRead(request),
        EventModel::TargetTried(connected),
        EventModel::ReplySent,
    ]);
    match AddrModel::parsed(request) {
        None => {
            assert(served(e2).1 =~= seq![
                ActionModel::ReadRequest,
                ActionModel::Fail(CloseLevel::Warn),
            ]);
        },
        Some(target) => {
            assert(served(e2).0 == ServerState::Connecting);
            assert(served(e3).0 == ServerState::Replying(connected));
            assert(served(e4).1 =~= seq![
                ActionModel::ReadRequest,
                ActionModel::Connect(target),
                ActionModel::Reply(status_bytes(connected)),
                if connected {
                    ActionModel::Pump
                } else {
                    ActionModel::Finish
                },
            ]);
            assert(status_bytes(connected) =~= seq![if connected { 0x00u8 } else { 0x01u8 }]);
        },
    }
}

/// Which failures of a server connection are worth a warning: a failed
/// handshake, a request that is malformed or could not be read for any other
/// reason than that the peer went away or was too slow, and a response to a
/// connected target that could not be sent.
pub proof fn law_failure_levels(chain: Seq<Cause>, request: Seq<u8>, i: int)
    requires
        0 <= i < chain.len(),
    ensures
        server_next(ServerState::Handshaking, EventModel::HandshakeFailed).1 == ActionModel::Fail(
            CloseLevel::Warn,
        ),
        server_next(ServerState::Replying(true), EventModel::ReplyFailed).1 == ActionModel::Fail(
            CloseLevel::Warn,
        ),
        server_next(ServerState::Replying(false), EventModel::ReplyFailed).1
            == ActionModel::Finish,
        chain[i] == Cause::Io(IoErrorKind::Interrupted) || chain[i] == Cause::Io(
            IoErrorKind::InvalidData,
        ) || chain[i] == Cause::Io(IoErrorKind::Other) || (chain[i] matches Cause::Core(e) && !(
        e is Io) && !(e is HandshakeFailed)) ==> server_next(
            ServerState::AwaitingRequest,
            EventModel::RequestFailed(chain),
        ).1 == ActionModel::Fail(CloseLevel::Warn),
        (forall|j: int|
            0 <= j < chain.len() ==> match #[trigger] chain[j] {
                Cause::Io(kind) => kind != IoErrorKind::Interrupted && kind
                    != IoErrorKind::InvalidData && kind != IoErrorKind::Other,
                Cause::Core(e) => e is Io || e is HandshakeFailed,
                Cause::Other => true,
            }) ==> server_next(
            ServerState::AwaitingRequest,
            EventModel::RequestFailed(chain),
        ).1 == ActionModel::Fail(CloseLevel::Debug),
{
    if !expected_cause(chain[i]) {
        assert(request_failure_level(chain) == CloseLevel::Warn);
    }
    if forall|j: int|
        0 <= j < chain.len() ==> match #[trigger] chain[j] {
            Cause::Io(kind) => kind != IoErrorKind::Interrupted && kind != IoErrorKind::InvalidData
                && kind != IoErrorKind::Other,
            Cause::Core(e) => e is Io || e is HandshakeFailed,
            Cause::Other => true,
        } {
        assert forall|j: int| 0 <= j < chain.len() implies expected_cause(#[trigger] chain[j]) by {
            let c: Cause = chain[j];
            assert(match c {
                Cause::Io(kind) => kind != IoErrorKind::Interrupted && kind
                    != IoErrorKind::InvalidData && kind != IoErrorKind::Other,
                Cause::Core(e) => e is Io || e is HandshakeFailed,
                Cause::Other => true,
            });
        }
    }
}

/// An event that the connection does not wait for ends it with an error, and
/// when it has ended, or bytes are pumped, it waits for none.
pub proof fn law_events_out_of_place(state: ServerState, event: EventModel)
    ensures
        state == ServerState::Ended || state == ServerState::Pumping ==> server_next(state, event)
            == (ServerState::Ended, ActionModel::Fail(CloseLevel::Warn)),
        state == ServerState::Handshaking && event != EventModel::HandshakeDone ==> server_next(
            state,
            event,
        ) == (ServerState::Ended, ActionModel::Fail(CloseLevel::Warn)),
        state == ServerState::AwaitingRequest && !(event is RequestRead) && !(
        event is RequestFailed) ==> server_next(state, event) == (
            ServerState::Ended,
            ActionModel::Fail(CloseLevel::Warn),
        ),
        state == ServerState::Connecting && !(event is TargetTried) ==> server_next(state, event)
            == (ServerState::Ended, ActionModel::Fail(CloseLevel::Warn)),
        state is Replying && !(event is ReplySent) && !(event is ReplyFailed) ==> server_next(
            state,
            event,
        ) == (ServerState::Ended, ActionModel::Fail(CloseLevel::Warn)),
        server_next(state, event).0 == ServerState::Ended <==> server_next(state, event).1 is Fail
            || server_next(state, event).1 is Finish,
{
}

/// What a server does about an event on a connection, and where the connection
/// stands then.
pub fn server_step(state: ServerState, event: ServerEvent<'_>) -> (r: (ServerState, ServerAction))
    ensures
        (r.0, r.1@) == server_next(state, event@),
{
    match (state, event) {
        (ServerState::Handshaking, ServerEvent::HandshakeDone) => {
            (ServerState::AwaitingRequest, ServerAction::ReadRequest)
        },
        (ServerState::AwaitingRequest, ServerEvent::RequestRead(msg)) => {
            match ProxyAddr::decode(msg) {
                Ok(a) => (ServerState::Connecting, ServerAction::Connect(a)),
                Err(e) => (ServerState::Ended, ServerAction::Fail(CloseLevel::Warn)),
            }
        },
        (ServerState::AwaitingRequest, ServerEvent::RequestFailed(chain)) => {
            let level: CloseLevel = if closed_before_request(chain) {
                CloseLevel::Debug
            } else {
                CloseLevel::Warn
            };
            (ServerState::Ended, ServerAction::Fail(level))
        },
        (ServerState::Connecting, ServerEvent::TargetTried(connected)) => {
            (ServerState::Replying(connected), ServerAction::Reply(connect_reply(connected)))
        },
        (ServerState::Replying(true), ServerEvent::ReplySent) => {
            (ServerState::Pumping, ServerAction::Pump)
        },
        (ServerState::Replying(false), ServerEvent::ReplySent) => {
            (ServerState::Ended, ServerAction::Finish)
        },
        (ServerState::Replying(false), ServerEvent::ReplyFailed) => {
            (ServerState::Ended, ServerAction::Finish)
        },
        _ => (ServerState::Ended, ServerAction::Fail(CloseLevel::Warn)),
    }
}

/// The bytes of a pumped server connection that went to the target, and those
/// that went to the client. The local peer of the pump is the target.
pub fn server_traffic(s: &PumpStats) -> (r: (u64, u64))
    ensures
        r.0 == s.down,
        r.1 == s.up,
{
    (s.down, s.up)
}

/// The strings with a separator between them.
pub open spec fn joined(parts: Seq<Seq<char>>, separator: Seq<char>) -> Seq<char>
    decreases parts.len(),
{
    if parts.len() == 0 {
        Seq::empty()
    } else if parts.len() == 1 {
        parts[0]
    } else {
        joined(parts.drop_last(), separator) + separator + parts.last()
    }
}

/// Joined strings hold the strings in order, with the separator between each
/// two and nowhere else.
pub proof fn law_joined(parts: Seq<Seq<char>>, last: Seq<char>, separator: Seq<char>)
    ensures
        joined(Seq::empty(), separator) == Seq::<char>::empty(),
        joined(seq![last], separator) == last,
        parts.len() > 0 ==> joined(parts.push(last), separator) == joined(parts, separator)
            + separator + last,
{
    assert(parts.push(last).drop_last() =~= parts);
}

/// The hosts that bypass a desktop proxy unless the configuration names others.
pub open spec fn standard_bypass() -> Seq<Seq<char>> {
    seq![
        "localhost"@,
        "127.*"@,
        "192.168.*"@,
        "10.*"@,
        "172.16.*"@,
        "172.17.*"@,
        "172.18.*"@,
        "172.19.*"@,
        "172.2?.*"@,
        "172.30.*"@,
        "172.31.*"@,
        "<local>"@,
    ]
}

/// The hosts that bypass a desktop proxy unless the configuration names others.
pub fn default_bypass() -> (r: Vec<String>)
    ensures
        crate::rule::texts(r@) == standard_bypass(),
{
    let mut out: Vec<String> = Vec::new();
    out.push("localhost".to_owned());
    out.push("127.*".to_owned());
    out.push("192.168.*".to_owned());
    out.push("10.*".to_owned());
    out.push("172.16.*".to_owned());
    out.push("172.17.*".to_owned());
    out.push("172.18.*".to_owned());
    out.push("172.19.*".to_owned());
    out.push("172.2?.*".to_owned());
    out.push("172.30.*".to_owned());
    out.push("172.31.*".to_owned());
    out.push("<local>".to_owned());
    assert(crate::rule::texts(out@) =~= standard_bypass());
    out
}

fn join(parts: &[String], separator: &str) -> (r: String)
    ensures
        r@ == joined(crate::rule::texts(parts@), separator@),
{
    let ghost all: Seq<Seq<char>> = crate::rule::texts(parts@);
    let mut out: String = String::new();
    let mut i: usize = 0;
    assert(all.take(0) =~= Seq::<Seq<char>>::empty());
    while i < parts.len()
        invariant
            i <= parts@.len(),
            all == crate::rule::texts(parts@),
            out@ == joined(all.take(i as int), separator@),
        decreases parts@.len() - i,
    {
        let ghost before: Seq<char> = out@;
        if i > 0 {
            push_str(&mut out, separator);
        }
        push_str(&mut out, parts[i].as_str());
        proof {
            let next: Seq<Seq<char>> = all.take(i + 1);
            assert(next.drop_last() =~= all.take(i as int));
            assert(next.last() == parts@[i as int]@);
            if i == 0 {
                assert(before =~= Seq::<char>::empty());
                assert(out@ =~= next[0]);
            }
        }
        i += 1;
    }
    assert(all.take(i as int) =~= all);
    out
}

/// The bypass list of a desktop proxy: the configured hosts, else the standard
/// ones.
pub fn bypass_list(configured: &[String], separator: &str) -> (r: String)
    ensures
        r@ == if configured@.len() == 0 {
            joined(standard_bypass(), separator@)
        } else {
            joined(crate::rule::texts(configured@), separator@)
        },
{
    if configured.len() == 0 {
        let hosts: Vec<String> = default_bypass();
        join(hosts.as_slice(), separator)
    } else {
        join(configured, separator)
    }
}

} // verus!
