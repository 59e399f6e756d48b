//! The connection handler as a state machine.
//!
//! One connection runs through `Accepted`, `Reading`, `Parsed`,
//! `Connecting`, `Forwarding`, `Relaying` and `Closed`; a failure leads to
//! `Errored` and from there to `Closed`. The machine does no I/O itself:
//! [`step`] takes what the last piece of outside work gave and answers with
//! the next state and the next piece of work. Whoever runs it performs the
//! work and hands the outcome back.
use crate::forwarder::{outbound_text, serialize};
use crate::logline::{log_line, spec_log_line, LocalTime};
use crate::parser::{parse, spec_parse_text, utf8_lossy};
use crate::request::{ProxyError, Request, RequestView};
use vstd::prelude::*;
use vstd::string::StringExecFns;
use vstd::utf8::{decode_utf8, encode_utf8, valid_utf8};

verus! {

/// The most bytes that are read off the client, in one read.
pub const READ_LIMIT: usize = 1024;

/// The two halves of the relay: the whole response is read first, and
/// written to the client after that.
#[derive(Clone, Copy, Debug, PartialEq, Eq, Structural)]
pub enum RelayPhase {
    Buffering,
    Flushing,
}

/// Where a connection stands.
#[derive(Clone, Debug, PartialEq, Eq)]
pub enum State {
    Accepted,
    Reading,
    Parsed { request: Request },
    Connecting { request: Request },
    Forwarding,
    Relaying { phase: RelayPhase },
    Closed,
    Errored { error: ProxyError },
}

/// The view of a [`State`].
pub enum StateView {
    Accepted,
    Reading,
    Parsed { request: RequestView },
    Connecting { request: RequestView },
    Forwarding,
    Relaying { phase: RelayPhase },
    Closed,
    Errored { error: ProxyError },
}

impl View for State {
    type V = StateView;

    open spec fn view(&self) -> StateView {
        match self {
            State::Accepted => StateView::Accepted,
            State::Reading => StateView::Reading,
            State::Parsed { request } => StateView::Parsed { request: request@ },
            State::Connecting { request } => StateView::Connecting { request: request@ },
            State::Forwarding => StateView::Forwarding,
            State::Relaying { phase } => StateView::Relaying { phase: *phase },
            State::Closed => StateView::Closed,
            State::Errored { error } => StateView::Errored { error: *error },
        }
    }
}

/// What a piece of outside work gave.
#[derive(Clone, Debug, PartialEq, Eq)]
pub enum Event {
    /// The work is done and gave nothing to hand back.
    Done,
    /// The read gave these bytes.
    Data { bytes: Vec<u8> },
    /// The work failed.
    Failed,
}

/// The view of an [`Event`].
pub enum EventView {
    Done,
    Data { bytes: Seq<u8> },
    Failed,
}

impl View for Event {
    type V = EventView;

    open spec fn view(&self) -> EventView {
        match self {
            Event::Done => EventView::Done,
            Event::Data { bytes } => EventView::Data { bytes: bytes@ },
            Event::Failed => EventView::Failed,
        }
    }
}

/// The outside work that a state asks for.
#[derive(Clone, Debug, PartialEq, Eq)]
pub enum Action {
    /// Read once from the client, `limit` bytes at most.
    ReadClient { limit: usize },
    /// Write the line to the log.
    Log { line: String },
    /// Open a connection to the origin at `address`.
    Connect { address: String },
    /// Write the bytes to the origin.
    SendUpstream { bytes: Vec<u8> },
    /// Read from the origin until it closes.
    ReadUpstream,
    /// Write the bytes to the client, in one write.
    SendClient { bytes: Vec<u8> },
    /// Release both sockets.
    Close,
    /// No outside work: hand back `Done`.
    Nothing,
}

/// The view of an [`Action`].
pub enum ActionView {
    ReadClient { limit: usize },
    Log { line: Seq<char> },
    Connect { address: Seq<char> },
    SendUpstream { bytes: Seq<u8> },
    ReadUpstream,
    SendClient { bytes: Seq<u8> },
    Close,
    Nothing,
}

impl View for Action {
    type V = ActionView;

    open spec fn view(&self) -> ActionView {
        match self {
            Action::ReadClient { limit } => ActionView::ReadClient { limit: *limit },
            Action::Log { line } => ActionView::Log { line: line@ },
            Action::Connect { address } => ActionView::Connect { address: address@ },
            Action::SendUpstream { bytes } => ActionView::SendUpstream { bytes: bytes@ },
            Action::ReadUpstream => ActionView::ReadUpstream,
            Action::SendClient { bytes } => ActionView::SendClient { bytes: bytes@ },
            Action::Close => ActionView::Close,
            Action::Nothing => ActionView::Nothing,
        }
    }
}

/// The address of the origin of a request: its host, on port 80.
pub open spec fn origin_address(request: RequestView) -> Seq<char> {
    request.hostname + ":80"@
}

/// The text that the bytes of a read are decoded to; empty for an event
/// that hands no bytes back.
pub open spec fn event_text(event: EventView) -> Seq<char> {
    match event {
        EventView::Data { bytes } => utf8_lossy(bytes),
        _ => Seq::empty(),
    }
}

/// One step of the machine, where the bytes of a read decode to `text` and a
/// request is parsed at time `now`.
///
/// The expected event moves the connection on. In `Connecting` a failure is
/// an `UpstreamConnectFailure`; everywhere else a failure, or an event that
/// the state does not wait for, is an `IOFailure`. A malformed request, like
/// every error, leads to `Errored` with no outside work, and from there to
/// `Closed`.
pub open spec fn spec_step_on(
    state: StateView,
    event: EventView,
    text: Seq<char>,
    now: LocalTime,
) -> (StateView, ActionView) {
    match (state, event) {
        (StateView::Accepted, EventView::Done) => (
            StateView::Reading,
            ActionView::ReadClient { limit: READ_LIMIT },
        ),
        (StateView::Reading, EventView::Data { bytes }) => match spec_parse_text(text) {
            Ok(request) => (
                StateView::Parsed { request },
                ActionView::Log { line: spec_log_line(now, request) },
            ),
            Err(error) => (StateView::Errored { error }, ActionView::Nothing),
        },
        (StateView::Parsed { request }, EventView::Done) => (
            StateView::Connecting { request },
            ActionView::Connect { address: origin_address(request) },
        ),
        (StateView::Connecting { request }, EventView::Done) => (
            StateView::Forwarding,
            ActionView::SendUpstream { bytes: encode_utf8(outbound_text(request)) },
        ),
        (StateView::Connecting { request }, EventView::Failed) => (
            StateView::Errored { error: ProxyError::UpstreamConnectFailure },
            ActionView::Nothing,
        ),
        (StateView::Forwarding, EventView::Done) => (
            StateView::Relaying { phase: RelayPhase::Buffering },
            ActionView::ReadUpstream,
        ),
        (StateView::Relaying { phase: RelayPhase::Buffering }, EventView::Data { bytes }) => (
            StateView::Relaying { phase: RelayPhase::Flushing },
            ActionView::SendClient { bytes },
        ),
        (StateView::Relaying { phase: RelayPhase::Flushing }, EventView::Done) => (
            StateView::Closed,
            ActionView::Close,
        ),
        (StateView::Errored { error }, _) => (StateView::Closed, ActionView::Close),
        (StateView::Closed, _) => (StateView::Closed, ActionView::Nothing),
        _ => (StateView::Errored { error: ProxyError::IOFailure }, ActionView::Nothing),
    }
}

/// One step of the machine, for a request that is parsed at time `now`: the
/// bytes of a read are decoded leniently.
pub open spec fn spec_step(state: StateView, event: EventView, now: LocalTime) -> (
    StateView,
    ActionView,
) {
    spec_step_on(state, event, event_text(event), now)
}

/// The state of a connection that was just accepted.
pub fn accept() -> (state: State)
    ensures
        state@ == StateView::Accepted,
{
    State::Accepted
}

/// Takes the outcome of the last piece of outside work and gives the next
/// state and the next piece of work. Where the bytes of a read are valid
/// UTF-8, the step is the one over their plain decoding.
pub fn step(state: State, event: Event) -> (next: (State, Action))
    ensures
        exists|now: LocalTime|
            {
                &&& now.in_range()
                &&& (next.0@, next.1@) == spec_step(state@, event@, now)
                &&& (event@ matches EventView::Data { bytes } ==> (valid_utf8(bytes) ==> (
                    next.0@,
                    next.1@,
                ) == spec_step_on(state@, event@, decode_utf8(bytes), now)))
            },
{
    let ghost mut now = LocalTime {
        years_since_1900: 0,
        months_since_january: 0,
        day_of_month: 1,
        hour: 0,
        minute: 0,
        second: 0,
        nanosecond: 0,
    };
    let next = match (state, event) {
        (State::Accepted, Event::Done) => (
            State::Reading,
            Action::ReadClient { limit: READ_LIMIT },
        ),
        (State::Reading, Event::Data { bytes }) => match parse(bytes.as_slice()) {
            Ok(request) => {
                let line = log_line(&request);
                proof {
                    now = choose|t: LocalTime| t.in_range() && line@ == spec_log_line(t, request@);
                }
                (State::Parsed { request }, Action::Log { line })
            },
            Err(error) => (State::Errored { error }, Action::Nothing),
        },
        (State::Parsed { request }, Event::Done) => {
            let mut address = request.hostname.clone();
            address.append(":80");
            (State::Connecting { request }, Action::Connect { address })
        },
        (State::Connecting { request }, Event::Done) => {
            let bytes = serialize(&request);
            (State::Forwarding, Action::SendUpstream { bytes })
        },
        (State::Connecting { request }, Event::Failed) => (
            State::Errored { error: ProxyError::UpstreamConnectFailure },
            Action::Nothing,
        ),
        (State::Forwarding, Event::Done) => (
            State::Relaying { phase: RelayPhase::Buffering },
            Action::ReadUpstream,
        ),
        (State::Relaying { phase: RelayPhase::Buffering }, Event::Data { bytes }) => (
            State::Relaying { phase: RelayPhase::Flushing },
            Action::SendClient { bytes },
        ),
        (State::Relaying { phase: RelayPhase::Flushing }, Event::Done) => (
            State::Closed,
            Action::Close,
        ),
        (State::Errored { error }, _) => (State::Closed, Action::Close),
        (State::Closed, _) => (State::Closed, Action::Nothing),
        _ => (State::Errored { error: ProxyError::IOFailure }, Action::Nothing),
    };
    assert(now.in_range() && (next.0@, next.1@) == spec_step(state@, event@, now) && (
    event@ matches EventView::Data { bytes } ==> (valid_utf8(bytes) ==> (next.0@, next.1@)
        == spec_step_on(state@, event@, decode_utf8(bytes), now))));
    next
}

/// The state asks for no more work on the sockets but their release.
pub open spec fn is_quiet(action: ActionView) -> bool {
    action is Nothing || action is Close
}

/// A failure ends the connection: whatever the state, a failed piece of work
/// leads to `Errored` or `Closed` and asks for no more reads, writes or
/// connections; from `Errored` every event leads to `Closed`, where both
/// sockets are released.
pub proof fn lemma_failure_ends_connection(state: StateView, event: EventView, now: LocalTime)
    ensures
        spec_step(state, EventView::Failed, now).0 is Errored || spec_step(
            state,
            EventView::Failed,
            now,
        ).0 is Closed,
        is_quiet(spec_step(state, EventView::Failed, now).1),
        state is Errored ==> spec_step(state, event, now) == (
            StateView::Closed,
            ActionView::Close,
        ),
{
}

/// A request that does not parse is never forwarded: the read that gave it
/// leads to `Errored` with the error of the parser and no outside work, and
/// no connection to an origin is asked for.
pub proof fn lemma_malformed_is_not_forwarded(bytes: Seq<u8>, now: LocalTime)
    ensures
        spec_parse_text(utf8_lossy(bytes)) is Err ==> spec_step(
            StateView::Reading,
            EventView::Data { bytes },
            now,
        ) == (
            StateView::Errored { error: ProxyError::MalformedRequest },
            ActionView::Nothing,
        ),
{
}

/// A connection to the origin is asked for in one place only: after the log
/// line of a parsed request is written, and to the host of that request.
pub proof fn lemma_connect_follows_parse(state: StateView, event: EventView, now: LocalTime)
    requires
        spec_step(state, event, now).1 is Connect,
    ensures
        state matches StateView::Parsed { request } && event is Done && spec_step(
            state,
            event,
            now,
        ) == (
            StateView::Connecting { request },
            ActionView::Connect { address: origin_address(request) },
        ),
{
}

/// The response of the origin goes to the client as it came: the same bytes
/// in the same order, whatever they are.
pub proof fn lemma_relay_is_verbatim(bytes: Seq<u8>, now: LocalTime)
    ensures
        spec_step(
            StateView::Relaying { phase: RelayPhase::Buffering },
            EventView::Data { bytes },
            now,
        ) == (
            StateView::Relaying { phase: RelayPhase::Flushing },
            ActionView::SendClient { bytes },
        ),
{
}

} // verus!
