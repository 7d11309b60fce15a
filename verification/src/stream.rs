//! The event stream client's reconnect state machine. The client holds a
//! persistent subscription channel to the child process; on any connect
//! failure, close or transport error it re-enters `Connecting` and retries
//! without bound — the child process is locally supervised and expected to
//! become reachable again. The surrounding task performs the returned action
//! (wait, connect, read, dispatch) and feeds the next observation back in.

use vstd::prelude::*;
use crate::command::{decode_event_spec, decode_event, ControlCommand};

verus! {

/// Milliseconds waited before the first connection attempt, so that the
/// child process can finish its own startup.
pub const WARMUP_MILLIS: u64 = 2000;

/// Milliseconds waited after a failed connection attempt before the next.
pub const BACKOFF_MILLIS: u64 = 1000;

/// Where the subscription channel stands. Transient, recreated on every
/// reconnect attempt, never persisted.
#[derive(Clone, Copy, Debug, PartialEq, Eq, Structural)]
pub enum ConnState {
    Disconnected,
    Connecting,
    Connected,
}

/// One observation made by the surrounding task.
pub enum StreamEvent<'a> {
    /// A connection attempt succeeded.
    ConnectOk,
    /// A connection attempt failed.
    ConnectFailed,
    /// A text message arrived on the channel.
    Text(&'a str),
    /// The channel was closed by the other side.
    Closed,
    /// Reading from the channel failed.
    TransportError,
    /// A non-text frame arrived; it carries nothing.
    Other,
}

/// An observation as a mathematical value.
pub enum StreamEventV {
    ConnectOk,
    ConnectFailed,
    Text(Seq<char>),
    Closed,
    TransportError,
    Other,
}

impl<'a> View for StreamEvent<'a> {
    type V = StreamEventV;

    open spec fn view(&self) -> StreamEventV {
        match self {
            StreamEvent::ConnectOk => StreamEventV::ConnectOk,
            StreamEvent::ConnectFailed => StreamEventV::ConnectFailed,
            StreamEvent::Text(s) => StreamEventV::Text(s@),
            StreamEvent::Closed => StreamEventV::Closed,
            StreamEvent::TransportError => StreamEventV::TransportError,
            StreamEvent::Other => StreamEventV::Other,
        }
    }
}

/// What the surrounding task must do next.
#[derive(Clone, Copy, Debug, PartialEq, Eq, Structural)]
pub enum StreamAction {
    /// Attempt to open the channel now.
    Attempt,
    /// Wait the backoff interval, then attempt to open the channel.
    BackoffThenAttempt,
    /// Keep reading from the channel.
    Read,
    /// Dispatch a decoded command, then keep reading.
    Dispatch,
}

/// Whether an observation reports a disruption: a failed attempt, a closed
/// channel or a transport error.
pub open spec fn is_disruption(e: StreamEventV) -> bool {
    match e {
        StreamEventV::ConnectFailed => true,
        StreamEventV::Closed => true,
        StreamEventV::TransportError => true,
        _ => false,
    }
}

/// The next state and action. A success stands connected and reads; any
/// disruption re-enters `Connecting` (a failed attempt backs off first, a
/// close or error retries at once); a text message stays connected and
/// dispatches what it decodes to, dropping what it does not; any other
/// frame is ignored.
pub open spec fn spec_stream_step(s: ConnState, e: StreamEventV) -> (
    ConnState,
    StreamAction,
    Option<ControlCommand>,
) {
    match e {
        StreamEventV::ConnectOk => (ConnState::Connected, StreamAction::Read, None),
        StreamEventV::ConnectFailed => (
            ConnState::Connecting,
            StreamAction::BackoffThenAttempt,
            None,
        ),
        StreamEventV::Closed => (ConnState::Connecting, StreamAction::Attempt, None),
        StreamEventV::TransportError => (ConnState::Connecting, StreamAction::Attempt, None),
        StreamEventV::Text(t) => match decode_event_spec(t) {
            Some(c) => (ConnState::Connected, StreamAction::Dispatch, Some(c)),
            None => (ConnState::Connected, StreamAction::Read, None),
        },
        StreamEventV::Other => (s, StreamAction::Read, None),
    }
}

/// The state entered by the first connection attempt, and how long to wait
/// before making it.
pub fn stream_start() -> (r: (ConnState, u64))
    ensures
        r.0 == ConnState::Connecting,
        r.1 == WARMUP_MILLIS,
{
    (ConnState::Connecting, WARMUP_MILLIS)
}

/// Feeds one observation into the state machine: the next state, the next
/// action, and the command to dispatch if the observation decoded to one.
pub fn stream_step(s: ConnState, e: StreamEvent) -> (r: (
    ConnState,
    StreamAction,
    Option<ControlCommand>,
))
    ensures
        r == spec_stream_step(s, e@),
{
    match e {
        StreamEvent::ConnectOk => (ConnState::Connected, StreamAction::Read, None),
        StreamEvent::ConnectFailed => (
            ConnState::Connecting,
            StreamAction::BackoffThenAttempt,
            None,
        ),
        StreamEvent::Closed => (ConnState::Connecting, StreamAction::Attempt, None),
        StreamEvent::TransportError => (ConnState::Connecting, StreamAction::Attempt, None),
        StreamEvent::Text(t) => match decode_event(t) {
            Some(c) => (ConnState::Connected, StreamAction::Dispatch, Some(c)),
            None => (ConnState::Connected, StreamAction::Read, None),
        },
        StreamEvent::Other => (s, StreamAction::Read, None),
    }
}

/// The state after a whole run of observations.
pub open spec fn run_stream(s: ConnState, evs: Seq<StreamEventV>) -> ConnState
    decreases evs.len(),
{
    if evs.len() == 0 {
        s
    } else {
        run_stream(spec_stream_step(s, evs[0]).0, evs.drop_first())
    }
}

/// On any disruption — a failed connection attempt, a closed channel or a
/// transport error — the client re-enters `Connecting`, from any state: it
/// never gives up and never escalates.
pub proof fn lemma_disruption_reenters_connecting(s: ConnState, e: StreamEventV)
    requires
        is_disruption(e),
    ensures
        spec_stream_step(s, e).0 == ConnState::Connecting,
{
}

/// Liveness under flapping connectivity: whatever disruptions a run of
/// observations holds, once a connection attempt succeeds and no further
/// disruption follows it, the client stands `Connected`.
pub proof fn lemma_recovers_once_reachable(s: ConnState, evs: Seq<StreamEventV>, k: int)
    requires
        0 <= k < evs.len(),
        evs[k] is ConnectOk,
        forall|t: int| k < t < evs.len() ==> !is_disruption(#[trigger] evs[t]),
    ensures
        run_stream(s, evs) == ConnState::Connected,
    decreases evs.len(),
{
    if k == 0 {
        lemma_stays_connected(spec_stream_step(s, evs[0]).0, evs.drop_first());
    } else {
        lemma_recovers_once_reachable(spec_stream_step(s, evs[0]).0, evs.drop_first(), k - 1);
    }
}

/// The client never gives up: once the first attempt is under way, every
/// run of observations leaves it connecting or connected — there is no
/// terminal failure state and no circuit breaker.
pub proof fn lemma_never_gives_up(s: ConnState, evs: Seq<StreamEventV>)
    requires
        s != ConnState::Disconnected,
    ensures
        run_stream(s, evs) != ConnState::Disconnected,
    decreases evs.len(),
{
    if evs.len() > 0 {
        lemma_never_gives_up(spec_stream_step(s, evs[0]).0, evs.drop_first());
    }
}

/// Once connected, a run free of disruptions keeps the client connected.
pub proof fn lemma_stays_connected(s: ConnState, evs: Seq<StreamEventV>)
    requires
        s == ConnState::Connected,
        forall|t: int| 0 <= t < evs.len() ==> !is_disruption(#[trigger] evs[t]),
    ensures
        run_stream(s, evs) == ConnState::Connected,
    decreases evs.len(),
{
    if evs.len() > 0 {
        lemma_stays_connected(spec_stream_step(s, evs[0]).0, evs.drop_first());
    }
}

} // verus!
