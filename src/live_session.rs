use vstd::prelude::*;
use crate::command::Command;
use crate::text::join;
use crate::wait::decode_failure_text;

verus! {

/// Where a live-telemetry session stands.
#[derive(Clone, Copy, Debug, PartialEq, Eq, Structural)]
pub enum SessionState {
    /// The client has not been served yet.
    Connecting,
    /// The client is being served.
    Open,
    /// The session has ended.
    Closed,
}

/// What a live-telemetry session observes next.
pub enum SessionEvent<T> {
    /// The client's connection was accepted.
    Connected,
    /// A message arrived on the bus.
    Bus(Command<T>),
    /// A message arrived on the bus that could not be decoded; the
    /// decoder's description.
    BusDecodeFailed(String),
    /// The session's receiver fell behind the bus.
    BusLagged,
    /// The bus was shut down.
    BusClosed,
    /// The client sent a frame.
    ClientFrame,
    /// The client closed the connection, or it failed.
    ClientGone,
    /// A frame could not be sent to the client.
    SendFailed,
}

/// What the session does in response.
pub enum SessionAction<T> {
    Nothing,
    /// Send the client the cached telemetry, oldest first.
    SendCache,
    /// Store this telemetry in the cache and send it to the client.
    ForwardTelemetry(T),
    /// Send the client an error frame with this message.
    SendError(String),
    /// End the session.
    Close,
}

/// The outcome of one event: the next state, the action, and the change to
/// the count of live sessions (`1`, `0` or `-1`).
pub struct SessionStep<T> {
    pub state: SessionState,
    pub action: SessionAction<T>,
    pub gauge_change: i8,
}

/// The events that end an open session.
pub open spec fn ends_session<T>(event: SessionEvent<T>) -> bool {
    match event {
        SessionEvent::BusLagged | SessionEvent::BusClosed | SessionEvent::ClientGone
        | SessionEvent::SendFailed => true,
        _ => false,
    }
}

/// The state after `event` in state `state`.
pub open spec fn next_session_state<T>(state: SessionState, event: SessionEvent<T>) -> SessionState {
    match state {
        SessionState::Connecting => if event is Connected {
            SessionState::Open
        } else {
            SessionState::Connecting
        },
        SessionState::Open => if ends_session(event) {
            SessionState::Closed
        } else {
            SessionState::Open
        },
        SessionState::Closed => SessionState::Closed,
    }
}

/// The change to the count of live sessions when going from `a` to `b`.
pub open spec fn gauge_delta(a: SessionState, b: SessionState) -> int {
    if a == SessionState::Connecting && b == SessionState::Open {
        1
    } else if a == SessionState::Open && b == SessionState::Closed {
        -1
    } else {
        0
    }
}

/// The decision of a live-telemetry session on one event. On connecting it
/// counts itself live and sends the cache; while open it forwards each
/// telemetry message, reports undecodable messages to the client, and ends
/// (no longer counted live) when the bus lags or closes, the client goes
/// away, or a send fails. An ended session does nothing more.
pub fn session_step<T>(state: SessionState, event: SessionEvent<T>) -> (r: SessionStep<T>)
    ensures
        r.state == next_session_state(state, event),
        r.gauge_change == gauge_delta(state, r.state),
        state == SessionState::Connecting && event is Connected ==> r.action is SendCache,
        state == SessionState::Open ==> match event {
            SessionEvent::Bus(Command::LiveTelemetry(t)) => r.action == SessionAction::<
                T,
            >::ForwardTelemetry(t),
            SessionEvent::BusDecodeFailed(d) => r.action matches SessionAction::SendError(m) && m@
                == decode_failure_text(d@),
            _ => if ends_session(event) {
                r.action is Close
            } else {
                r.action is Nothing
            },
        },
        state == SessionState::Connecting && !(event is Connected) ==> r.action is Nothing,
        state == SessionState::Closed ==> r.action is Nothing,
{
    match state {
        SessionState::Connecting => match event {
            SessionEvent::Connected => SessionStep {
                state: SessionState::Open,
                action: SessionAction::SendCache,
                gauge_change: 1,
            },
            _ => SessionStep {
                state: SessionState::Connecting,
                action: SessionAction::Nothing,
                gauge_change: 0,
            },
        },
        SessionState::Open => match event {
            SessionEvent::Bus(Command::LiveTelemetry(t)) => SessionStep {
                state: SessionState::Open,
                action: SessionAction::ForwardTelemetry(t),
                gauge_change: 0,
            },
            SessionEvent::BusDecodeFailed(d) => SessionStep {
                state: SessionState::Open,
                action: SessionAction::SendError(
                    join("Failed to decode CrisislabMessage: ", d.as_str()),
                ),
                gauge_change: 0,
            },
            SessionEvent::BusLagged | SessionEvent::BusClosed | SessionEvent::ClientGone
            | SessionEvent::SendFailed => SessionStep {
                state: SessionState::Closed,
                action: SessionAction::Close,
                gauge_change: -1,
            },
            _ => SessionStep {
                state: SessionState::Open,
                action: SessionAction::Nothing,
                gauge_change: 0,
            },
        },
        SessionState::Closed => SessionStep {
            state: SessionState::Closed,
            action: SessionAction::Nothing,
            gauge_change: 0,
        },
    }
}

/// The state after the events `events`, from `state`.
pub open spec fn session_after<T>(state: SessionState, events: Seq<SessionEvent<T>>) -> SessionState
    decreases events.len(),
{
    if events.len() == 0 {
        state
    } else {
        next_session_state(session_after(state, events.drop_last()), events.last())
    }
}

/// The sum of the gauge changes over the events `events`, from `state`.
pub open spec fn gauge_total<T>(state: SessionState, events: Seq<SessionEvent<T>>) -> int
    decreases events.len(),
{
    if events.len() == 0 {
        0
    } else {
        gauge_total(state, events.drop_last()) + gauge_delta(
            session_after(state, events.drop_last()),
            session_after(state, events),
        )
    }
}

/// Over any run of a session, the count of live sessions goes up by one
/// while the session is open and by nothing once it has ended or before it
/// started: summed over all sessions, it equals the number of open ones,
/// and it is never decreased twice for one session.
pub proof fn lemma_gauge_counts_open_sessions<T>(events: Seq<SessionEvent<T>>)
    ensures
        gauge_total(SessionState::Connecting, events) == (if session_after(
            SessionState::Connecting,
            events,
        ) == SessionState::Open {
            1int
        } else {
            0int
        }),
    decreases events.len(),
{
    if events.len() > 0 {
        lemma_gauge_counts_open_sessions(events.drop_last());
    }
}

} // verus!
