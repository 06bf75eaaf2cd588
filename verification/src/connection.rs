//! The life cycle of the connection: `Closed → Connecting → Open → Closing →
//! Closed`.

use vstd::prelude::*;

verus! {

/// The state of the connection.
#[derive(Debug, Clone, Copy, PartialEq, Eq, Structural)]
pub enum ConnState {
    /// No transport. Where every client starts and ends.
    Closed,
    /// The transport is being opened.
    Connecting,
    /// The transport is up; calls are accepted.
    Open,
    /// Teardown has begun: no new calls, the pending ones not yet released.
    Closing,
}

/// What can happen to the connection.
#[derive(Debug, Clone, Copy, PartialEq, Eq, Structural)]
pub enum ConnEvent {
    /// The application asks for the connection.
    Start,
    /// The transport was opened.
    Established,
    /// The transport could not be opened.
    Failed,
    /// A read or a write failed, a malformed frame arrived, the stream
    /// ended, or the application asked for the end.
    Teardown,
    /// The transport is shut down and the pending calls are released.
    Released,
}

/// The state that follows `state` on `event`, or `None` where the state does
/// not take the event.
pub open spec fn step_spec(state: ConnState, event: ConnEvent) -> Option<ConnState> {
    match (state, event) {
        (ConnState::Closed, ConnEvent::Start) => Some(ConnState::Connecting),
        (ConnState::Connecting, ConnEvent::Established) => Some(ConnState::Open),
        (ConnState::Connecting, ConnEvent::Failed) => Some(ConnState::Closed),
        (ConnState::Open, ConnEvent::Teardown) => Some(ConnState::Closing),
        (ConnState::Closing, ConnEvent::Released) => Some(ConnState::Closed),
        _ => None,
    }
}

/// The states that follow `state` on the events `events` in turn; an event
/// that the state does not take leaves it as it is.
pub open spec fn run_spec(state: ConnState, events: Seq<ConnEvent>) -> ConnState
    decreases events.len(),
{
    if events.len() == 0 {
        state
    } else {
        let before = run_spec(state, events.drop_last());
        match step_spec(before, events.last()) {
            Some(next) => next,
            None => before,
        }
    }
}

impl ConnState {
    /// The state that follows on `event`, or `None` where this state does not
    /// take the event.
    pub fn step(self, event: ConnEvent) -> (next: Option<ConnState>)
        ensures
            next == step_spec(self, event),
    {
        match (self, event) {
            (ConnState::Closed, ConnEvent::Start) => Some(ConnState::Connecting),
            (ConnState::Connecting, ConnEvent::Established) => Some(ConnState::Open),
            (ConnState::Connecting, ConnEvent::Failed) => Some(ConnState::Closed),
            (ConnState::Open, ConnEvent::Teardown) => Some(ConnState::Closing),
            (ConnState::Closing, ConnEvent::Released) => Some(ConnState::Closed),
            _ => None,
        }
    }

    /// Whether calls are accepted: only while the connection is open.
    pub fn accepts_calls(self) -> (b: bool)
        ensures
            b == (self == ConnState::Open),
    {
        match self {
            ConnState::Open => true,
            _ => false,
        }
    }
}

/// Teardown is the only way out of `Open`, and it leads to `Closing`.
pub proof fn lemma_only_teardown_leaves_open(event: ConnEvent)
    ensures
        step_spec(ConnState::Open, event) is Some <==> event == ConnEvent::Teardown,
        step_spec(ConnState::Open, event) is Some ==> step_spec(ConnState::Open, event)
            == Some(ConnState::Closing),
{
}

/// `Open` is entered only from `Connecting`, when the transport was opened:
/// a connection that broke is never reopened behind the application's back.
pub proof fn lemma_open_only_after_connecting(state: ConnState, event: ConnEvent)
    requires
        step_spec(state, event) == Some(ConnState::Open),
    ensures
        state == ConnState::Connecting,
        event == ConnEvent::Established,
{
}

/// Teardown happens once: after it the connection takes no further teardown
/// until it has been opened again, so whatever events follow a teardown, as
/// long as none of them is `Start`, the connection is closing or closed.
pub proof fn lemma_teardown_is_final(events: Seq<ConnEvent>)
    requires
        forall|i: int| 0 <= i < events.len() ==> events[i] != ConnEvent::Start,
    ensures
        run_spec(ConnState::Closing, events) == ConnState::Closing || run_spec(
            ConnState::Closing,
            events,
        ) == ConnState::Closed,
    decreases events.len(),
{
    if events.len() > 0 {
        lemma_teardown_is_final(events.drop_last());
    }
}

} // verus!
