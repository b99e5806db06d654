//! The decisions of the connection driver.
//!
//! The driver itself only performs what this state machine decides:
//! it prints surfaced payloads and stops polling when told to.  The
//! machine has two states and never leaves the stopped one.

use vstd::prelude::*;

verus! {

/// Whether the connection is still being driven.
#[derive(Clone, Copy, Debug, PartialEq, Eq, Structural)]
pub enum ConnState {
    Running,
    Stopped,
}

/// One event out of the broker connection, reduced to what the
/// decision needs: an inbound application message with its payload,
/// any other protocol event, or a transport failure.
pub enum ConnEvent {
    Message(Vec<u8>),
    Other,
    Failure,
}

/// What the driver should do with an event.
pub enum ConnAction {
    Emit(Vec<u8>),
    Ignore,
    Stop,
}

/// Advances the connection state machine by one event: an inbound
/// message is surfaced unchanged, any other event is ignored, a
/// transport failure stops the loop for good, and a stopped
/// connection stays stopped.
pub fn handle_event(state: ConnState, event: ConnEvent) -> (r: (ConnState, ConnAction))
    ensures
        state is Stopped ==> r.0 is Stopped && r.1 is Stop,
        state is Running ==> match event {
            ConnEvent::Message(p) => r.0 is Running && (r.1 matches ConnAction::Emit(q) && q@
                == p@),
            ConnEvent::Other => r.0 is Running && r.1 is Ignore,
            ConnEvent::Failure => r.0 is Stopped && r.1 is Stop,
        },
{
    match state {
        ConnState::Stopped => (ConnState::Stopped, ConnAction::Stop),
        ConnState::Running => match event {
            ConnEvent::Message(p) => (ConnState::Running, ConnAction::Emit(p)),
            ConnEvent::Other => (ConnState::Running, ConnAction::Ignore),
            ConnEvent::Failure => (ConnState::Stopped, ConnAction::Stop),
        },
    }
}

} // verus!
