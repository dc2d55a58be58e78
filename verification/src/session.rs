//! The per-connection protocol machine.
//!
//! A connection starts handshaking: one initial message must arrive
//! within the wait the caller enforces, holding either `connect` or a
//! resume id.  A well-formed handshake replays history and streams live
//! records; at any later point the word `disconnect` asks for one
//! farewell frame carrying the resumable cursor, after which the
//! connection closes.  The caller performs the actions and reports what
//! it observed; every transition is decided here.

use vstd::prelude::*;

use crate::event::{connect_word, disconnect_word, spaced_digits_from, Event, EventError};

verus! {

#[derive(Clone, Copy, PartialEq, Eq, Debug)]
pub enum SessionState {
    /// Awaiting the one initial message.
    Handshaking,
    /// Relaying records; watching for a disconnect request.
    Streaming,
    /// A disconnect request arrived; the farewell frame is owed.
    Disconnecting,
    /// The connection is finished; the registry entry is dropped.
    Closed,
}

/// What a connection task observed.
pub enum SessionEvent {
    /// The initial message arrived carrying this payload.
    InitialData { payload: Vec<u8> },
    /// The initial message carried no text or binary data.
    InitialNonData,
    /// The wait for the initial message ran out.
    InitialTimeout,
    /// The socket closed or failed; during the handshake this too is
    /// answered with a best-effort error frame before closing.
    ConnectionGone,
    /// A later incoming frame carrying this payload.
    Frame { payload: Vec<u8> },
    /// A later incoming frame without text or binary data.
    NonDataFrame,
    /// The outbound relay ended.
    OutboundClosed,
    /// The farewell frame was sent, or its send failed best-effort.
    FarewellSent,
}

/// Why a connection is closed on the spot, and with which error frame.
#[derive(Clone, Copy, PartialEq, Eq, Debug)]
pub enum CloseReason {
    /// The handshake payload was neither `connect` nor a decimal id.
    BadPayload,
    /// The handshake frame carried no text or binary data.
    NoData,
    /// No initial message arrived in time.
    MissedHandshake,
}

impl CloseReason {
    /// The error frame sent back, best effort, before closing.
    pub fn message(&self) -> (r: &'static str)
        ensures
            ({
                match self {
                    CloseReason::BadPayload => r@ == EventError::Bytes.message_spec(),
                    CloseReason::NoData => r@ == EventError::Variant.message_spec(),
                    CloseReason::MissedHandshake => r@
                        == "Require initial message containing either `\"connect\"` or a score id to resume from"@,
                }
            }),
    {
        match self {
            CloseReason::BadPayload => EventError::Bytes.message(),
            CloseReason::NoData => EventError::Variant.message(),
            CloseReason::MissedHandshake => "Require initial message containing either `\"connect\"` or a score id to resume from",
        }
    }
}

/// What the connection task must do next.
#[derive(Clone, Copy, PartialEq, Eq, Debug)]
pub enum SessionAction {
    /// Replay every retained record beyond the resume id, then relay.
    Replay { resume_id: Option<u64> },
    /// Send the reason's error frame, best effort, and close.
    SendErrorAndClose { reason: CloseReason },
    /// Send one text frame holding the greatest retained id.
    SendFarewell,
    /// Drop the registry entry and the connection.
    Close,
    /// Nothing to do; keep relaying.
    Continue,
}

/// The transition relation of the protocol, one observed event at a
/// time.
pub open spec fn session_step_spec(state: SessionState, event: SessionEvent) -> (
    SessionState,
    SessionAction,
) {
    match (state, event) {
        (SessionState::Handshaking, SessionEvent::InitialData { payload }) => {
            if payload@ == connect_word() {
                (SessionState::Streaming, SessionAction::Replay { resume_id: None })
            } else {
                match spaced_digits_from(payload@, 0, 0, false) {
                    Some(id) => (
                        SessionState::Streaming,
                        SessionAction::Replay { resume_id: Some(id) },
                    ),
                    None => (
                        SessionState::Closed,
                        SessionAction::SendErrorAndClose { reason: CloseReason::BadPayload },
                    ),
                }
            }
        },
        (SessionState::Handshaking, SessionEvent::InitialNonData) => (
            SessionState::Closed,
            SessionAction::SendErrorAndClose { reason: CloseReason::NoData },
        ),
        (SessionState::Handshaking, SessionEvent::InitialTimeout) => (
            SessionState::Closed,
            SessionAction::SendErrorAndClose { reason: CloseReason::MissedHandshake },
        ),
        (SessionState::Handshaking, SessionEvent::ConnectionGone) => (
            SessionState::Closed,
            SessionAction::SendErrorAndClose { reason: CloseReason::MissedHandshake },
        ),
        (SessionState::Streaming, SessionEvent::Frame { payload }) => {
            if payload@ == disconnect_word() {
                (SessionState::Disconnecting, SessionAction::SendFarewell)
            } else {
                (SessionState::Streaming, SessionAction::Continue)
            }
        },
        (SessionState::Streaming, SessionEvent::NonDataFrame) => (
            SessionState::Streaming,
            SessionAction::Continue,
        ),
        (SessionState::Disconnecting, SessionEvent::FarewellSent) => (
            SessionState::Closed,
            SessionAction::Close,
        ),
        _ => (SessionState::Closed, SessionAction::Close),
    }
}

/// Takes one protocol step, as `session_step_spec` states.
pub fn session_step(state: SessionState, event: &SessionEvent) -> (r: (
    SessionState,
    SessionAction,
))
    ensures
        r == session_step_spec(state, *event),
{
    match (state, event) {
        (SessionState::Handshaking, SessionEvent::InitialData { payload }) => {
            match Event::parse(payload.as_slice()) {
                Ok(Event::Connect) => (
                    SessionState::Streaming,
                    SessionAction::Replay { resume_id: None },
                ),
                Ok(Event::Resume { score_id }) => (
                    SessionState::Streaming,
                    SessionAction::Replay { resume_id: Some(score_id) },
                ),
                Err(_) => (
                    SessionState::Closed,
                    SessionAction::SendErrorAndClose { reason: CloseReason::BadPayload },
                ),
            }
        },
        (SessionState::Handshaking, SessionEvent::InitialNonData) => (
            SessionState::Closed,
            SessionAction::SendErrorAndClose { reason: CloseReason::NoData },
        ),
        (SessionState::Handshaking, SessionEvent::InitialTimeout) => (
            SessionState::Closed,
            SessionAction::SendErrorAndClose { reason: CloseReason::MissedHandshake },
        ),
        (SessionState::Handshaking, SessionEvent::ConnectionGone) => (
            SessionState::Closed,
            SessionAction::SendErrorAndClose { reason: CloseReason::MissedHandshake },
        ),
        (SessionState::Streaming, SessionEvent::Frame { payload }) => {
            if crate::event::is_disconnect(payload.as_slice()) {
                (SessionState::Disconnecting, SessionAction::SendFarewell)
            } else {
                (SessionState::Streaming, SessionAction::Continue)
            }
        },
        (SessionState::Streaming, SessionEvent::NonDataFrame) => (
            SessionState::Streaming,
            SessionAction::Continue,
        ),
        (SessionState::Disconnecting, SessionEvent::FarewellSent) => (
            SessionState::Closed,
            SessionAction::Close,
        ),
        _ => (SessionState::Closed, SessionAction::Close),
    }
}

/// The actions a whole run of events asks for, in order.
pub open spec fn session_actions(state: SessionState, events: Seq<SessionEvent>) -> Seq<
    SessionAction,
>
    decreases events.len(),
{
    if events.len() == 0 {
        Seq::empty()
    } else {
        let step = session_step_spec(state, events.first());
        seq![step.1] + session_actions(step.0, events.drop_first())
    }
}

/// How many farewell frames a run of actions asks for.
pub open spec fn farewell_count(acts: Seq<SessionAction>) -> int
    decreases acts.len(),
{
    if acts.len() == 0 {
        0
    } else {
        (if acts.first() is SendFarewell {
            1int
        } else {
            0int
        }) + farewell_count(acts.drop_first())
    }
}

/// Law: the disconnect handshake answers with at most one farewell
/// frame.  However a connection's events unfold, the machine asks for
/// the farewell at most once, and only for a streaming connection that
/// received the word `disconnect`.
pub proof fn lemma_at_most_one_farewell(events: Seq<SessionEvent>)
    ensures
        farewell_count(session_actions(SessionState::Handshaking, events)) <= 1,
{
    lemma_farewell_bound(SessionState::Handshaking, events);
}

proof fn lemma_farewell_bound(state: SessionState, events: Seq<SessionEvent>)
    ensures
        farewell_count(session_actions(state, events)) <= (
        match state {
            SessionState::Disconnecting => 0int,
            SessionState::Closed => 0int,
            _ => 1int,
        }),
    decreases events.len(),
{
    if events.len() > 0 {
        let step = session_step_spec(state, events.first());
        lemma_farewell_bound(step.0, events.drop_first());
        let acts = session_actions(state, events);
        assert(acts.first() == step.1);
        assert(acts.drop_first() =~= session_actions(step.0, events.drop_first()));
        if step.1 is SendFarewell {
            assert(state == SessionState::Streaming && step.0 == SessionState::Disconnecting);
        }
    }
}

} // verus!
