//! The session handshake and small shared helpers.

use scores_ws::config::Config;
use scores_ws::digits::u64_to_dec;
use scores_ws::event::{is_disconnect, Event, EventError};
use scores_ws::session::{session_step, CloseReason, SessionAction, SessionEvent, SessionState};
use scores_ws::Setup;

#[test]
fn handshake_connect() {
    assert_eq!(Event::parse(b"connect"), Ok(Event::Connect));
}

#[test]
fn handshake_resume() {
    assert_eq!(Event::parse(b"12345"), Ok(Event::Resume { score_id: 12345 }));
    assert_eq!(Event::parse(b"1 2 3"), Ok(Event::Resume { score_id: 123 }));
    assert_eq!(Event::parse(b" 42 "), Ok(Event::Resume { score_id: 42 }));
}

#[test]
fn handshake_rejections() {
    assert_eq!(Event::parse(b"connect!"), Err(EventError::Bytes));
    assert_eq!(Event::parse(b""), Err(EventError::Bytes));
    assert_eq!(Event::parse(b"   "), Err(EventError::Bytes));
    assert_eq!(Event::parse(b"12a"), Err(EventError::Bytes));
}

#[test]
fn parse_score_id_digits_and_spaces() {
    assert_eq!(Event::parse_score_id(b"908"), Some(908));
    assert_eq!(Event::parse_score_id(b"9 0 8"), Some(908));
    assert_eq!(Event::parse_score_id(b"x908"), None);
    assert_eq!(Event::parse_score_id(b""), None);
}

#[test]
fn error_messages() {
    assert_eq!(
        EventError::Bytes.message(),
        "message must be either `\"connect\"` \r a score id to resume from"
    );
    assert_eq!(EventError::Variant.message(), "message must contain text data");
}

#[test]
fn disconnect_word() {
    assert!(is_disconnect(b"disconnect"));
    assert!(!is_disconnect(b"disconnect "));
    assert!(!is_disconnect(b"connect"));
}

#[test]
fn session_handshake_transitions() {
    let connect = SessionEvent::InitialData {
        payload: b"connect".to_vec(),
    };
    assert_eq!(
        session_step(SessionState::Handshaking, &connect),
        (SessionState::Streaming, SessionAction::Replay { resume_id: None })
    );

    let resume = SessionEvent::InitialData {
        payload: b"908".to_vec(),
    };
    assert_eq!(
        session_step(SessionState::Handshaking, &resume),
        (
            SessionState::Streaming,
            SessionAction::Replay {
                resume_id: Some(908)
            }
        )
    );

    let garbage = SessionEvent::InitialData {
        payload: b"hello".to_vec(),
    };
    assert_eq!(
        session_step(SessionState::Handshaking, &garbage),
        (
            SessionState::Closed,
            SessionAction::SendErrorAndClose {
                reason: CloseReason::BadPayload
            }
        )
    );

    assert_eq!(
        session_step(SessionState::Handshaking, &SessionEvent::InitialNonData),
        (
            SessionState::Closed,
            SessionAction::SendErrorAndClose {
                reason: CloseReason::NoData
            }
        )
    );

    assert_eq!(
        session_step(SessionState::Handshaking, &SessionEvent::InitialTimeout),
        (
            SessionState::Closed,
            SessionAction::SendErrorAndClose {
                reason: CloseReason::MissedHandshake
            }
        )
    );

    assert_eq!(
        session_step(SessionState::Handshaking, &SessionEvent::ConnectionGone),
        (
            SessionState::Closed,
            SessionAction::SendErrorAndClose {
                reason: CloseReason::MissedHandshake
            }
        )
    );
}

#[test]
fn session_disconnect_sends_exactly_one_farewell() {
    let disconnect = SessionEvent::Frame {
        payload: b"disconnect".to_vec(),
    };
    let (st, act) = session_step(SessionState::Streaming, &disconnect);
    assert_eq!(st, SessionState::Disconnecting);
    assert_eq!(act, SessionAction::SendFarewell);

    let (st, act) = session_step(st, &SessionEvent::FarewellSent);
    assert_eq!(st, SessionState::Closed);
    assert_eq!(act, SessionAction::Close);

    let again = SessionEvent::Frame {
        payload: b"disconnect".to_vec(),
    };
    assert_eq!(session_step(st, &again), (SessionState::Closed, SessionAction::Close));
}

#[test]
fn session_relays_ordinary_frames() {
    let chatter = SessionEvent::Frame {
        payload: b"anything".to_vec(),
    };
    assert_eq!(
        session_step(SessionState::Streaming, &chatter),
        (SessionState::Streaming, SessionAction::Continue)
    );
    assert_eq!(
        session_step(SessionState::Streaming, &SessionEvent::NonDataFrame),
        (SessionState::Streaming, SessionAction::Continue)
    );
    assert_eq!(
        session_step(SessionState::Streaming, &SessionEvent::OutboundClosed),
        (SessionState::Closed, SessionAction::Close)
    );
}

#[test]
fn decimal_formatting() {
    assert_eq!(u64_to_dec(0), b"0".to_vec());
    assert_eq!(u64_to_dec(7), b"7".to_vec());
    assert_eq!(u64_to_dec(1200), b"1200".to_vec());
    assert_eq!(u64_to_dec(u64::MAX), b"18446744073709551615".to_vec());
}

#[test]
fn config_defaults() {
    assert_eq!(Setup::default_log(), "info");
    assert_eq!(Setup::default_port(), 7277);
    assert_eq!(Setup::default_interval(), 60);
    assert_eq!(Setup::default_history_length(), 100_000);
}

#[test]
fn config_valid_strings() {
    let levels = ["info", "warn", "error", "debug", "trace", "off"];
    assert!(Config::assert_valid_str("info", &levels));
    assert!(Config::assert_valid_str("off", &levels));
    assert!(!Config::assert_valid_str("verbose", &levels));

    let rulesets = ["osu", "taiko", "fruits", "mania"];
    assert!(Config::assert_valid_str("mania", &rulesets));
    assert!(!Config::assert_valid_str("catch", &rulesets));
}
