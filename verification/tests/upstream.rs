//! Fetch-engine decisions and token handling.

use scores_ws::osu::authorization::{AuthError, Authorization};
use scores_ws::osu::client::{
    classify_scores_response, classify_token_response, next_backoff, scores_url,
    token_request_body, FetchResult, ScoresStep, TokenStep,
};

#[test]
fn scores_url_forms() {
    assert_eq!(scores_url(None, None), b"https://osu.ppy.sh/api/v2/scores".to_vec());
    let ruleset = b"taiko".to_vec();
    assert_eq!(
        scores_url(Some(&ruleset), None),
        b"https://osu.ppy.sh/api/v2/scores?ruleset=taiko".to_vec()
    );
    assert_eq!(
        scores_url(None, Some(12345)),
        b"https://osu.ppy.sh/api/v2/scores?cursor[id]=12345".to_vec()
    );
    assert_eq!(
        scores_url(Some(&ruleset), Some(7)),
        b"https://osu.ppy.sh/api/v2/scores?ruleset=taiko&cursor[id]=7".to_vec()
    );
}

#[test]
fn token_body_form() {
    let secret = b"SECRET-REDACTED".to_vec();
    let mut expected = b"client_id=42&client_secret=".to_vec();
    expected.extend_from_slice(b"SECRET-REDACTED");
    expected.extend_from_slice(b"&grant_type=client_credentials&scope=public");
    assert_eq!(token_request_body(42, &secret), expected);
}

#[test]
fn single_reauthorization_then_fatal() {
    // the first 401 reauthorizes; a 401 on the retried call is fatal
    assert_eq!(classify_scores_response(401, b"", false), ScoresStep::Reauthorize);
    assert_eq!(classify_scores_response(401, b"", true), ScoresStep::FatalAfterReauth);
}

#[test]
fn scores_response_dispatch() {
    assert_eq!(classify_scores_response(200, b"{}", false), ScoresStep::Parse);
    let stale = br#"{"error":"cursor is too old"}"#;
    assert_eq!(classify_scores_response(422, stale, false), ScoresStep::CursorTooOld);
    assert_eq!(classify_scores_response(422, b"{}", false), ScoresStep::FatalStatus);
    assert_eq!(classify_scores_response(429, b"", false), ScoresStep::FatalRateLimited);
    assert_eq!(classify_scores_response(503, b"", false), ScoresStep::FatalUnavailable);
    assert_eq!(classify_scores_response(500, b"", false), ScoresStep::FatalStatus);
}

#[test]
fn token_response_dispatch() {
    assert_eq!(classify_token_response(200), TokenStep::Store);
    assert_eq!(classify_token_response(401), TokenStep::FatalUnauthorized);
    assert_eq!(classify_token_response(429), TokenStep::FatalRateLimited);
    assert_eq!(classify_token_response(503), TokenStep::FatalUnavailable);
    assert_eq!(classify_token_response(418), TokenStep::FatalStatus);
}

#[test]
fn backoff_doubles_and_caps() {
    assert_eq!(next_backoff(2), 4);
    assert_eq!(next_backoff(4), 8);
    assert_eq!(next_backoff(64), 120);
    assert_eq!(next_backoff(120), 120);
}

#[test]
fn fetch_result_default_is_ok() {
    assert!(matches!(FetchResult::default(), FetchResult::Fetched));
}

#[test]
fn authorization_starts_empty() {
    let auth = Authorization::default();
    assert_eq!(auth.as_bytes(), b"");
}

#[test]
fn authorization_parse_stores_bearer_token() {
    let mut auth = Authorization::default();
    let body = br#"{"token_type":"Bearer","expires_in":86400,"access_token":"abc123xyz"}"#;
    auth.parse(body).unwrap();
    assert_eq!(auth.as_bytes(), b"Bearer abc123xyz");
}

#[test]
fn authorization_parse_errors() {
    let mut auth = Authorization::default();
    assert_eq!(auth.parse(br#"{"expires_in":86400}"#), Err(AuthError::MissingToken));
    assert_eq!(auth.parse(br#"{"access_token": 42}"#), Err(AuthError::MissingQuotes));
    assert_eq!(auth.as_bytes(), b"");
}

#[test]
fn authorization_rejects_invalid_utf8_token() {
    let mut auth = Authorization::default();
    auth.parse(br#"{"access_token":"before"}"#).unwrap();

    let mut body = br#"{"access_token":""#.to_vec();
    body.push(0xff);
    body.extend_from_slice(br#""}"#);
    assert_eq!(auth.parse(&body), Err(AuthError::InvalidUtf8));
    assert_eq!(auth.as_bytes(), b"Bearer before");

    let mut truncated = br#"{"access_token":""#.to_vec();
    truncated.extend_from_slice(&[0xe2, 0x82]);
    truncated.extend_from_slice(br#""}"#);
    assert_eq!(auth.parse(&truncated), Err(AuthError::InvalidUtf8));

    let mut overlong = br#"{"access_token":""#.to_vec();
    overlong.extend_from_slice(&[0xc0, 0xaf]);
    overlong.extend_from_slice(br#""}"#);
    assert_eq!(auth.parse(&overlong), Err(AuthError::InvalidUtf8));

    let mut multibyte = br#"{"access_token":""#.to_vec();
    multibyte.extend_from_slice("tök€𝄞".as_bytes());
    multibyte.extend_from_slice(br#""}"#);
    auth.parse(&multibyte).unwrap();
    let mut expected = b"Bearer ".to_vec();
    expected.extend_from_slice("tök€𝄞".as_bytes());
    assert_eq!(auth.as_bytes(), expected);
}
