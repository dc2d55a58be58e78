//! The byte scanner, walked from both ends.

use scores_ws::osu::{Score, ScoreId, Scores};

const SCORES: &[u8] = br#"
[
    {"id": 123},
    {"id":456, "user": {"id": 2}},
    {"user": {"id":2}, "id": 789},
    {"user": {"id": 2}}
]"#;

fn check(score: Option<Score>, bytes: &[u8], id: Option<u64>) {
    let score = score.unwrap();
    assert_eq!(score.as_bytes(), bytes);
    assert_eq!(score.id.map(|s| s.0), id);
}

#[test]
fn scores_iter_forward() {
    let scores = Scores::new(SCORES.to_vec());
    let mut iter = scores.iter();

    check(iter.next(), br#"{"id": 123}"#, Some(123));
    check(iter.next(), br#"{"id":456, "user": {"id": 2}}"#, Some(456));
    check(iter.next(), br#"{"user": {"id":2}, "id": 789}"#, Some(789));
    check(iter.next(), br#"{"user": {"id": 2}}"#, None);
    assert!(iter.next().is_none());
}

#[test]
fn scores_iter_backward() {
    let scores = Scores::new(SCORES.to_vec());
    let mut iter = scores.iter();

    check(iter.next_back(), br#"{"user": {"id": 2}}"#, None);
    check(iter.next_back(), br#"{"user": {"id":2}, "id": 789}"#, Some(789));
    check(iter.next_back(), br#"{"id":456, "user": {"id": 2}}"#, Some(456));
    check(iter.next_back(), br#"{"id": 123}"#, Some(123));
    assert!(iter.next_back().is_none());
}

#[test]
fn forward_is_reverse_of_backward() {
    let scores = Scores::new(SCORES.to_vec());
    let mut fwd = Vec::new();
    let mut iter = scores.iter();
    while let Some(sc) = iter.next() {
        fwd.push((sc.as_bytes().to_vec(), sc.id.map(|s| s.0)));
    }
    let mut back = Vec::new();
    let mut iter = scores.iter();
    while let Some(sc) = iter.next_back() {
        back.push((sc.as_bytes().to_vec(), sc.id.map(|s| s.0)));
    }
    back.reverse();
    assert_eq!(fwd, back);
    assert_eq!(fwd.len(), 4);
}

#[test]
fn both_ends_interleaved() {
    let scores = Scores::new(SCORES.to_vec());
    let mut iter = scores.iter();
    check(iter.next(), br#"{"id": 123}"#, Some(123));
    check(iter.next_back(), br#"{"user": {"id": 2}}"#, None);
    check(iter.next(), br#"{"id":456, "user": {"id": 2}}"#, Some(456));
    check(iter.next_back(), br#"{"user": {"id":2}, "id": 789}"#, Some(789));
    assert!(iter.next().is_none());
    assert!(iter.next_back().is_none());
}

#[test]
fn last_record() {
    let scores = Scores::new(SCORES.to_vec());
    let last = scores.last().unwrap();
    assert_eq!(last.as_bytes(), br#"{"user": {"id": 2}}"#);
    assert!(last.id.is_none());

    let empty = Scores::new(b"[]".to_vec());
    assert!(empty.last().is_none());
}

#[test]
fn iter_last_is_backmost() {
    let scores = Scores::new(SCORES.to_vec());
    let last = scores.iter().last().unwrap();
    assert_eq!(last.as_bytes(), br#"{"user": {"id": 2}}"#);
}

#[test]
fn unbalanced_input_yields_short_sequence() {
    let scores = Scores::new(br#"[{"id": 1}, {"id": 2"#.to_vec());
    let mut iter = scores.iter();
    check(iter.next(), br#"{"id": 1}"#, Some(1));
    assert!(iter.next().is_none());
}

#[test]
fn try_parse_ids() {
    assert_eq!(ScoreId::try_parse(b"123"), Some(ScoreId(123)));
    assert_eq!(ScoreId::try_parse(b"  42,"), Some(ScoreId(42)));
    assert_eq!(ScoreId::try_parse(b"9}"), Some(ScoreId(9)));
    assert_eq!(ScoreId::try_parse(b"abc"), None);
    assert_eq!(ScoreId::try_parse(b""), None);
}
