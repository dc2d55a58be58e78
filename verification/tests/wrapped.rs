//! The wrapped-form parser and the record set.

use scores_ws::osu::scores::{DeserializeError, Score, Scores, ScoresDeserializer};

const SCORES: &[u8] = br#"{"scores": [{"id": 123}, {"id":456, "user": {"id": 2}}, {"user": {"id":2}, "id": 789}], "cursor": {"a":true, "b": false, "c": null, "d": 0123, "e": [true, false, null, 0123, [], {}, "abc"], "f": {}, "g": "abc"}, "cursor_string": "abc"}"#;

fn parse(payload: &[u8]) -> Result<Scores, DeserializeError> {
    let mut scores = Scores::new();
    ScoresDeserializer::new(payload.to_vec()).deserialize(&mut scores)?;
    Ok(scores)
}

fn drain(mut scores: Scores) -> Vec<(Vec<u8>, u64)> {
    let mut out = Vec::new();
    while !scores.is_empty() {
        let first = scores.first().unwrap();
        out.push((first.as_bytes().to_vec(), first.id()));
        scores.pop_first();
    }
    out
}

#[test]
fn deserialize() {
    let scores = parse(SCORES).unwrap();
    let records = drain(scores);

    assert_eq!(records.len(), 3);
    assert_eq!(records[0], (br#"{"id": 123}"#.to_vec(), 123));
    assert_eq!(records[1], (br#"{"id":456, "user": {"id": 2}}"#.to_vec(), 456));
    assert_eq!(records[2], (br#"{"user": {"id":2}, "id": 789}"#.to_vec(), 789));
}

#[test]
fn cursor_is_ignored() {
    let payload = br#"{"scores":[{"id":123},{"id":456}],"cursor":{"nested":{"id": 1},"list":[{"id": 7}]}}"#;
    let records = drain(parse(payload).unwrap());

    assert_eq!(records.len(), 2);
    assert_eq!(records[0], (br#"{"id":123}"#.to_vec(), 123));
    assert_eq!(records[1], (br#"{"id":456}"#.to_vec(), 456));
}

#[test]
fn cursor_value_never_matters() {
    let array = br#"{"scores":[{"id":123},{"id":456}]"#;
    let tails: [&[u8]; 4] = [
        br#","cursor":{"id": 99}}"#,
        br#","cursor":{"nested":[{"id": 7}, [[]], {"deep":{"id": 8}}]},"cursor_string":"abc"}"#,
        br#",{{{"#,
        b"}",
    ];
    let expected = drain(parse(array).unwrap());
    for tail in tails {
        let mut payload = array.to_vec();
        payload.extend_from_slice(tail);
        assert_eq!(drain(parse(&payload).unwrap()), expected);
    }
}

#[test]
fn empty_array() {
    let scores = parse(br#"{"scores": []}"#).unwrap();
    assert_eq!(scores.len(), 0);
}

#[test]
fn malformed_payloads() {
    assert_eq!(parse(br#"{"cursor": {}}"#).err(), Some(DeserializeError::MissingScores));
    assert_eq!(parse(br#"{"scores": 3}"#).err(), Some(DeserializeError::MissingBracket));
    assert_eq!(parse(br#"{"scores": [3]}"#).err(), Some(DeserializeError::ExpectedObject));
    assert_eq!(parse(br#"{"scores": [{"id": 1"#).err(), Some(DeserializeError::UnbalancedObject));
    assert_eq!(parse(br#"{"scores": [{"id": 1}"#).err(), Some(DeserializeError::MissingSeparator));
    assert_eq!(
        parse(br#"{"scores": [{"id": 1} {"id": 2}]}"#).err(),
        Some(DeserializeError::MissingSeparator)
    );
    assert_eq!(parse(br#"{"scores": [{"user": 2}]}"#).err(), Some(DeserializeError::MissingId));
}

#[test]
fn error_leaves_set_untouched() {
    let mut scores = Scores::new();
    scores.insert(Score::only_id(7));
    let r = ScoresDeserializer::new(br#"{"scores": [{"id": 1}, {"oops": 2}]}"#.to_vec())
        .deserialize(&mut scores);
    assert_eq!(r, Err(DeserializeError::MissingId));
    assert_eq!(scores.len(), 1);
}

#[test]
fn insert_orders_and_dedups() {
    let mut scores = Scores::new();
    scores.insert(Score::only_id(5));
    scores.insert(Score::only_id(1));
    scores.insert(Score::only_id(9));
    scores.insert(Score::only_id(5));
    let records = drain(scores);
    let ids: Vec<u64> = records.iter().map(|r| r.1).collect();
    assert_eq!(ids, vec![1, 5, 9]);
}

#[test]
fn duplicate_id_keeps_first_record() {
    let payload = br#"{"scores": [{"id": 4, "n": 1}, {"id": 4, "n": 2}]}"#;
    let records = drain(parse(payload).unwrap());
    assert_eq!(records.len(), 1);
    assert_eq!(records[0], (br#"{"id": 4, "n": 1}"#.to_vec(), 4));
}

#[test]
fn append_merges_and_prefers_other() {
    let mut a = parse(br#"{"scores": [{"id": 1, "v": "a"}, {"id": 3, "v": "a"}]}"#).unwrap();
    let mut b = parse(br#"{"scores": [{"id": 2, "v": "b"}, {"id": 3, "v": "b"}]}"#).unwrap();
    a.append(&mut b);
    assert_eq!(b.len(), 0);
    let records = drain(a);
    assert_eq!(records.len(), 3);
    assert_eq!(records[0], (br#"{"id": 1, "v": "a"}"#.to_vec(), 1));
    assert_eq!(records[1], (br#"{"id": 2, "v": "b"}"#.to_vec(), 2));
    assert_eq!(records[2], (br#"{"id": 3, "v": "b"}"#.to_vec(), 3));
}

#[test]
fn after_returns_newer_records() {
    let scores = parse(br#"{"scores": [{"id": 10}, {"id": 20}, {"id": 30}]}"#).unwrap();
    let all = scores.after(None);
    assert_eq!(all.len(), 3);
    let newer = scores.after(Some(10));
    let ids: Vec<u64> = newer.iter().map(Score::id).collect();
    assert_eq!(ids, vec![20, 30]);
    let none = scores.after(Some(30));
    assert!(none.is_empty());
}

#[test]
fn first_and_last() {
    let scores = parse(br#"{"scores": [{"id": 10}, {"id": 20}, {"id": 30}]}"#).unwrap();
    assert_eq!(scores.first().unwrap().id(), 10);
    assert_eq!(scores.last().unwrap().id(), 30);
}
