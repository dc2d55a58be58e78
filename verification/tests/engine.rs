//! The history and broadcast engine, tick by tick.

use scores_ws::config::Setup;
use scores_ws::context::Context;
use scores_ws::osu::scores::Score;

fn setup(history_length: usize, resume_score_id: Option<u64>) -> Setup {
    Setup {
        log: Setup::default_log(),
        port: Setup::default_port(),
        interval: Setup::default_interval(),
        history_length,
        resume_score_id,
    }
}

fn payload(ids: &[u64]) -> Vec<u8> {
    let mut out = b"{\"scores\": [".to_vec();
    for (i, id) in ids.iter().enumerate() {
        if i > 0 {
            out.extend_from_slice(b", ");
        }
        out.extend_from_slice(format!("{{\"id\": {id}}}").as_bytes());
    }
    out.extend_from_slice(b"], \"cursor\": {\"id\": 1}}");
    out
}

#[test]
fn history_is_bounded_and_keeps_greatest() {
    let mut ctx = Context::new(&setup(3, None));
    ctx.ingest(&payload(&[10, 20, 30, 40, 50])).unwrap();
    ctx.merge_batch();

    let retained: Vec<u64> = ctx.replay(None).iter().map(Score::id).collect();
    assert_eq!(retained, vec![30, 40, 50]);

    ctx.ingest(&payload(&[60, 5])).unwrap();
    ctx.merge_batch();
    let retained: Vec<u64> = ctx.replay(None).iter().map(Score::id).collect();
    assert_eq!(retained, vec![40, 50, 60]);
}

#[test]
fn merge_dedups_against_history() {
    let mut ctx = Context::new(&setup(10, None));
    ctx.ingest(&payload(&[1, 2])).unwrap();
    ctx.merge_batch();
    ctx.ingest(&payload(&[2, 3])).unwrap();
    ctx.merge_batch();
    let retained: Vec<u64> = ctx.replay(None).iter().map(Score::id).collect();
    assert_eq!(retained, vec![1, 2, 3]);
}

#[test]
fn replay_from_resume_id() {
    let mut ctx = Context::new(&setup(100, None));
    ctx.ingest(&payload(&[10, 20, 30, 40])).unwrap();
    ctx.merge_batch();

    let ids: Vec<u64> = ctx.replay(Some(20)).iter().map(Score::id).collect();
    assert_eq!(ids, vec![30, 40]);
    let ids: Vec<u64> = ctx.replay(Some(15)).iter().map(Score::id).collect();
    assert_eq!(ids, vec![20, 30, 40]);
    let ids: Vec<u64> = ctx.replay(Some(40)).iter().map(Score::id).collect();
    assert!(ids.is_empty());
}

#[test]
fn broadcast_is_batch_beyond_previous_cursor() {
    let mut ctx = Context::new(&setup(100, Some(25)));
    let prev = ctx.cursor_id();
    assert_eq!(prev, Some(25));
    ctx.ingest(&payload(&[10, 20, 30, 40])).unwrap();
    let sent: Vec<u64> = ctx.compute_broadcast(prev).iter().map(Score::id).collect();
    assert_eq!(sent, vec![30, 40]);
    let all: Vec<u64> = ctx.compute_broadcast(None).iter().map(Score::id).collect();
    assert_eq!(all, vec![10, 20, 30, 40]);
}

#[test]
fn deepening_terminates_within_three_extra_fetches() {
    // A synthetic upstream: each fetch moves the smallest seen id down,
    // closing the gap below the threshold within three rounds.
    let mut ctx = Context::new(&setup(100_000, Some(10_000)));
    let pages: [&[u64]; 4] = [&[7_000, 7_500], &[5_200, 5_900], &[4_500, 4_800], &[4_400]];

    let mut extra_fetches = 0;
    ctx.ingest(&payload(pages[0])).unwrap();
    let mut next = ctx.deepen_step();
    while let Some(cursor) = next {
        extra_fetches += 1;
        assert!(extra_fetches <= 3);
        // the synthetic upstream answers the cursor with the next page
        assert!(ctx.cursor_id() == Some(cursor));
        ctx.ingest(&payload(pages[extra_fetches])).unwrap();
        next = ctx.deepen_step();
    }

    // 10000 -> 7000 (gap 3000), 7000 -> 5200 (gap 1800), 5200 -> 4500
    // (gap 700): two extra fetches, the third page never needed.
    assert_eq!(extra_fetches, 2);
    assert_eq!(ctx.cursor_id(), Some(4_500));
}

#[test]
fn deepening_stops_without_cursor() {
    let mut ctx = Context::new(&setup(100, None));
    ctx.ingest(&payload(&[1_000, 9_000])).unwrap();
    assert_eq!(ctx.deepen_step(), None);
    assert_eq!(ctx.cursor_id(), Some(1_000));
}

#[test]
fn deepening_clears_cursor_on_empty_batch() {
    let mut ctx = Context::new(&setup(100, Some(5)));
    assert_eq!(ctx.deepen_step(), None);
    assert_eq!(ctx.cursor_id(), None);
}

#[test]
fn stale_cursor_retries_once_with_cursor_set() {
    let mut ctx = Context::new(&setup(100, Some(42)));
    assert!(ctx.on_stale_cursor());
    assert_eq!(ctx.cursor_id(), None);
    assert!(!ctx.on_stale_cursor());
}

#[test]
fn disconnect_reply_is_greatest_id() {
    let mut ctx = Context::new(&setup(100, None));
    assert_eq!(ctx.disconnect_reply(), b"0".to_vec());
    ctx.ingest(&payload(&[3, 123, 77])).unwrap();
    ctx.merge_batch();
    assert_eq!(ctx.disconnect_reply(), b"123".to_vec());
}
