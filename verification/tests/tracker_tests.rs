use game_time_tracker::keyed::StrMap;
use game_time_tracker::models::{Game, Session, SessionLog, State};
use game_time_tracker::time::{session_duration, Timestamp};
use game_time_tracker::tracker::{
    close_session, poll_step, prune_sessions, record_closed_sessions, recover_pending_sessions,
};

fn ts(secs: i64) -> Timestamp {
    Timestamp { secs, nanos: 0 }
}

fn open(secs: i64) -> Session {
    Session { start: ts(secs), end: None, duration_secs: 0 }
}

fn game(id: &str, exe: &str) -> Game {
    Game { id: id.to_string(), name: id.to_string(), executable: exe.to_string() }
}

#[test]
fn test_zombie_session_detection() {
    let mut state = State::default();
    state.active_sessions.insert("removed-game".to_string(), open(1000));
    state.active_sessions.insert("kept-game".to_string(), open(1000));
    let games = vec![game("kept-game", "kept.exe")];
    let out = poll_step(&mut state, &games, &[true], ts(2000));
    let zombie_ids: Vec<String> = out.closed.iter().map(|(id, _)| id.clone()).collect();
    assert_eq!(zombie_ids.len(), 1, "exactly one zombie session expected");
    assert_eq!(zombie_ids[0], "removed-game");
    assert!(
        !zombie_ids.contains(&"kept-game".to_string()),
        "kept-game must not be flagged as zombie"
    );
    assert_eq!(out.closed[0].1.end, Some(ts(2000)));
    assert_eq!(out.closed[0].1.duration_secs, 1000);
    assert!(state.active_sessions.contains_key("kept-game"));
    assert_eq!(state.active_sessions.len(), 1);
    assert_eq!(state.last_seen, Some(ts(2000)));
    assert!(out.state_changed && out.sessions_changed);
}

#[test]
fn poll_step_opens_and_closes_sessions() {
    let mut state = State::default();
    let games = vec![game("a", "a.exe"), game("b", "b.exe")];
    let out = poll_step(&mut state, &games, &[true, false], ts(100));
    assert!(out.closed.is_empty());
    assert!(out.state_changed && !out.sessions_changed);
    assert_eq!(state.active_sessions.get("a"), Some(&open(100)));
    assert!(!state.active_sessions.contains_key("b"));

    // Still running: the open session keeps its start.
    let out = poll_step(&mut state, &games, &[true, false], ts(105));
    assert!(out.closed.is_empty());
    assert_eq!(state.active_sessions.get("a"), Some(&open(100)));
    assert_eq!(state.last_seen, Some(ts(105)));

    // Stopped: closed at now with its length.
    let out = poll_step(&mut state, &games, &[false, false], ts(700));
    assert_eq!(out.closed.len(), 1);
    assert_eq!(out.closed[0].0, "a");
    assert_eq!(
        out.closed[0].1,
        Session { start: ts(100), end: Some(ts(700)), duration_secs: 600 }
    );
    assert!(state.active_sessions.is_empty());
    // Nothing open: last seen stays as it was.
    assert_eq!(state.last_seen, Some(ts(105)));

    // Nothing running, nothing open: nothing to write.
    let out = poll_step(&mut state, &games, &[false, false], ts(3800));
    assert!(!out.state_changed && !out.sessions_changed);
}

#[test]
fn gap_longer_than_ten_minutes_is_not_counted() {
    let mut state = State::default();
    let games = vec![game("a", "a.exe"), game("b", "b.exe")];
    poll_step(&mut state, &games, &[true, true], ts(1000));
    poll_step(&mut state, &games, &[true, true], ts(1005));
    assert_eq!(state.last_seen, Some(ts(1005)));

    // 601 seconds later: both sessions end where the tracker last saw them;
    // the game still running starts afresh now, the other stays closed.
    let out = poll_step(&mut state, &games, &[true, false], ts(1606));
    assert_eq!(out.closed.len(), 2);
    assert_eq!(out.closed[0].0, "a");
    assert_eq!(out.closed[0].1, Session { start: ts(1000), end: Some(ts(1005)), duration_secs: 5 });
    assert_eq!(out.closed[1].0, "b");
    assert_eq!(out.closed[1].1, Session { start: ts(1000), end: Some(ts(1005)), duration_secs: 5 });
    assert_eq!(state.active_sessions.get("a"), Some(&open(1606)));
    assert!(!state.active_sessions.contains_key("b"));
    assert_eq!(state.last_seen, Some(ts(1606)));
    assert!(out.state_changed && out.sessions_changed);
}

#[test]
fn pause_of_exactly_ten_minutes_is_no_gap() {
    let mut state = State::default();
    let games = vec![game("a", "a.exe")];
    poll_step(&mut state, &games, &[true], ts(1000));
    let out = poll_step(&mut state, &games, &[true], ts(1600));
    assert!(out.closed.is_empty());
    assert_eq!(state.active_sessions.get("a"), Some(&open(1000)));
    let out = poll_step(&mut state, &games, &[false], ts(2200));
    assert_eq!(out.closed[0].1, Session { start: ts(1000), end: Some(ts(2200)), duration_secs: 1200 });
}

#[test]
fn recovery_closes_pending_sessions_at_last_seen() {
    let mut state = State::default();
    state.active_sessions.insert("a".to_string(), open(10));
    state.last_seen = Some(ts(70));
    let mut log: SessionLog = StrMap::new();
    log.insert("a".to_string(), vec![Session { start: ts(0), end: Some(ts(5)), duration_secs: 5 }]);
    assert!(recover_pending_sessions(&state, &mut log, ts(1000)));
    let a = log.get("a").unwrap();
    assert_eq!(a.len(), 2);
    assert_eq!(a[1], Session { start: ts(10), end: Some(ts(70)), duration_secs: 60 });

    // Without a last-seen instant, sessions close at now.
    let mut state2 = State::default();
    state2.active_sessions.insert("b".to_string(), open(10));
    assert!(recover_pending_sessions(&state2, &mut log, ts(40)));
    assert_eq!(log.get("b").unwrap()[0].duration_secs, 30);

    // Nothing pending: the log is left alone.
    let empty = State::default();
    assert!(!recover_pending_sessions(&empty, &mut log, ts(40)));
    assert_eq!(log.len(), 2);
}

#[test]
fn prune_keeps_the_newest_hundred_newest_first() {
    let mut log: SessionLog = StrMap::new();
    let many: Vec<Session> = (0..150i64).map(|i| open((i * 37) % 150)).collect();
    let few: Vec<Session> = (0..3i64).map(open).collect();
    log.insert("many".to_string(), many);
    log.insert("few".to_string(), few.clone());
    prune_sessions(&mut log);
    let kept = log.get("many").unwrap();
    assert_eq!(kept.len(), 100);
    for (i, s) in kept.iter().enumerate() {
        assert_eq!(s.start.secs, 149 - i as i64);
    }
    assert_eq!(log.get("few").unwrap(), &few);
}

#[test]
fn closed_sessions_are_appended_under_their_games() {
    let mut log: SessionLog = StrMap::new();
    let closed = vec![
        ("x".to_string(), close_session(open(0), ts(9))),
        ("y".to_string(), close_session(open(1), ts(2))),
    ];
    record_closed_sessions(&mut log, &closed);
    assert_eq!(log.len(), 2);
    assert_eq!(log.get("x").unwrap()[0].duration_secs, 9);
    assert_eq!(log.get("y").unwrap()[0].end, Some(ts(2)));
}

#[test]
fn durations_truncate_and_count_leap_seconds() {
    let a = Timestamp { secs: 100, nanos: 900_000_000 };
    let b = Timestamp { secs: 102, nanos: 100_000_000 };
    assert_eq!(session_duration(a, b), 1);
    // End before start gives zero.
    assert_eq!(session_duration(b, a), 0);
    // A start inside a leap second (23:59:60.5 written as 23:59:59 + 1.5 s).
    let leap = Timestamp { secs: 86_399, nanos: 1_500_000_000 };
    let next_day = Timestamp { secs: 86_400 + 2, nanos: 0 };
    assert_eq!(session_duration(leap, next_day), 1);
    let noon_leap = Timestamp { secs: 43_259, nanos: 1_500_000_000 };
    let later = Timestamp { secs: 43_261, nanos: 0 };
    assert_eq!(session_duration(noon_leap, later), 1);
    // Negative epoch seconds.
    assert_eq!(session_duration(ts(-100), ts(-40)), 60);
}

fn chrono_seconds(a: Timestamp, b: Timestamp) -> u64 {
    let da = chrono::DateTime::from_timestamp(a.secs, a.nanos).unwrap();
    let db = chrono::DateTime::from_timestamp(b.secs, b.nanos).unwrap();
    (db - da).num_seconds().max(0) as u64
}

#[test]
fn durations_agree_with_chrono() {
    let cases = [
        (Timestamp { secs: 86_399, nanos: 1_500_000_000 }, Timestamp { secs: 86_402, nanos: 0 }),
        (Timestamp { secs: 43_259, nanos: 1_500_000_000 }, Timestamp { secs: 43_261, nanos: 0 }),
        (Timestamp { secs: 43_258, nanos: 0 }, Timestamp { secs: 43_259, nanos: 1_999_999_999 }),
        (Timestamp { secs: 10, nanos: 5 }, Timestamp { secs: 1_000_000, nanos: 4 }),
        (Timestamp { secs: 1_000_000, nanos: 4 }, Timestamp { secs: 10, nanos: 5 }),
    ];
    for (a, b) in cases {
        assert_eq!(session_duration(a, b), chrono_seconds(a, b), "{a:?} -> {b:?}");
    }
}
