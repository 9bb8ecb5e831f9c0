use game_time_tracker::commands::{
    add_game, check_orphaned, delete_session, orphaned_sessions, parse_session_datetime,
    forget_game_sessions, forget_open_session, prepare_session, remove_game, remove_orphaned_sessions, session_from_input, update_game,
    update_session,
};
use game_time_tracker::keyed::StrMap;
use game_time_tracker::models::{Game, Session, SessionLog, State};
use game_time_tracker::summary::{form_add_game, hours_minutes, total_play_secs};
use game_time_tracker::time::Timestamp;

fn game(id: &str, name: &str, exe: &str) -> Game {
    Game { id: id.to_string(), name: name.to_string(), executable: exe.to_string() }
}

fn ts(secs: i64) -> Timestamp {
    Timestamp { secs, nanos: 0 }
}

#[test]
fn add_game_validates_in_order() {
    let mut games = vec![game("minecraft", "Minecraft", "javaw.exe")];
    assert_eq!(add_game(&mut games, "  ", "x.exe"), Err("All fields must be filled out".to_string()));
    let long = "a".repeat(101);
    assert_eq!(add_game(&mut games, &long, "x.exe"), Err("Name must be at most 100 characters".to_string()));
    let long_exe = format!("{}.exe", "b".repeat(97));
    assert_eq!(
        add_game(&mut games, "Game", &long_exe),
        Err("Executable must be at most 100 characters".to_string())
    );
    assert_eq!(
        add_game(&mut games, "!!!", "x.exe"),
        Err("Name must contain alphanumeric characters".to_string())
    );
    assert_eq!(add_game(&mut games, " Minecraft ", "other.exe"), Err("Game already exists".to_string()));
    assert_eq!(
        add_game(&mut games, "Other", "JAVAW.EXE"),
        Err("Executable already tracked for another game".to_string())
    );
    assert_eq!(
        add_game(&mut games, "Other", "bin/other.exe"),
        Err("Executable name contains invalid characters".to_string())
    );
    assert_eq!(add_game(&mut games, "Other", "other"), Err("Executable must have .exe extension".to_string()));
    assert_eq!(games.len(), 1);
    assert_eq!(add_game(&mut games, " Elden Ring ", " eldenring.EXE "), Ok(()));
    assert_eq!(games.len(), 2);
    assert_eq!(games[1].id, "elden-ring");
    assert_eq!(games[1].name, "Elden Ring");
    assert_eq!(games[1].executable, "eldenring.EXE");
}

#[test]
fn update_game_keeps_id_and_checks_other_games() {
    let mut games = vec![game("a", "A", "a.exe"), game("b", "B", "b.exe")];
    assert_eq!(update_game(&mut games, "zzz", "N", "n.exe"), Err("Game not found".to_string()));
    assert_eq!(
        update_game(&mut games, "a", "New A", "B.EXE"),
        Err("Executable already tracked for another game".to_string())
    );
    assert_eq!(
        update_game(&mut games, "a", "New A", "a:.exe"),
        Err("Executable name contains invalid characters".to_string())
    );
    // Keeping its own executable is allowed.
    assert_eq!(update_game(&mut games, "a", " New A ", "A.exe"), Ok(()));
    assert_eq!(games[0].id, "a");
    assert_eq!(games[0].name, "New A");
    assert_eq!(games[0].executable, "A.exe");
    assert_eq!(games[1].name, "B");
}

#[test]
fn remove_game_drops_every_game_with_the_id() {
    let mut games = vec![game("a", "A", "a.exe"), game("b", "B", "b.exe"), game("a", "A2", "c.exe")];
    assert_eq!(remove_game(&mut games, "x"), Err("Game not found".to_string()));
    assert_eq!(games.len(), 3);
    assert_eq!(remove_game(&mut games, "a"), Ok(()));
    assert_eq!(games.len(), 1);
    assert_eq!(games[0].id, "b");
}

fn log_with(entries: &[(&str, Vec<Session>)]) -> SessionLog {
    let mut log: SessionLog = StrMap::new();
    for (k, v) in entries {
        log.insert(k.to_string(), v.clone());
    }
    log
}

fn closed(a: i64, b: i64) -> Session {
    Session { start: ts(a), end: Some(ts(b)), duration_secs: (b - a) as u64 }
}

#[test]
fn parse_errors_carry_the_text_and_reason() {
    let e = parse_session_datetime("yesterday").unwrap_err();
    assert!(e.starts_with("Invalid datetime 'yesterday': "), "{e}");
    assert_eq!(parse_session_datetime("1970-01-01T00:01:40Z"), Ok(ts(100)));
    assert_eq!(
        parse_session_datetime("2026-02-28T15:00:00.5+01:00"),
        Ok(Timestamp { secs: 1_772_287_200, nanos: 500_000_000 })
    );
}

#[test]
fn sessions_from_input() {
    assert_eq!(
        session_from_input("1970-01-01T00:00:10Z", Some("1970-01-01T00:01:10Z")),
        Ok(closed(10, 70))
    );
    assert_eq!(
        session_from_input("1970-01-01T00:00:10Z", Some("   ")),
        Ok(Session { start: ts(10), end: None, duration_secs: 0 })
    );
    assert_eq!(
        session_from_input("1970-01-01T00:00:10Z", Some("1970-01-01T00:00:09Z")),
        Err("End time must be after start time".to_string())
    );
    assert!(session_from_input("1970-01-01T00:00:10Z", Some("nope")).unwrap_err().starts_with("Invalid datetime 'nope'"));
}

#[test]
fn update_and_delete_sessions() {
    let mut log = log_with(&[("a", vec![closed(0, 10), closed(20, 30)])]);
    assert_eq!(
        update_session(&mut log, "b", 0, "1970-01-01T00:00:00Z", None),
        Err("No sessions for this game".to_string())
    );
    assert_eq!(
        update_session(&mut log, "a", 2, "1970-01-01T00:00:00Z", None),
        Err("Session index out of bounds".to_string())
    );
    assert_eq!(update_session(&mut log, "a", 1, "1970-01-01T00:00:20Z", Some("1970-01-01T00:01:00Z")), Ok(()));
    assert_eq!(log.get("a").unwrap()[1], closed(20, 60));
    assert_eq!(delete_session(&mut log, "a", 5), Err("Session index out of bounds".to_string()));
    assert_eq!(delete_session(&mut log, "a", 0), Ok(()));
    assert_eq!(log.get("a").unwrap().len(), 1);
    assert_eq!(delete_session(&mut log, "a", 0), Ok(()));
    assert!(!log.contains_key("a"));
    assert_eq!(delete_session(&mut log, "a", 0), Err("No sessions for this game".to_string()));
}

#[test]
fn adding_sessions_and_orphans() {
    let games = vec![game("a", "A", "a.exe")];
    assert_eq!(
        prepare_session(&games, "b", "1970-01-01T00:00:00Z", None),
        Err("Game not found".to_string())
    );
    assert_eq!(
        prepare_session(&games, "a", "1970-01-01T00:00:00Z", Some("1970-01-01T00:00:05Z")),
        Ok(closed(0, 5))
    );
    let log = log_with(&[("a", vec![closed(0, 1)]), ("gone", vec![closed(2, 3)])]);
    let orphans = orphaned_sessions(log, &games);
    assert_eq!(orphans.len(), 1);
    assert!(orphans.contains_key("gone"));

    assert_eq!(
        check_orphaned(&games, "a"),
        Err("Cannot delete sessions for an active game — remove the game first".to_string())
    );
    assert_eq!(check_orphaned(&games, "gone"), Ok(()));
    let mut log = log_with(&[("gone", vec![closed(2, 3)])]);
    assert_eq!(remove_orphaned_sessions(&mut log, "gone"), Ok(()));
    assert_eq!(
        remove_orphaned_sessions(&mut log, "gone"),
        Err("No orphaned sessions found for this game".to_string())
    );
}

#[test]
fn play_time_totals() {
    let s = vec![closed(0, 3600), closed(0, 1800)];
    assert_eq!(total_play_secs(&s, None, ts(0)), 5400);
    let active = Session { start: ts(100), end: None, duration_secs: 0 };
    assert_eq!(total_play_secs(&s, Some(&active), ts(160)), 5460);
    assert_eq!(total_play_secs(&s, Some(&active), ts(50)), 5400);
    assert_eq!(hours_minutes(5460), (1, 31));
    assert_eq!(hours_minutes(59), (0, 0));
}

#[test]
fn window_form_adds_games() {
    let mut games = vec![game("minecraft", "Minecraft", "javaw.exe")];
    assert_eq!(form_add_game(&mut games, "", "x"), Err("All fields must be filled out.".to_string()));
    assert_eq!(form_add_game(&mut games, "Minecraft", "x"), Err("Game already exists.".to_string()));
    assert_eq!(form_add_game(&mut games, "Portal", "portal"), Ok(()));
    assert_eq!(games[1].id, "portal");
}

#[test]
fn removing_a_game_forgets_its_sessions_and_open_session() {
    let closed = Session { start: ts(10), end: Some(ts(20)), duration_secs: 10 };
    let mut log: SessionLog = StrMap::new();
    log.insert("gone".to_string(), vec![closed]);
    log.insert("kept".to_string(), vec![closed, closed]);
    assert!(forget_game_sessions(&mut log, "gone"));
    assert!(!log.contains_key("gone"));
    assert_eq!(log.get("kept").map(|v| v.len()), Some(2));
    assert_eq!(log.len(), 1);
    assert!(!forget_game_sessions(&mut log, "gone"));
    assert_eq!(log.len(), 1);

    let open = Session { start: ts(30), end: None, duration_secs: 0 };
    let mut state = State::default();
    state.active_sessions.insert("gone".to_string(), open);
    state.active_sessions.insert("kept".to_string(), open);
    state.last_seen = Some(ts(40));
    assert!(forget_open_session(&mut state, "gone"));
    assert!(!state.active_sessions.contains_key("gone"));
    assert_eq!(state.active_sessions.get("kept"), Some(&open));
    assert_eq!(state.last_seen, Some(ts(40)));
    assert!(!forget_open_session(&mut state, "missing"));
    assert_eq!(state.active_sessions.len(), 1);
}
