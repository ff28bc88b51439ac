use back_directory::dirs::DirSnapshot;
use back_directory::event_log::Event;
use back_directory::failure::{store_failure, store_message, Failure};
use back_directory::navigate::{navigate, Visit};
use back_directory::session::{LastJump, SessionState};
use back_directory::store::{
    check_limit, check_steps, CursorResolution, Store, DEFAULT_LIST, MAX_BACK,
};
use back_directory::undo::UndoEntry;

fn event(id: i64, session: &str, path: &str) -> Event {
    Event { id, session_key: session.to_string(), path: path.to_string(), timestamp: id }
}

fn row(session: &str, cursor_id: i64) -> SessionState {
    SessionState {
        session_key: session.to_string(),
        cursor_id,
        last_jump: LastJump { delta: 0, from_id: 0, to_id: 0, armed: false },
        last_seen_at: 0,
    }
}

fn snapshot(paths: &[&str]) -> DirSnapshot {
    let mut dirs = DirSnapshot::new();
    for p in paths {
        dirs.insert(p);
    }
    dirs
}

#[test]
fn snapshot_knows_only_what_was_put_in() {
    let mut dirs = DirSnapshot::new();
    assert!(!dirs.is_directory("/a"));
    dirs.insert("/a");
    dirs.insert("/b");
    assert!(dirs.is_directory("/a"));
    assert!(dirs.is_directory("/b"));
    assert!(!dirs.is_directory("/a/"));
    assert!(!dirs.is_directory(""));
}

#[test]
fn step_counts_and_limits_are_checked() {
    assert_eq!(check_steps(0), Some(Failure::BackUsage));
    assert_eq!(check_steps(1), None);
    assert_eq!(check_steps(MAX_BACK), None);
    assert_eq!(check_steps(MAX_BACK + 1), Some(Failure::OverMax));
    assert_eq!(check_limit(0), Some(Failure::ListUsage));
    assert_eq!(check_limit(DEFAULT_LIST), None);
    assert_eq!(check_limit(999), None);
    assert_eq!(check_limit(1000), Some(Failure::OverMax));
    assert_eq!(DEFAULT_LIST, 10);
}

#[test]
fn walk_stops_on_the_first_directory_at_n_steps_or_more() {
    let rows = vec![
        Visit { id: 9, path: "/gone1".to_string() },
        Visit { id: 7, path: "/gone2".to_string() },
        Visit { id: 5, path: "/a".to_string() },
        Visit { id: 2, path: "/b".to_string() },
    ];
    let dirs = snapshot(&["/a", "/b"]);
    let target = navigate(&rows, &dirs, 3).unwrap();
    assert_eq!((target.id, target.path.as_str(), target.steps), (5, "/a", 3));
    let target = navigate(&rows, &dirs, 1).unwrap();
    assert_eq!((target.id, target.steps), (5, 3));
    let target = navigate(&rows, &dirs, 4).unwrap();
    assert_eq!((target.id, target.steps), (2, 4));
    let target = navigate(&rows, &dirs, 5).unwrap();
    assert_eq!((target.id, target.steps), (2, 4));
    assert!(navigate(&rows, &snapshot(&["/c"]), 1).is_none());
    assert!(navigate(&Vec::new(), &dirs, 1).is_none());
}

#[test]
fn a_session_without_a_row_starts_from_its_latest_event() {
    let mut store = Store::from_tables(
        vec![event(1, "s", "/a"), event(2, "t", "/x"), event(3, "s", "/b")],
        4,
        vec![],
        vec![],
        1,
        0,
    ).unwrap();
    assert_eq!(store.resolve_cursor("s"), CursorResolution::FallbackLatest(3));
    assert_eq!(store.resolve_cursor("t"), CursorResolution::FallbackLatest(2));
    let dirs = snapshot(&["/a", "/b", "/x"]);
    let shown = store.list("s", 10, &dirs, 5).unwrap();
    assert_eq!(shown.len(), 1);
    assert_eq!((shown[0].step, shown[0].path.as_str()), (1, "/a"));
    assert!(store.sessions().get("s").is_none());
    let jump = store.back("s", 1, &dirs, 6).unwrap();
    assert_eq!((jump.from_id, jump.to_id, jump.undo_id), (3, 1, 1));
    assert_eq!(store.sessions().get("s").unwrap().cursor_id, 1);
    assert_eq!(store.back("t", 1, &dirs, 7).unwrap_err(), Failure::NoEarlierDirectory);
}

#[test]
fn a_cursor_on_another_sessions_event_counts_as_stale() {
    let store = Store::from_tables(
        vec![event(1, "s", "/a"), event(2, "t", "/x"), event(3, "s", "/b")],
        4,
        vec![row("s", 2)],
        vec![],
        1,
        0,
    ).unwrap();
    assert_eq!(store.resolve_cursor("s"), CursorResolution::FallbackLatest(3));
}

#[test]
fn cancel_fails_when_the_event_left_is_gone() {
    let mut store = Store::from_tables(
        vec![event(5, "s", "/b")],
        6,
        vec![row("s", 5)],
        vec![UndoEntry { id: 1, session_key: "s".to_string(), from_id: 4, to_id: 5, created_at: 0 }],
        2,
        0,
    ).unwrap();
    let dirs = snapshot(&["/a", "/b"]);
    assert_eq!(store.cancel("s", &dirs, 1).unwrap_err(), Failure::NothingToCancel);
    assert_eq!(store.undo().entries().len(), 1);
    assert_eq!(store.sessions().get("s").unwrap().cursor_id, 5);
}

#[test]
fn cancel_writes_a_row_for_a_session_that_has_none() {
    let mut store = Store::from_tables(
        vec![event(4, "s", "/a"), event(5, "s", "/b")],
        6,
        vec![],
        vec![UndoEntry { id: 1, session_key: "s".to_string(), from_id: 5, to_id: 4, created_at: 0 }],
        2,
        0,
    ).unwrap();
    let dirs = snapshot(&["/a", "/b"]);
    let restored = store.cancel("s", &dirs, 9).unwrap();
    assert_eq!((restored.cursor_id, restored.path.as_str(), restored.undo_id), (5, "/b", 1));
    let row = store.sessions().get("s").unwrap();
    assert_eq!((row.cursor_id, row.last_seen_at, row.last_jump.armed), (5, 9, false));
}

#[test]
fn operations_fail_when_the_ids_are_used_up() {
    let dirs = snapshot(&["/a", "/b", "/c"]);
    let mut store = Store::from_tables(
        vec![event(1, "s", "/a"), event(2, "s", "/b")],
        i64::MAX,
        vec![row("s", 2)],
        vec![],
        i64::MAX,
        0,
    ).unwrap();
    assert_eq!(store.record("s", "/c", &dirs, 1).unwrap_err(), Failure::IdsExhausted);
    assert_eq!(store.back("s", 1, &dirs, 1).unwrap_err(), Failure::IdsExhausted);
    assert_eq!(store.log().events().len(), 2);
    assert_eq!(store.sessions().get("s").unwrap().cursor_id, 2);
    assert!(store.record("s", "/b", &dirs, 1).is_ok());
    assert_eq!(Failure::IdsExhausted.message(), "bd: db error: row ids exhausted");
}

#[test]
fn a_failed_back_changes_nothing() {
    let dirs = snapshot(&["/a", "/b"]);
    let mut store = Store::new();
    store.record("s", "/a", &dirs, 1).unwrap();
    store.record("s", "/b", &dirs, 2).unwrap();
    let gone = snapshot(&[]);
    assert_eq!(store.back("s", 1, &gone, 3).unwrap_err(), Failure::NoEarlierDirectory);
    let row = store.sessions().get("s").unwrap();
    assert_eq!((row.cursor_id, row.last_seen_at, row.last_jump.armed), (2, 2, false));
    assert!(store.undo().entries().is_empty());
    assert_eq!(store.undo().next_id(), 1);
}

#[test]
fn back_moves_on_from_where_the_last_jump_landed() {
    let dirs = snapshot(&["/a", "/b", "/c", "/d"]);
    let mut store = Store::new();
    for (now, p) in ["/a", "/b", "/c", "/d"].iter().enumerate() {
        store.record("s", p, &dirs, now as i64).unwrap();
    }
    assert_eq!(store.back("s", 2, &dirs, 10).unwrap().path, "/b");
    assert_eq!(store.back("s", 1, &dirs, 11).unwrap().path, "/a");
    assert_eq!(store.back("s", 1, &dirs, 12).unwrap_err(), Failure::NoEarlierDirectory);
    let entries = store.undo().entries();
    let ends: Vec<(i64, i64, i64, i64)> =
        entries.iter().map(|e| (e.id, e.from_id, e.to_id, e.created_at)).collect();
    assert_eq!(ends, vec![(1, 4, 2, 10), (2, 2, 1, 11)]);
}

#[test]
fn database_failures_share_one_prefix() {
    assert_eq!(store_message("disk is full"), "bd: db error: disk is full");
    assert_eq!(store_message(""), "bd: db error: ");
    assert_eq!(
        store_failure(&rusqlite::Error::QueryReturnedNoRows),
        "bd: db error: Query returned no rows"
    );
    assert_eq!(
        store_failure(&rusqlite::Error::InvalidColumnIndex(3)),
        "bd: db error: Invalid column index: 3"
    );
}

#[test]
fn a_failing_statement_is_reported_as_a_database_failure() {
    let conn = rusqlite::Connection::open_in_memory().unwrap();
    let error = conn.execute_batch("SELECT * FROM no_such_table").unwrap_err();
    let text = store_failure(&error);
    assert!(text.starts_with("bd: db error: "));
    assert!(text.contains("no_such_table"));
}
