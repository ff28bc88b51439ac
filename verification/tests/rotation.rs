use back_directory::dirs::DirSnapshot;
use back_directory::event_log::{Event, EventLog, EVENTS_KEPT_PER_SESSION};
use back_directory::session::{LastJump, SessionState};
use back_directory::store::{CursorResolution, Store};
use back_directory::undo::UndoEntry;

fn event(id: i64, session: &str, path: &str) -> Event {
    Event { id, session_key: session.to_string(), path: path.to_string(), timestamp: id }
}

fn alternating(count: i64, session: &str) -> Vec<Event> {
    let mut events = Vec::new();
    for id in 1..=count {
        events.push(event(id, session, if id % 2 == 0 { "/even" } else { "/odd" }));
    }
    events
}

fn row(session: &str, cursor_id: i64) -> SessionState {
    SessionState {
        session_key: session.to_string(),
        cursor_id,
        last_jump: LastJump { delta: 0, from_id: 0, to_id: 0, armed: false },
        last_seen_at: 0,
    }
}

fn jump(id: i64, session: &str, from_id: i64, to_id: i64) -> UndoEntry {
    UndoEntry { id, session_key: session.to_string(), from_id, to_id, created_at: 0 }
}

#[test]
fn record_caps_the_history_of_its_session() {
    let cap = EVENTS_KEPT_PER_SESSION as i64;
    let mut store =
        Store::from_tables(alternating(cap, "s"), cap + 1, vec![row("s", cap)], vec![], 1, 0).unwrap();
    let mut dirs = DirSnapshot::new();
    dirs.insert("/new");
    let recorded = store.record("s", "/new", &dirs, 7).unwrap();
    assert!(recorded.appended);
    assert_eq!(recorded.event_id, cap + 1);
    assert_eq!(recorded.rotated_below, Some(2));
    assert_eq!(store.log().events().len(), EVENTS_KEPT_PER_SESSION);
    assert_eq!(store.log().events()[0].id, 2);
    assert_eq!(store.log().events().last().unwrap().path, "/new");
    assert_eq!(store.resolve_cursor("s"), CursorResolution::Stored(cap + 1));
}

#[test]
fn record_below_the_cap_deletes_nothing() {
    let mut store = Store::from_tables(alternating(20, "s"), 21, vec![row("s", 20)], vec![], 1, 0).unwrap();
    let mut dirs = DirSnapshot::new();
    dirs.insert("/new");
    let recorded = store.record("s", "/new", &dirs, 7).unwrap();
    assert_eq!(recorded.rotated_below, None);
    assert_eq!(store.log().events().len(), 21);
}

#[test]
fn rotation_spares_what_the_live_state_refers_to() {
    let cap = EVENTS_KEPT_PER_SESSION as i64;
    let mut store = Store::from_tables(
        alternating(cap + 5, "s"),
        cap + 6,
        vec![row("s", 4)],
        vec![jump(1, "s", 4, 3), jump(2, "other", 1, 1)],
        3,
        0,
    ).unwrap();
    assert_eq!(store.lowest_live_reference("s"), Some(3));
    assert_eq!(store.rotate_events("s"), Some(3));
    let events = store.log().events();
    assert_eq!(events.len(), EVENTS_KEPT_PER_SESSION + 3);
    assert_eq!(events[0].id, 3);
    assert!(store.log().find(3, "s").is_some());
    assert!(store.log().find(4, "s").is_some());
    assert!(store.log().find(2, "s").is_none());
}

#[test]
fn rotation_stops_at_the_cutoff_when_references_are_recent() {
    let cap = EVENTS_KEPT_PER_SESSION as i64;
    let mut store = Store::from_tables(
        alternating(cap + 5, "s"),
        cap + 6,
        vec![SessionState {
            session_key: "s".to_string(),
            cursor_id: cap,
            last_jump: LastJump { delta: 2, from_id: cap + 2, to_id: cap, armed: true },
            last_seen_at: 0,
        }],
        vec![jump(1, "s", cap + 2, cap)],
        2,
        0,
    ).unwrap();
    assert_eq!(store.lowest_live_reference("s"), Some(cap));
    assert_eq!(store.rotate_events("s"), Some(6));
    assert_eq!(store.log().events().len(), EVENTS_KEPT_PER_SESSION);
    assert_eq!(store.log().events()[0].id, 6);
}

#[test]
fn rotation_without_a_live_reference_deletes_nothing() {
    let cap = EVENTS_KEPT_PER_SESSION as i64;
    let mut store = Store::from_tables(alternating(cap + 5, "s"), cap + 6, vec![], vec![], 1, 0).unwrap();
    assert_eq!(store.lowest_live_reference("s"), None);
    assert_eq!(store.rotate_events("s"), None);
    assert_eq!(store.log().events().len(), EVENTS_KEPT_PER_SESSION + 5);
}

#[test]
fn rotation_leaves_other_sessions_alone() {
    let cap = EVENTS_KEPT_PER_SESSION as i64;
    let mut events = vec![event(1, "t", "/t1"), event(2, "t", "/t2")];
    for id in 3..=(cap + 4) {
        events.push(event(id, "s", if id % 2 == 0 { "/even" } else { "/odd" }));
    }
    let mut log = EventLog::from_parts(events, cap + 5).unwrap();
    assert_eq!(log.rotate("s", Some(cap + 4)), Some(5));
    assert_eq!(log.events().len(), EVENTS_KEPT_PER_SESSION + 2);
    assert_eq!(log.events()[0].path, "/t1");
    assert_eq!(log.events()[1].path, "/t2");
    assert_eq!(log.events()[2].id, 5);
    assert_eq!(log.rotate("t", Some(1)), None);
}

#[test]
fn scan_runs_backward_below_the_bound() {
    let log = EventLog::from_parts(
        vec![event(1, "s", "/a"), event(2, "t", "/x"), event(3, "s", "/b"), event(5, "s", "/c")],
        6,
    ).unwrap();
    let rows = log.scan_backward("s", 5);
    let seen: Vec<(i64, &str)> = rows.iter().map(|v| (v.id, v.path.as_str())).collect();
    assert_eq!(seen, vec![(3, "/b"), (1, "/a")]);
    assert!(log.scan_backward("s", 1).is_empty());
    assert_eq!(log.latest("s").unwrap().id, 5);
    assert_eq!(log.latest("t").unwrap().path, "/x");
    assert!(log.latest("u").is_none());
}

#[test]
fn append_reuses_the_latest_event_of_the_same_path() {
    let mut log = EventLog::new();
    assert_eq!(log.append_if_changed("s", "/a", 10), Some(1));
    assert_eq!(log.append_if_changed("s", "/a", 11), Some(1));
    assert_eq!(log.append_if_changed("s", "/b", 12), Some(2));
    assert_eq!(log.append_if_changed("s", "/a", 13), Some(3));
    assert_eq!(log.events().len(), 3);
    assert_eq!(log.events()[2].timestamp, 13);
    assert_eq!(log.next_id(), 4);
}

#[test]
fn append_fails_when_the_ids_are_used_up() {
    let mut log = EventLog::from_parts(vec![event(1, "s", "/a")], i64::MAX).unwrap();
    assert_eq!(log.append_if_changed("s", "/a", 1), Some(1));
    assert_eq!(log.append_if_changed("s", "/b", 1), None);
    assert_eq!(log.events().len(), 1);
}

#[test]
fn stale_cursor_falls_back_to_the_latest_event() {
    let mut store = Store::from_tables(
        vec![event(2, "s", "/b"), event(3, "s", "/c")],
        4,
        vec![row("s", 1)],
        vec![],
        1,
        0,
    ).unwrap();
    assert_eq!(store.resolve_cursor("s"), CursorResolution::FallbackLatest(3));
    let mut dirs = DirSnapshot::new();
    dirs.insert("/b");
    let jump = store.back("s", 1, &dirs, 9).unwrap();
    assert_eq!(jump.from_id, 3);
    assert_eq!(jump.to_id, 2);
    assert_eq!(jump.path, "/b");
}

#[test]
fn tables_are_validated() {
    let ok = |events: Vec<Event>, next: i64, rows: Vec<SessionState>, undo: Vec<UndoEntry>, next_undo: i64| {
        Store::from_tables(events, next, rows, undo, next_undo, 0).is_some()
    };
    assert!(ok(vec![event(1, "s", "/a"), event(2, "s", "/b")], 3, vec![row("s", 1)], vec![], 1));
    assert!(!ok(vec![event(2, "s", "/a"), event(1, "s", "/b")], 3, vec![], vec![], 1));
    assert!(!ok(vec![event(1, "s", "/a"), event(1, "s", "/b")], 3, vec![], vec![], 1));
    assert!(!ok(vec![event(0, "s", "/a")], 3, vec![], vec![], 1));
    assert!(!ok(vec![event(3, "s", "/a")], 3, vec![], vec![], 1));
    assert!(!ok(vec![], 0, vec![], vec![], 1));
    assert!(!ok(vec![], 1, vec![row("s", 1), row("s", 2)], vec![], 1));
    assert!(!ok(vec![], 1, vec![], vec![jump(2, "s", 1, 1), jump(1, "s", 1, 1)], 3));
    assert!(!ok(vec![], 1, vec![], vec![jump(1, "s", 1, 1)], 1));
}
