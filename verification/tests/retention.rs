use back_directory::clock::{current_ts, timestamp_from_secs};
use back_directory::location::{db_path, join, xdg_state_dir};
use back_directory::failure::Failure;
use back_directory::session::{LastJump, SessionState, SessionTable};
use back_directory::store::{
    cutoff, Store, CLEANUP_INTERVAL_SECS, SESSION_RETENTION_SECS, UNDO_RETENTION_SECS,
};
use back_directory::undo::{UndoEntry, UndoStack};

fn row(session: &str, last_seen_at: i64) -> SessionState {
    SessionState {
        session_key: session.to_string(),
        cursor_id: 1,
        last_jump: LastJump { delta: 0, from_id: 0, to_id: 0, armed: false },
        last_seen_at,
    }
}

fn jump(id: i64, session: &str, created_at: i64) -> UndoEntry {
    UndoEntry { id, session_key: session.to_string(), from_id: 2, to_id: 1, created_at }
}

#[test]
fn sweep_is_skipped_within_the_interval() {
    let mut store = Store::from_tables(vec![], 1, vec![row("old", 0)], vec![jump(1, "old", 0)], 2, 1000).unwrap();
    assert!(!store.maybe_run("me", 1000 + CLEANUP_INTERVAL_SECS - 1));
    assert_eq!(store.last_cleanup_at(), 1000);
    assert_eq!(store.sessions().rows().len(), 1);
    assert_eq!(store.undo().entries().len(), 1);
    assert!(!store.maybe_run("me", 0));
}

#[test]
fn sweep_deletes_stale_sessions_and_old_undo_entries() {
    let now = 20_000_000;
    let session_cutoff = now - SESSION_RETENTION_SECS;
    let undo_cutoff = now - UNDO_RETENTION_SECS;
    let mut store = Store::from_tables(
        vec![],
        1,
        vec![row("old", session_cutoff - 1), row("edge", session_cutoff), row("me", 0), row("fresh", now)],
        vec![jump(1, "old", undo_cutoff - 1), jump(2, "me", undo_cutoff - 1), jump(3, "me", undo_cutoff), jump(4, "fresh", now)],
        5,
        now - CLEANUP_INTERVAL_SECS,
    ).unwrap();
    assert!(store.maybe_run("me", now));
    assert_eq!(store.last_cleanup_at(), now);
    let mut keys: Vec<&str> = store.sessions().rows().iter().map(|r| r.session_key.as_str()).collect();
    keys.sort();
    assert_eq!(keys, vec!["edge", "fresh", "me"]);
    let ids: Vec<i64> = store.undo().entries().iter().map(|e| e.id).collect();
    assert_eq!(ids, vec![3, 4]);
    assert!(!store.maybe_run("me", now + 1));
}

#[test]
fn cutoff_saturates() {
    assert_eq!(cutoff(100, 30), 70);
    assert_eq!(cutoff(i64::MIN + 5, 30), i64::MIN);
    assert_eq!(cutoff(20_000_000, SESSION_RETENTION_SECS), 4_448_000);
    assert_eq!(cutoff(20_000_000, UNDO_RETENTION_SECS), 12_224_000);
}

#[test]
fn session_table_upserts_touches_and_purges() {
    let mut table = SessionTable::new();
    table.upsert(row("a", 10));
    table.upsert(row("b", 20));
    table.upsert(SessionState { cursor_id: 7, ..row("a", 30) });
    assert_eq!(table.rows().len(), 2);
    assert_eq!(table.get("a").unwrap().cursor_id, 7);
    assert_eq!(table.get("a").unwrap().last_seen_at, 30);
    table.touch("b", 40);
    table.touch("missing", 40);
    assert_eq!(table.get("b").unwrap().last_seen_at, 40);
    assert!(table.get("missing").is_none());
    table.purge_stale(35, "a");
    assert_eq!(table.rows().len(), 2);
    table.purge_stale(35, "b");
    assert_eq!(table.rows().len(), 1);
    assert!(table.get("a").is_none());
}

#[test]
fn undo_stack_is_lifo_per_session() {
    let mut stack = UndoStack::new();
    assert_eq!(stack.push("s", 3, 2, 10), Some(1));
    assert_eq!(stack.push("t", 9, 8, 11), Some(2));
    assert_eq!(stack.push("s", 2, 1, 12), Some(3));
    assert_eq!(stack.peek("s").unwrap().id, 3);
    assert_eq!(stack.lowest_reference("s"), Some(1));
    assert_eq!(stack.lowest_reference("t"), Some(8));
    assert_eq!(stack.lowest_reference("u"), None);
    let top = stack.pop("s").unwrap();
    assert_eq!((top.id, top.from_id, top.to_id, top.created_at), (3, 2, 1, 12));
    assert_eq!(stack.pop("s").unwrap().id, 1);
    assert!(stack.pop("s").is_none());
    assert_eq!(stack.entries().len(), 1);
    assert_eq!(stack.push("s", 5, 4, 13), Some(4));
    stack.clear("t");
    assert_eq!(stack.entries().len(), 1);
    stack.purge_older(14);
    assert!(stack.entries().is_empty());
    assert_eq!(stack.next_id(), 5);
}

#[test]
fn undo_stack_refuses_a_push_when_the_ids_are_used_up() {
    let mut stack = UndoStack::from_parts(vec![], i64::MAX).unwrap();
    assert_eq!(stack.push("s", 2, 1, 0), None);
    assert!(stack.entries().is_empty());
}

#[test]
fn database_path_follows_the_state_home() {
    assert_eq!(db_path(Some("/x/state"), Some("/home/u")).unwrap(), "/x/state/back-directory/bd.sqlite3");
    assert_eq!(db_path(None, Some("/home/u")).unwrap(), "/home/u/.local/state/back-directory/bd.sqlite3");
    assert_eq!(db_path(None, Some("/home/u/")).unwrap(), "/home/u/.local/state/back-directory/bd.sqlite3");
    assert_eq!(db_path(Some(""), None).unwrap(), "back-directory/bd.sqlite3");
    assert_eq!(db_path(None, None), Err(Failure::HomeNotSet));
    assert_eq!(xdg_state_dir(Some("/x"), None).unwrap(), "/x/back-directory");
    assert_eq!(xdg_state_dir(None, None), Err(Failure::HomeNotSet));
    assert_eq!(join("/".to_string(), "a"), "/a");
    assert_eq!(join("/é".to_string(), "a"), "/é/a");
}

#[test]
fn timestamps_count_seconds_since_the_epoch() {
    assert_eq!(timestamp_from_secs(0), 0);
    assert_eq!(timestamp_from_secs(1_700_000_000), 1_700_000_000);
    assert_eq!(timestamp_from_secs(u64::MAX), i64::MAX);
    assert!(current_ts() > 1_600_000_000);
}
