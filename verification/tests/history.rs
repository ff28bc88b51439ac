use back_directory::dirs::DirSnapshot;
use back_directory::failure::Failure;
use back_directory::store::{CursorResolution, Store};

fn snapshot(paths: &[&str]) -> DirSnapshot {
    let mut dirs = DirSnapshot::new();
    for p in paths {
        dirs.insert(p);
    }
    dirs
}

fn visited(store: &mut Store, session: &str, dirs: &DirSnapshot, paths: &[&str]) {
    let mut now = 100;
    for p in paths {
        store.record(session, p, dirs, now).unwrap();
        now += 1;
    }
}

#[test]
fn record_rejects_a_path_that_is_not_a_directory() {
    let mut store = Store::new();
    let dirs = snapshot(&["/a"]);
    assert_eq!(store.record("s", "/missing", &dirs, 1), Err(Failure::NotADirectory));
    assert!(store.log().events().is_empty());
    assert!(store.sessions().rows().is_empty());
}

#[test]
fn repeated_record_appends_one_event() {
    let mut store = Store::new();
    let dirs = snapshot(&["/a"]);
    let first = store.record("s", "/a", &dirs, 1).unwrap();
    let second = store.record("s", "/a", &dirs, 2).unwrap();
    assert!(first.appended);
    assert!(!second.appended);
    assert_eq!(first.event_id, 1);
    assert_eq!(second.event_id, 1);
    assert_eq!(store.log().events().len(), 1);
    assert_eq!(store.log().next_id(), 2);
}

#[test]
fn record_of_another_session_does_not_count_as_a_repeat() {
    let mut store = Store::new();
    let dirs = snapshot(&["/a"]);
    store.record("s", "/a", &dirs, 1).unwrap();
    let other = store.record("t", "/a", &dirs, 2).unwrap();
    assert!(other.appended);
    assert_eq!(other.event_id, 2);
    assert_eq!(store.log().events().len(), 2);
}

#[test]
fn back_one_and_two_steps() {
    let dirs = snapshot(&["/a", "/b"]);
    let mut store = Store::new();
    visited(&mut store, "s", &dirs, &["/a", "/b", "/a"]);
    let jump = store.back("s", 1, &dirs, 200).unwrap();
    assert_eq!(jump.path, "/b");
    assert_eq!(jump.steps, 1);

    let mut store = Store::new();
    visited(&mut store, "s", &dirs, &["/a", "/b", "/a"]);
    let jump = store.back("s", 2, &dirs, 200).unwrap();
    assert_eq!(jump.path, "/a");
    assert_eq!(jump.to_id, 1);
    assert_eq!(jump.from_id, 3);
    assert_eq!(jump.steps, 2);
}

#[test]
fn back_skips_a_deleted_directory() {
    let all = snapshot(&["/a", "/b", "/c"]);
    let mut store = Store::new();
    visited(&mut store, "s", &all, &["/a", "/b", "/c"]);
    let left = snapshot(&["/a", "/c"]);
    let jump = store.back("s", 1, &left, 200).unwrap();
    assert_eq!(jump.path, "/a");
    assert_eq!(jump.steps, 2);
    let row = store.sessions().get("s").unwrap();
    assert_eq!(row.cursor_id, 1);
    assert_eq!(row.last_jump.delta, 2);
    assert_eq!(row.last_jump.from_id, 3);
    assert_eq!(row.last_jump.to_id, 1);
    assert!(row.last_jump.armed);
    assert_eq!(row.last_seen_at, 200);
}

#[test]
fn back_beyond_the_history_falls_back_to_the_oldest_directory() {
    let dirs = snapshot(&["/a", "/b", "/c"]);
    let mut store = Store::new();
    visited(&mut store, "s", &dirs, &["/a", "/b", "/c"]);
    let jump = store.back("s", 50, &dirs, 200).unwrap();
    assert_eq!(jump.path, "/a");
    assert_eq!(jump.steps, 2);
}

#[test]
fn back_without_a_navigable_directory_fails() {
    let dirs = snapshot(&["/a", "/b"]);
    let mut store = Store::new();
    assert_eq!(store.back("s", 1, &dirs, 1).unwrap_err(), Failure::NoEarlierDirectory);
    visited(&mut store, "s", &dirs, &["/a"]);
    assert_eq!(store.back("s", 1, &dirs, 2).unwrap_err(), Failure::NoEarlierDirectory);
    visited(&mut store, "s", &dirs, &["/b"]);
    let gone = snapshot(&["/b"]);
    assert_eq!(store.back("s", 1, &gone, 3).unwrap_err(), Failure::NoEarlierDirectory);
    assert!(store.undo().entries().is_empty());
}

#[test]
fn back_checks_its_step_count() {
    let dirs = snapshot(&["/a", "/b"]);
    let mut store = Store::new();
    visited(&mut store, "s", &dirs, &["/a", "/b"]);
    assert_eq!(store.back("s", 0, &dirs, 1).unwrap_err(), Failure::BackUsage);
    assert_eq!(store.back("s", 1000, &dirs, 1).unwrap_err(), Failure::OverMax);
    assert_eq!(store.back("s", 999, &dirs, 1).unwrap().path, "/a");
}

#[test]
fn back_then_cancel_restores_cursor_and_directory() {
    let dirs = snapshot(&["/a", "/b", "/c"]);
    let mut store = Store::new();
    visited(&mut store, "s", &dirs, &["/a", "/b", "/c"]);
    let jump = store.back("s", 2, &dirs, 200).unwrap();
    assert_eq!(jump.path, "/a");
    let restored = store.cancel("s", &dirs, 201).unwrap();
    assert_eq!(restored.path, "/c");
    assert_eq!(restored.cursor_id, 3);
    assert_eq!(restored.undo_id, jump.undo_id);
    let row = store.sessions().get("s").unwrap();
    assert_eq!(row.cursor_id, 3);
    assert!(!row.last_jump.armed);
    assert_eq!(row.last_jump.delta, 0);
    assert_eq!(row.last_seen_at, 201);
    assert_eq!(store.cancel("s", &dirs, 202).unwrap_err(), Failure::NothingToCancel);
}

#[test]
fn two_backs_then_two_cancels_are_lifo() {
    let dirs = snapshot(&["/a", "/b", "/c"]);
    let mut store = Store::new();
    visited(&mut store, "s", &dirs, &["/a", "/b", "/c"]);
    assert_eq!(store.back("s", 1, &dirs, 200).unwrap().path, "/b");
    assert_eq!(store.back("s", 1, &dirs, 201).unwrap().path, "/a");
    assert_eq!(store.undo().entries().len(), 2);
    assert_eq!(store.cancel("s", &dirs, 202).unwrap().path, "/b");
    assert_eq!(store.sessions().get("s").unwrap().cursor_id, 2);
    assert_eq!(store.cancel("s", &dirs, 203).unwrap().path, "/c");
    assert_eq!(store.sessions().get("s").unwrap().cursor_id, 3);
    assert!(store.undo().entries().is_empty());
    assert_eq!(store.cancel("s", &dirs, 204).unwrap_err(), Failure::NothingToCancel);
}

#[test]
fn record_after_back_clears_the_undo_stack() {
    let dirs = snapshot(&["/a", "/b", "/c"]);
    let mut store = Store::new();
    visited(&mut store, "s", &dirs, &["/a", "/b"]);
    store.back("s", 1, &dirs, 200).unwrap();
    assert_eq!(store.undo().entries().len(), 1);
    store.record("s", "/c", &dirs, 201).unwrap();
    assert!(store.undo().entries().is_empty());
    assert_eq!(store.cancel("s", &dirs, 202).unwrap_err(), Failure::NothingToCancel);
}

#[test]
fn record_clears_only_the_undo_entries_of_its_session() {
    let dirs = snapshot(&["/a", "/b", "/c"]);
    let mut store = Store::new();
    visited(&mut store, "s", &dirs, &["/a", "/b"]);
    visited(&mut store, "t", &dirs, &["/a", "/b"]);
    store.back("s", 1, &dirs, 200).unwrap();
    store.back("t", 1, &dirs, 201).unwrap();
    store.record("s", "/c", &dirs, 202).unwrap();
    assert_eq!(store.undo().entries().len(), 1);
    assert_eq!(store.undo().entries()[0].session_key, "t");
    assert_eq!(store.cancel("t", &dirs, 203).unwrap().path, "/b");
}

#[test]
fn cancel_into_a_vanished_directory_fails_and_keeps_the_entry() {
    let dirs = snapshot(&["/a", "/b"]);
    let mut store = Store::new();
    visited(&mut store, "s", &dirs, &["/a", "/b"]);
    store.back("s", 1, &dirs, 200).unwrap();
    let gone = snapshot(&["/a"]);
    assert_eq!(store.cancel("s", &gone, 201).unwrap_err(), Failure::NothingToCancel);
    assert_eq!(store.undo().entries().len(), 1);
    assert_eq!(store.sessions().get("s").unwrap().cursor_id, 1);
    assert_eq!(store.cancel("s", &dirs, 202).unwrap().path, "/b");
}

#[test]
fn list_shows_step_numbers_that_back_accepts() {
    let all = snapshot(&["/a", "/b", "/c", "/d"]);
    let mut store = Store::new();
    visited(&mut store, "s", &all, &["/a", "/b", "/c", "/d"]);
    let left = snapshot(&["/a", "/c", "/d"]);
    let shown = store.list("s", 10, &left, 200).unwrap();
    let pairs: Vec<(u64, &str)> = shown.iter().map(|c| (c.step, c.path.as_str())).collect();
    assert_eq!(pairs, vec![(1, "/c"), (3, "/a")]);
    for entry in &shown {
        let mut again = Store::new();
        visited(&mut again, "s", &all, &["/a", "/b", "/c", "/d"]);
        let jump = again.back("s", entry.step as u32, &left, 201).unwrap();
        assert_eq!(jump.path, entry.path);
        assert_eq!(jump.steps, entry.step);
    }
}

#[test]
fn list_is_capped_by_its_limit_and_touches_only_the_time() {
    let dirs = snapshot(&["/a", "/b", "/c", "/d"]);
    let mut store = Store::new();
    visited(&mut store, "s", &dirs, &["/a", "/b", "/c", "/d"]);
    let shown = store.list("s", 2, &dirs, 500).unwrap();
    assert_eq!(shown.len(), 2);
    assert_eq!(shown[0].step, 1);
    assert_eq!(shown[0].path, "/c");
    assert_eq!(shown[1].step, 2);
    assert_eq!(shown[1].path, "/b");
    let row = store.sessions().get("s").unwrap();
    assert_eq!(row.cursor_id, 4);
    assert_eq!(row.last_seen_at, 500);
    assert!(store.undo().entries().is_empty());
}

#[test]
fn list_checks_its_limit_and_fails_without_history() {
    let dirs = snapshot(&["/a", "/b"]);
    let mut store = Store::new();
    assert_eq!(store.list("s", 10, &dirs, 1).unwrap_err(), Failure::NoHistory);
    visited(&mut store, "s", &dirs, &["/a"]);
    assert_eq!(store.list("s", 10, &dirs, 2).unwrap_err(), Failure::NoHistory);
    assert_eq!(store.list("s", 0, &dirs, 2).unwrap_err(), Failure::ListUsage);
    assert_eq!(store.list("s", 1000, &dirs, 2).unwrap_err(), Failure::OverMax);
    assert_eq!(store.sessions().get("s").unwrap().last_seen_at, 100);
}

#[test]
fn cursor_resolution_names_its_source() {
    let dirs = snapshot(&["/a", "/b"]);
    let mut store = Store::new();
    assert_eq!(store.resolve_cursor("s"), CursorResolution::NoHistory);
    visited(&mut store, "s", &dirs, &["/a", "/b"]);
    assert_eq!(store.resolve_cursor("s"), CursorResolution::Stored(2));
    assert_eq!(store.resolve_cursor("s").id(), Some(2));
    assert_eq!(store.resolve_cursor("other"), CursorResolution::NoHistory);
}

#[test]
fn failure_messages_are_stable() {
    assert_eq!(Failure::NotADirectory.message(), "bd: pwd is not a directory");
    assert_eq!(Failure::BackUsage.message(), "bd: usage: bd [N|c|ls]");
    assert_eq!(Failure::ListUsage.message(), "bd: usage: bd ls [N]");
    assert_eq!(Failure::OverMax.message(), "bd: max is 999");
    assert_eq!(Failure::NoEarlierDirectory.message(), "bd: no earlier directory");
    assert_eq!(Failure::NoHistory.message(), "bd: no history in this session");
    assert_eq!(Failure::NothingToCancel.message(), "bd: nothing to cancel");
    assert_eq!(Failure::HomeNotSet.message(), "bd: HOME not set");
}
