//! Laws that relate the operations of the store to each other, proved
//! over the functions that specify them.

use vstd::prelude::*;
use crate::event_log::{
    deduplicated,
    lemma_filter_all,
    lemma_filter_descending,
    lemma_filter_keeps_order,
    lemma_lookup_finds,
    lemma_lookup_none,
    lemma_scan_bound,
    lemma_scan_complete,
    lemma_scan_descends,
    lemma_scan_rotated,
    lemma_scan_rotated_other,
    lemma_scan_rows,
    lookup,
    scan,
    survives,
    visit_of,
    EventLogView,
    EventView,
    EVENTS_KEPT_PER_SESSION,
};
use crate::failure::Failure;
use crate::navigate::{
    candidates,
    landing,
    lands_on,
    lemma_candidate_is_navigable,
    lemma_candidates_ascend,
    lemma_landing_is,
    lemma_landing_none,
    lemma_navigable_is_candidate,
    navigable,
    spec_list,
    spec_navigate,
    target_at,
    TargetView,
    VisitView,
};
use crate::session::{no_jump, SessionView};
use crate::store::{
    spec_cutoff,
    CursorResolution,
    RestoredView,
    StoreView,
    MAX_BACK,
    SESSION_RETENTION_SECS,
    UNDO_RETENTION_SECS,
};
use crate::undo::{
    lemma_filter_entries,
    lemma_top_is_last,
    of_others,
    top_index,
    young,
    UndoStackView,
    UndoView,
};

verus! {

/// The row stands for an event of the session with an id below the bound.
pub open spec fn stands_for_event(
    events: Seq<EventView>,
    session: Seq<char>,
    before: int,
    row: VisitView,
) -> bool {
    exists|i: int|
        0 <= i < events.len() && (#[trigger] events[i]).session_key == session && events[i].id
            < before && visit_of(events[i]) == row
}

/// A scan holds exactly the events of the session with an id below the
/// bound, each once, from the highest id to the lowest.
pub proof fn law_scan_is_the_history_below_the_bound(
    events: Seq<EventView>,
    session: Seq<char>,
    before: int,
)
    requires
        forall|i: int, j: int|
            0 <= i < j < events.len() ==> (#[trigger] events[i]).id < (#[trigger] events[j]).id,
    ensures
        forall|a: int, b: int|
            0 <= a < b < scan(events, session, before).len() ==> (#[trigger] scan(
                events,
                session,
                before,
            )[a]).id > (#[trigger] scan(events, session, before)[b]).id,
        forall|k: int|
            0 <= k < scan(events, session, before).len() ==> stands_for_event(
                events,
                session,
                before,
                #[trigger] scan(events, session, before)[k],
            ),
        forall|i: int|
            0 <= i < events.len() && (#[trigger] events[i]).session_key == session && events[i].id
                < before ==> scan(events, session, before).contains(visit_of(events[i])),
{
    let rows = scan(events, session, before);
    assert forall|a: int, b: int| 0 <= a < b < rows.len() implies (#[trigger] rows[a]).id > (
    #[trigger] rows[b]).id by {
        lemma_scan_descends(events, session, before, a, b);
    }
    assert forall|k: int| 0 <= k < rows.len() implies stands_for_event(
        events,
        session,
        before,
        #[trigger] rows[k],
    ) by {
        lemma_scan_rows(events, session, before, k);
    }
    assert forall|i: int|
        0 <= i < events.len() && (#[trigger] events[i]).session_key == session && events[i].id
            < before implies rows.contains(visit_of(events[i])) by {
        lemma_scan_complete(events, session, before, i);
    }
}

/// A lookup gives the one event that has the id and belongs to the
/// session, and nothing where the log holds no such event.
pub proof fn law_lookup_finds_the_event(events: Seq<EventView>, id: i64, session: Seq<char>)
    requires
        forall|i: int, j: int|
            0 <= i < j < events.len() ==> (#[trigger] events[i]).id < (#[trigger] events[j]).id,
    ensures
        forall|i: int|
            0 <= i < events.len() && (#[trigger] events[i]).id == id && events[i].session_key
                == session ==> lookup(events, id, session) == Some(events[i]),
        lookup(events, id, session) is None <==> forall|i: int|
            0 <= i < events.len() ==> !((#[trigger] events[i]).id == id && events[i].session_key
                == session),
{
    assert forall|i: int|
        0 <= i < events.len() && (#[trigger] events[i]).id == id && events[i].session_key
            == session implies lookup(events, id, session) == Some(events[i]) by {
        lemma_lookup_finds(events, id, session, i);
    }
    lemma_lookup_none(events, id, session);
}

/// A walk lands somewhere as soon as one row of the history is navigable,
/// however large the step count.
pub proof fn law_navigable_history_has_target(
    rows: Seq<VisitView>,
    dirs: Set<Seq<char>>,
    n: int,
    k: int,
)
    requires
        navigable(rows, dirs, k),
    ensures
        spec_navigate(rows, dirs, n) is Some,
{
    lemma_landing_none(rows, dirs, n);
}

/// A walk lands on the oldest navigable row whenever no other navigable
/// row lies `n` steps back or more.
pub proof fn law_fallback_lands_on_oldest(
    rows: Seq<VisitView>,
    dirs: Set<Seq<char>>,
    n: int,
    oldest: int,
)
    requires
        navigable(rows, dirs, oldest),
        forall|j: int| oldest < j < rows.len() ==> !navigable(rows, dirs, j),
        forall|j: int| n - 1 <= j < oldest ==> !navigable(rows, dirs, j),
    ensures
        spec_navigate(rows, dirs, n) == Some(target_at(rows, oldest)),
{
    assert(lands_on(rows, dirs, n, oldest));
    lemma_landing_is(rows, dirs, n, oldest);
}

/// A walk of more steps than the history has rows lands on the oldest
/// navigable row.
pub proof fn law_walk_beyond_history_lands_on_oldest(
    rows: Seq<VisitView>,
    dirs: Set<Seq<char>>,
    n: int,
    oldest: int,
)
    requires
        n > rows.len(),
        navigable(rows, dirs, oldest),
        forall|j: int| oldest < j < rows.len() ==> !navigable(rows, dirs, j),
    ensures
        spec_navigate(rows, dirs, n) == Some(target_at(rows, oldest)),
{
    law_fallback_lands_on_oldest(rows, dirs, n, oldest);
}

/// A listing shows at most `limit` rows, in strictly ascending order of
/// their step numbers.
pub proof fn law_list_is_capped_and_ascending(
    rows: Seq<VisitView>,
    dirs: Set<Seq<char>>,
    limit: int,
)
    requires
        0 <= limit,
    ensures
        spec_list(rows, dirs, limit).len() <= limit,
        forall|i: int, j: int|
            0 <= i < j < spec_list(rows, dirs, limit).len() ==> (#[trigger] spec_list(
                rows,
                dirs,
                limit,
            )[i]).step < (#[trigger] spec_list(rows, dirs, limit)[j]).step,
{
    let listed = spec_list(rows, dirs, limit);
    assert forall|i: int, j: int| 0 <= i < j < listed.len() implies (#[trigger] listed[i]).step < (
    #[trigger] listed[j]).step by {
        lemma_candidates_ascend(rows, dirs, i, j);
    }
}

/// A walk of as many steps as a listed row's step number lands on that
/// row.
pub proof fn law_listed_step_is_reproducible(
    rows: Seq<VisitView>,
    dirs: Set<Seq<char>>,
    limit: int,
    j: int,
)
    requires
        0 <= limit,
        0 <= j < spec_list(rows, dirs, limit).len(),
    ensures
        1 <= spec_list(rows, dirs, limit)[j].step <= rows.len(),
        spec_navigate(rows, dirs, spec_list(rows, dirs, limit)[j].step) == Some(
            TargetView {
                id: rows[spec_list(rows, dirs, limit)[j].step - 1].id,
                path: spec_list(rows, dirs, limit)[j].path,
                steps: spec_list(rows, dirs, limit)[j].step,
            },
        ),
{
    let entry = spec_list(rows, dirs, limit)[j];
    assert(entry == candidates(rows, dirs)[j]);
    lemma_candidate_is_navigable(rows, dirs, j);
    assert(lands_on(rows, dirs, entry.step, entry.step - 1));
    lemma_landing_is(rows, dirs, entry.step, entry.step - 1);
}

/// The cursor that a session resolves to refers to an event that the log
/// holds.
pub proof fn lemma_cursor_event(store: StoreView, session: Seq<char>)
    requires
        store.wf(),
        store.resolve_cursor(session).spec_id() is Some,
    ensures
        lookup(store.log.events, store.resolve_cursor(session).spec_id()->0, session) is Some,
{
    if !(store.sessions.contains_key(session) && lookup(
        store.log.events,
        store.sessions[session].cursor_id,
        session,
    ) is Some) {
        lemma_scan_rows(store.log.events, session, store.log.next_id as int, 0);
    }
}

/// The row on which a walk through a scan lands stands for an event that
/// the log holds, with the same path, and its directory exists.
pub proof fn lemma_target_event(
    events: Seq<EventView>,
    session: Seq<char>,
    before: int,
    dirs: Set<Seq<char>>,
    n: int,
)
    requires
        forall|i: int, j: int|
            0 <= i < j < events.len() ==> (#[trigger] events[i]).id < (#[trigger] events[j]).id,
        spec_navigate(scan(events, session, before), dirs, n) is Some,
    ensures
        lookup(events, spec_navigate(scan(events, session, before), dirs, n)->0.id, session)
            is Some,
        lookup(
            events,
            spec_navigate(scan(events, session, before), dirs, n)->0.id,
            session,
        )->0.path == spec_navigate(scan(events, session, before), dirs, n)->0.path,
        dirs.contains(spec_navigate(scan(events, session, before), dirs, n)->0.path),
        1 <= spec_navigate(scan(events, session, before), dirs, n)->0.steps <= scan(
            events,
            session,
            before,
        ).len(),
{
    let rows = scan(events, session, before);
    let k = landing(rows, dirs, n)->0;
    assert(lands_on(rows, dirs, n, k));
    lemma_scan_rows(events, session, before, k);
}

/// Cancelling undoes the jump on top of the stack: the cursor returns to
/// the event that the jump left, provided the log holds it and its
/// directory exists, and the entry leaves the stack.
pub proof fn lemma_cancel_undoes_top(
    store: StoreView,
    older: Seq<UndoView>,
    entry: UndoView,
    dirs: Set<Seq<char>>,
    now: i64,
)
    requires
        store.undo.entries == older.push(entry),
        lookup(store.log.events, entry.from_id, entry.session_key) is Some,
        dirs.contains(lookup(store.log.events, entry.from_id, entry.session_key)->0.path),
    ensures
        store.cancel(entry.session_key, dirs, now) == Ok::<(StoreView, RestoredView), Failure>(
            (
                StoreView {
                    sessions: store.sessions.insert(
                        entry.session_key,
                        SessionView {
                            cursor_id: entry.from_id,
                            last_jump: no_jump(),
                            last_seen_at: now,
                        },
                    ),
                    undo: UndoStackView { entries: older, next_id: store.undo.next_id },
                    ..store
                },
                RestoredView {
                    cursor_id: entry.from_id,
                    path: lookup(store.log.events, entry.from_id, entry.session_key)->0.path,
                    undo_id: entry.id,
                },
            ),
        ),
{
    let pushed = store.undo.entries;
    assert(pushed.drop_last() =~= older);
    assert(top_index(pushed, entry.session_key) == Some(pushed.len() - 1));
    assert(pushed.remove(pushed.len() - 1) =~= older);
}

/// `back` followed by `cancel` restores the cursor that `back` had left
/// and returns that cursor's directory, provided that directory still
/// exists; the entries of the undo stack and the log are then what they
/// were before the `back`, so a further `cancel` fails where the session
/// had no older jump to undo.
pub proof fn law_back_then_cancel(
    store: StoreView,
    session: Seq<char>,
    n: u32,
    dirs: Set<Seq<char>>,
    now: i64,
    later_dirs: Set<Seq<char>>,
    later: i64,
)
    requires
        store.wf(),
        store.back(session, n, dirs, now) is Ok,
        later_dirs.contains(
            lookup(store.log.events, store.resolve_cursor(session).spec_id()->0, session)->0.path,
        ),
    ensures
        store.back(session, n, dirs, now)->Ok_0.1.from_id == store.resolve_cursor(
            session,
        ).spec_id()->0,
        store.back(session, n, dirs, now)->Ok_0.0.cancel(session, later_dirs, later) is Ok,
        ({
            let jump = store.back(session, n, dirs, now)->Ok_0.1;
            let jumped = store.back(session, n, dirs, now)->Ok_0.0;
            let restored = jumped.cancel(session, later_dirs, later)->Ok_0.1;
            let after = jumped.cancel(session, later_dirs, later)->Ok_0.0;
            &&& restored.cursor_id == jump.from_id
            &&& restored.undo_id == jump.undo_id
            &&& restored.path == lookup(store.log.events, jump.from_id, session)->0.path
            &&& after.sessions[session].cursor_id == jump.from_id
            &&& after.sessions[session].last_jump == no_jump()
            &&& after.resolve_cursor(session).spec_id() == Some(jump.from_id)
            &&& after.undo.entries == store.undo.entries
            &&& after.log == store.log
            &&& store.undo.top(session) is None ==> after.cancel(session, later_dirs, later) == Err::<
                (StoreView, RestoredView),
                Failure,
            >(Failure::NothingToCancel)
        }),
{
    let cursor = store.resolve_cursor(session).spec_id()->0;
    let jump = store.back(session, n, dirs, now)->Ok_0.1;
    let jumped = store.back(session, n, dirs, now)->Ok_0.0;
    lemma_cursor_event(store, session);
    let entry = UndoView {
        id: store.undo.next_id,
        session_key: session,
        from_id: cursor,
        to_id: jump.to_id,
        created_at: now,
    };
    lemma_cancel_undoes_top(jumped, store.undo.entries, entry, later_dirs, later);
}

/// Two `back` calls in a row push two undo entries, and two `cancel`
/// calls then undo them in reverse order: the first returns to where the
/// first `back` had landed, the second to the cursor from which the first
/// `back` had started, provided those two directories still exist.
pub proof fn law_two_backs_then_two_cancels(
    store: StoreView,
    session: Seq<char>,
    first_n: u32,
    first_dirs: Set<Seq<char>>,
    first_now: i64,
    second_n: u32,
    second_dirs: Set<Seq<char>>,
    second_now: i64,
    third_dirs: Set<Seq<char>>,
    third_now: i64,
    fourth_dirs: Set<Seq<char>>,
    fourth_now: i64,
)
    requires
        store.wf(),
        store.back(session, first_n, first_dirs, first_now) is Ok,
        store.back(session, first_n, first_dirs, first_now)->Ok_0.0.back(
            session,
            second_n,
            second_dirs,
            second_now,
        ) is Ok,
        third_dirs.contains(store.back(session, first_n, first_dirs, first_now)->Ok_0.1.path),
        fourth_dirs.contains(
            lookup(store.log.events, store.resolve_cursor(session).spec_id()->0, session)->0.path,
        ),
    ensures
        ({
            let first = store.back(session, first_n, first_dirs, first_now)->Ok_0;
            let second = first.0.back(session, second_n, second_dirs, second_now)->Ok_0;
            let undone = second.0.cancel(session, third_dirs, third_now);
            let undone_twice = undone->Ok_0.0.cancel(session, fourth_dirs, fourth_now);
            &&& second.1.from_id == first.1.to_id
            &&& second.0.undo.entries == store.undo.entries.push(
                UndoView {
                    id: first.1.undo_id,
                    session_key: session,
                    from_id: first.1.from_id,
                    to_id: first.1.to_id,
                    created_at: first_now,
                },
            ).push(
                UndoView {
                    id: second.1.undo_id,
                    session_key: session,
                    from_id: second.1.from_id,
                    to_id: second.1.to_id,
                    created_at: second_now,
                },
            )
            &&& undone is Ok
            &&& undone->Ok_0.1.undo_id == second.1.undo_id
            &&& undone->Ok_0.1.cursor_id == first.1.to_id
            &&& undone->Ok_0.1.path == first.1.path
            &&& undone_twice is Ok
            &&& undone_twice->Ok_0.1.undo_id == first.1.undo_id
            &&& undone_twice->Ok_0.1.cursor_id == first.1.from_id
            &&& undone_twice->Ok_0.1.path == lookup(
                store.log.events,
                first.1.from_id,
                session,
            )->0.path
            &&& undone_twice->Ok_0.0.sessions[session].cursor_id == first.1.from_id
            &&& undone_twice->Ok_0.0.undo.entries == store.undo.entries
        }),
{
    let cursor = store.resolve_cursor(session).spec_id()->0;
    let first = store.back(session, first_n, first_dirs, first_now)->Ok_0;
    let second = first.0.back(session, second_n, second_dirs, second_now)->Ok_0;
    lemma_cursor_event(store, session);
    lemma_target_event(store.log.events, session, cursor as int, first_dirs, first_n as int);
    assert(first.0.resolve_cursor(session).spec_id() == Some(first.1.to_id));
    let bottom = UndoView {
        id: first.1.undo_id,
        session_key: session,
        from_id: cursor,
        to_id: first.1.to_id,
        created_at: first_now,
    };
    let top = UndoView {
        id: second.1.undo_id,
        session_key: session,
        from_id: first.1.to_id,
        to_id: second.1.to_id,
        created_at: second_now,
    };
    lemma_cancel_undoes_top(second.0, first.0.undo.entries, top, third_dirs, third_now);
    let undone = second.0.cancel(session, third_dirs, third_now)->Ok_0;
    lemma_cancel_undoes_top(undone.0, store.undo.entries, bottom, fourth_dirs, fourth_now);
}

/// After `record` the session has nothing to undo: `cancel` fails, even
/// though a jump could be undone before.
pub proof fn law_record_clears_undo(
    store: StoreView,
    session: Seq<char>,
    path: Seq<char>,
    dirs: Set<Seq<char>>,
    now: i64,
    later_dirs: Set<Seq<char>>,
    later: i64,
)
    requires
        store.wf(),
        store.record(session, path, dirs, now) is Ok,
    ensures
        store.record(session, path, dirs, now)->Ok_0.0.undo.top(session) is None,
        store.record(session, path, dirs, now)->Ok_0.0.cancel(session, later_dirs, later) == Err::<
            (StoreView, RestoredView),
            Failure,
        >(Failure::NothingToCancel),
{
    let cleared = store.undo.entries.filter(of_others(session));
    lemma_filter_entries(store.undo.entries, of_others(session));
    lemma_top_is_last(cleared, session);
}

/// Rotation never deletes an event that the live state of the session
/// refers to, nor any event of another session, however many events the
/// session holds.
pub proof fn law_rotation_spares_references(store: StoreView, session: Seq<char>, i: int)
    requires
        0 <= i < store.log.events.len(),
        store.live_reference(session, store.log.events[i].id) || store.log.events[i].session_key
            != session,
    ensures
        store.rotate_events(session).log.events.contains(store.log.events[i]),
{
    let e = store.log.events[i];
    match store.log.rotation_bound(session, store.keep_from(session)) {
        Some(bound) => {
            if e.session_key == session {
                let lowest = store.keep_from(session)->0;
                assert(store.is_lowest_reference(session, lowest));
            }
            assert(survives(session, bound)(e));
            store.log.events.lemma_filter_contains(survives(session, bound), i);
        },
        None => {},
    }
}

/// After a visit of `path` the session's most recent event has that path
/// and the id that anchors the session, and the log is well formed.
pub proof fn lemma_append_sets_latest(
    log: EventLogView,
    session: Seq<char>,
    path: Seq<char>,
    now: i64,
)
    requires
        log.wf(),
        !(log.changes(session, path) && log.next_id == i64::MAX),
    ensures
        log.append_if_changed(session, path, now).wf(),
        log.append_if_changed(session, path, now).latest(session) == Some(
            VisitView { id: log.anchor(session, path), path },
        ),
{
    let after = log.append_if_changed(session, path, now);
    if log.changes(session, path) {
        let added = EventView { id: log.next_id, session_key: session, path, timestamp: now };
        assert(after.events.drop_last() =~= log.events);
        assert(after.events.last() == added);
        assert(after.history(session)[0] == visit_of(added));
    }
}

/// What a rotation that keeps the session's most recent event leaves of
/// the session's history: its most recent `EVENTS_KEPT_PER_SESSION` rows.
pub proof fn lemma_rotation_caps_history(log: EventLogView, session: Seq<char>)
    requires
        log.wf(),
        log.latest(session) is Some,
    ensures
        log.rotate(session, Some(log.latest(session)->0.id)).history(session) == if log.history(
            session,
        ).len() >= EVENTS_KEPT_PER_SESSION {
            log.history(session).take(EVENTS_KEPT_PER_SESSION as int)
        } else {
            log.history(session)
        },
        log.rotation_bound(session, Some(log.latest(session)->0.id)) == log.rotation_cutoff(
            session,
        ),
{
    let rows = log.history(session);
    let last = EVENTS_KEPT_PER_SESSION - 1;
    if rows.len() >= EVENTS_KEPT_PER_SESSION {
        assert forall|a: int, b: int| 0 <= a < b < rows.len() implies (#[trigger] rows[a]).id > (
        #[trigger] rows[b]).id by {
            lemma_scan_descends(log.events, session, log.next_id as int, a, b);
        }
        assert(rows[0].id > rows[last].id);
        lemma_scan_rotated(log.events, session, log.next_id as int, rows[last].id);
        lemma_filter_descending(rows, last);
    }
}

/// A second `record` of the same directory appends no event and leaves
/// the log as the first `record` left it.
pub proof fn law_repeated_record_appends_nothing(
    store: StoreView,
    session: Seq<char>,
    path: Seq<char>,
    dirs: Set<Seq<char>>,
    now: i64,
    later_dirs: Set<Seq<char>>,
    later: i64,
)
    requires
        store.wf(),
        store.record(session, path, dirs, now) is Ok,
        later_dirs.contains(path),
    ensures
        store.record(session, path, dirs, now)->Ok_0.0.record(session, path, later_dirs, later)
            is Ok,
        ({
            let first = store.record(session, path, dirs, now)->Ok_0;
            let second = first.0.record(session, path, later_dirs, later)->Ok_0;
            &&& !second.1.appended
            &&& second.1.event_id == first.1.event_id
            &&& second.0.log == first.0.log
        }),
{
    let first = store.record(session, path, dirs, now)->Ok_0;
    let id = store.log.anchor(session, path);
    let appended = store.log.append_if_changed(session, path, now);
    lemma_append_sets_latest(store.log, session, path, now);
    lemma_rotation_caps_history(appended, session);
    let rotated = first.0.log;
    assert(rotated.latest(session) == Some(VisitView { id, path }));
    assert(!rotated.changes(session, path));
    match appended.rotation_cutoff(session) {
        Some(cutoff) => {
            lemma_filter_keeps_order(appended.events, survives(session, cutoff));
            assert(rotated.wf()) by {
                assert forall|i: int| 0 <= i < rotated.events.len() implies 1 <= (
                #[trigger] rotated.events[i]).id < rotated.next_id by {
                    assert(appended.events.contains(rotated.events[i]));
                }
            }
            lemma_rotation_caps_history(rotated, session);
            assert(rotated.rotation_cutoff(session) == Some(cutoff));
            assert forall|i: int| 0 <= i < rotated.events.len() implies survives(session, cutoff)(
                #[trigger] rotated.events[i],
            ) by {
                appended.events.lemma_filter_pred(survives(session, cutoff), i);
            }
            lemma_filter_all(rotated.events, survives(session, cutoff));
        },
        None => {
            lemma_rotation_caps_history(rotated, session);
        },
    }
}

/// The step number of every row that `list` shows, handed to `back`,
/// leads to that row's directory, as long as the step number is within
/// the range that `back` accepts and the undo stack can take an entry.
pub proof fn law_list_then_back(
    store: StoreView,
    session: Seq<char>,
    limit: u32,
    dirs: Set<Seq<char>>,
    now: i64,
    j: int,
    later: i64,
)
    requires
        store.wf(),
        store.list(session, limit, dirs, now) is Ok,
        0 <= j < store.list(session, limit, dirs, now)->Ok_0.1.len(),
        store.list(session, limit, dirs, now)->Ok_0.1[j].step <= MAX_BACK,
        store.undo.next_id < i64::MAX,
    ensures
        store.list(session, limit, dirs, now)->Ok_0.1.len() <= limit,
        ({
            let listed = store.list(session, limit, dirs, now)->Ok_0;
            let jumped = listed.0.back(session, listed.1[j].step as u32, dirs, later);
            &&& jumped is Ok
            &&& jumped->Ok_0.1.path == listed.1[j].path
            &&& jumped->Ok_0.1.steps == listed.1[j].step
        }),
{
    let listed = store.list(session, limit, dirs, now)->Ok_0;
    let cursor = store.resolve_cursor(session).spec_id()->0;
    let rows = scan(store.log.events, session, cursor as int);
    assert(listed.0.resolve_cursor(session) == store.resolve_cursor(session));
    law_listed_step_is_reproducible(rows, dirs, limit as int, j);
    law_list_is_capped_and_ascending(rows, dirs, limit as int);
}

/// `back` succeeds as soon as one directory of the history before the
/// cursor exists, and lands on the oldest such directory whenever no
/// other lies `n` steps back or more.
pub proof fn law_back_falls_back_to_oldest(
    store: StoreView,
    session: Seq<char>,
    n: u32,
    dirs: Set<Seq<char>>,
    now: i64,
    oldest: int,
)
    requires
        store.wf(),
        1 <= n <= MAX_BACK,
        store.undo.next_id < i64::MAX,
        store.resolve_cursor(session).spec_id() is Some,
        ({
            let rows = scan(
                store.log.events,
                session,
                store.resolve_cursor(session).spec_id()->0 as int,
            );
            &&& navigable(rows, dirs, oldest)
            &&& forall|j: int| oldest < j < rows.len() ==> !navigable(rows, dirs, j)
            &&& forall|j: int| n - 1 <= j < oldest ==> !navigable(rows, dirs, j)
        }),
    ensures
        store.back(session, n, dirs, now) is Ok,
        ({
            let rows = scan(
                store.log.events,
                session,
                store.resolve_cursor(session).spec_id()->0 as int,
            );
            let jump = store.back(session, n, dirs, now)->Ok_0.1;
            &&& jump.to_id == rows[oldest].id
            &&& jump.path == rows[oldest].path
            &&& jump.steps == oldest + 1
        }),
{
    let rows = scan(store.log.events, session, store.resolve_cursor(session).spec_id()->0 as int);
    law_fallback_lands_on_oldest(rows, dirs, n as int, oldest);
}

/// After `record` the cursor of the session refers to its most recent
/// event, which the log holds and whose path is the recorded directory.
pub proof fn law_record_puts_cursor_on_latest(
    store: StoreView,
    session: Seq<char>,
    path: Seq<char>,
    dirs: Set<Seq<char>>,
    now: i64,
)
    requires
        store.wf(),
        store.record(session, path, dirs, now) is Ok,
    ensures
        ({
            let recorded = store.record(session, path, dirs, now)->Ok_0;
            &&& recorded.0.wf()
            &&& recorded.0.log.latest(session) == Some(
                VisitView { id: recorded.1.event_id, path },
            )
            &&& recorded.0.resolve_cursor(session) == CursorResolution::Stored(recorded.1.event_id)
            &&& lookup(recorded.0.log.events, recorded.1.event_id, session) is Some
            &&& lookup(recorded.0.log.events, recorded.1.event_id, session)->0.path == path
        }),
{
    let recorded = store.record(session, path, dirs, now)->Ok_0;
    let appended = store.log.append_if_changed(session, path, now);
    lemma_append_sets_latest(store.log, session, path, now);
    lemma_rotation_caps_history(appended, session);
    lemma_record_keeps_wf(store, session, path, dirs, now);
    lemma_scan_rows(recorded.0.log.events, session, recorded.0.log.next_id as int, 0);
}

/// `record` leaves the log and the undo stack well formed.
pub proof fn lemma_record_keeps_wf(
    store: StoreView,
    session: Seq<char>,
    path: Seq<char>,
    dirs: Set<Seq<char>>,
    now: i64,
)
    requires
        store.wf(),
        store.record(session, path, dirs, now) is Ok,
    ensures
        store.record(session, path, dirs, now)->Ok_0.0.wf(),
{
    let after = store.record(session, path, dirs, now)->Ok_0.0;
    let appended = store.log.append_if_changed(session, path, now);
    lemma_append_sets_latest(store.log, session, path, now);
    match appended.rotation_bound(session, Some(store.log.anchor(session, path))) {
        Some(bound) => {
            lemma_filter_keeps_order(appended.events, survives(session, bound));
            assert forall|i: int| 0 <= i < after.log.events.len() implies 1 <= (
            #[trigger] after.log.events[i]).id < after.log.next_id by {
                assert(appended.events.contains(after.log.events[i]));
            }
        },
        None => {},
    }
    lemma_filter_entries(store.undo.entries, of_others(session));
    assert forall|i: int| 0 <= i < after.undo.entries.len() implies 1 <= (
    #[trigger] after.undo.entries[i]).id < after.undo.next_id by {
        assert(store.undo.entries.contains(after.undo.entries[i]));
    }
}

/// `record` keeps a history free of repeats: where no two events next to
/// each other in the session's history had the same path before, none
/// have after.
pub proof fn law_record_keeps_history_deduplicated(
    store: StoreView,
    session: Seq<char>,
    path: Seq<char>,
    dirs: Set<Seq<char>>,
    now: i64,
)
    requires
        store.wf(),
        store.record(session, path, dirs, now) is Ok,
        deduplicated(store.log.history(session)),
    ensures
        deduplicated(store.record(session, path, dirs, now)->Ok_0.0.log.history(session)),
{
    let before = store.log.history(session);
    let appended = store.log.append_if_changed(session, path, now);
    let grown = appended.history(session);
    lemma_append_sets_latest(store.log, session, path, now);
    lemma_rotation_caps_history(appended, session);
    if store.log.changes(session, path) {
        lemma_scan_bound(
            store.log.events,
            session,
            store.log.next_id as int,
            appended.next_id as int,
        );
        assert(appended.events.drop_last() =~= store.log.events);
        assert(grown =~= seq![VisitView { id: store.log.next_id, path }] + before);
        assert forall|a: int, b: int| 0 <= a && b == a + 1 && b < grown.len() implies (
        #[trigger] grown[a]).path != (#[trigger] grown[b]).path by {
            if a > 0 {
                assert(before[a - 1].path != before[b - 1].path);
            }
        }
    }
    let after = store.record(session, path, dirs, now)->Ok_0.0.log.history(session);
    assert forall|a: int, b: int| 0 <= a && b == a + 1 && b < after.len() implies (
    #[trigger] after[a]).path != (#[trigger] after[b]).path by {
        assert(grown[a].path != grown[b].path);
    }
}

/// `record` leaves the history of every other session as it was.
pub proof fn law_record_leaves_other_histories(
    store: StoreView,
    session: Seq<char>,
    path: Seq<char>,
    dirs: Set<Seq<char>>,
    now: i64,
    other: Seq<char>,
)
    requires
        store.wf(),
        store.record(session, path, dirs, now) is Ok,
        other != session,
    ensures
        store.record(session, path, dirs, now)->Ok_0.0.log.history(other) == store.log.history(
            other,
        ),
        store.record(session, path, dirs, now)->Ok_0.0.sessions.remove(session)
            == store.sessions.remove(session),
{
    let appended = store.log.append_if_changed(session, path, now);
    lemma_scan_bound(store.log.events, other, store.log.next_id as int, appended.next_id as int);
    if store.log.changes(session, path) {
        assert(appended.events.drop_last() =~= store.log.events);
    }
    match appended.rotation_bound(session, Some(store.log.anchor(session, path))) {
        Some(bound) => {
            lemma_scan_rotated_other(
                appended.events,
                session,
                other,
                appended.next_id as int,
                bound,
            );
        },
        None => {},
    }
    assert(store.record(session, path, dirs, now)->Ok_0.0.sessions.remove(session)
        =~= store.sessions.remove(session));
}

/// A listing misses no row it could show: every navigable row is listed
/// unless the listing is full and the row lies further back than the last
/// row listed.
pub proof fn law_list_misses_no_closer_row(
    rows: Seq<VisitView>,
    dirs: Set<Seq<char>>,
    limit: int,
    k: int,
)
    requires
        0 <= limit,
        navigable(rows, dirs, k),
        spec_list(rows, dirs, limit).len() < limit || (spec_list(rows, dirs, limit).len() > 0
            && k + 1 <= spec_list(rows, dirs, limit).last().step),
    ensures
        exists|j: int|
            0 <= j < spec_list(rows, dirs, limit).len() && (#[trigger] spec_list(
                rows,
                dirs,
                limit,
            )[j]).step == k + 1,
{
    let all = candidates(rows, dirs);
    let listed = spec_list(rows, dirs, limit);
    lemma_navigable_is_candidate(rows, dirs, k);
    let j = choose|j: int| 0 <= j < all.len() && (#[trigger] all[j]).step == k + 1;
    if j >= listed.len() {
        lemma_candidates_ascend(rows, dirs, listed.len() - 1, j);
    }
    assert(listed[j].step == k + 1);
}

/// Every operation leaves the ids of the log and of the undo stack in
/// order: whatever `back`, `list`, `cancel`, a rotation or a retention
/// sweep does to a well-formed store, the store stays well formed. (For
/// `record`, see `lemma_record_keeps_wf`.)
pub proof fn law_operations_keep_the_store_well_formed(
    store: StoreView,
    session: Seq<char>,
    n: u32,
    dirs: Set<Seq<char>>,
    now: i64,
)
    requires
        store.wf(),
    ensures
        store.back(session, n, dirs, now) is Ok ==> store.back(session, n, dirs, now)->Ok_0.0.wf(),
        store.list(session, n, dirs, now) is Ok ==> store.list(session, n, dirs, now)->Ok_0.0.wf(),
        store.cancel(session, dirs, now) is Ok ==> store.cancel(session, dirs, now)->Ok_0.0.wf(),
        store.rotate_events(session).wf(),
        store.maybe_run(session, now).wf(),
{
    if store.cancel(session, dirs, now) is Ok {
        let after = store.cancel(session, dirs, now)->Ok_0.0;
        let i = top_index(store.undo.entries, session)->0;
        lemma_top_is_last(store.undo.entries, session);
        assert forall|a: int| 0 <= a < after.undo.entries.len() implies 1 <= (
        #[trigger] after.undo.entries[a]).id < after.undo.next_id by {
            if a < i {
                assert(after.undo.entries[a] == store.undo.entries[a]);
            } else {
                assert(after.undo.entries[a] == store.undo.entries[a + 1]);
            }
        }
        assert forall|a: int, b: int| 0 <= a < b < after.undo.entries.len() implies (
        #[trigger] after.undo.entries[a]).id < (#[trigger] after.undo.entries[b]).id by {
            let a0 = if a < i {
                a
            } else {
                a + 1
            };
            let b0 = if b < i {
                b
            } else {
                b + 1
            };
            assert(after.undo.entries[a] == store.undo.entries[a0]);
            assert(after.undo.entries[b] == store.undo.entries[b0]);
        }
    }
    let rotated = store.rotate_events(session);
    match store.log.rotation_bound(session, store.keep_from(session)) {
        Some(bound) => {
            lemma_filter_keeps_order(store.log.events, survives(session, bound));
            assert forall|i: int| 0 <= i < rotated.log.events.len() implies 1 <= (
            #[trigger] rotated.log.events[i]).id < rotated.log.next_id by {
                assert(store.log.events.contains(rotated.log.events[i]));
            }
        },
        None => {},
    }
    let swept = store.maybe_run(session, now);
    if store.sweep_due(now) {
        lemma_filter_entries(store.undo.entries, young(spec_cutoff(now, UNDO_RETENTION_SECS)));
        assert forall|i: int| 0 <= i < swept.undo.entries.len() implies 1 <= (
        #[trigger] swept.undo.entries[i]).id < swept.undo.next_id by {
            assert(store.undo.entries.contains(swept.undo.entries[i]));
        }
    }
}

/// Every successful operation on a session stamps the session's row with
/// the time of the operation; `list` does so where the session has a row.
pub proof fn law_activity_is_stamped(
    store: StoreView,
    session: Seq<char>,
    path: Seq<char>,
    n: u32,
    dirs: Set<Seq<char>>,
    now: i64,
)
    ensures
        store.record(session, path, dirs, now) is Ok ==> store.record(
            session,
            path,
            dirs,
            now,
        )->Ok_0.0.sessions[session].last_seen_at == now,
        store.back(session, n, dirs, now) is Ok ==> store.back(
            session,
            n,
            dirs,
            now,
        )->Ok_0.0.sessions[session].last_seen_at == now,
        store.cancel(session, dirs, now) is Ok ==> store.cancel(
            session,
            dirs,
            now,
        )->Ok_0.0.sessions[session].last_seen_at == now,
        store.list(session, n, dirs, now) is Ok && store.sessions.contains_key(session)
            ==> store.list(session, n, dirs, now)->Ok_0.0.sessions[session].last_seen_at == now,
        store.list(session, n, dirs, now) is Ok ==> ({
            let after = store.list(session, n, dirs, now)->Ok_0.0;
            &&& after.log == store.log
            &&& after.undo == store.undo
            &&& after.sessions.dom() == store.sessions.dom()
            &&& after.sessions.contains_key(session) ==> after.sessions[session].cursor_id
                == store.sessions[session].cursor_id && after.sessions[session].last_jump
                == store.sessions[session].last_jump
        }),
{
    if store.list(session, n, dirs, now) is Ok {
        let after = store.list(session, n, dirs, now)->Ok_0.0;
        assert(after.sessions.dom() =~= store.sessions.dom());
    }
}

/// A retention sweep that is not due changes nothing. One that is due
/// never deletes the row of the active session nor any event, keeps
/// exactly the rows seen and the undo entries created within their
/// retention windows, and notes the time at which it ran.
pub proof fn law_sweep_spares_the_active_session(store: StoreView, active: Seq<char>, now: i64)
    requires
        store.wf(),
    ensures
        !store.sweep_due(now) ==> store.maybe_run(active, now) == store,
        store.sweep_due(now) ==> ({
            let swept = store.maybe_run(active, now);
            &&& swept.last_cleanup_at == now
            &&& swept.log == store.log
            &&& store.sessions.contains_key(active) ==> swept.sessions.contains_key(active)
                && swept.sessions[active] == store.sessions[active]
            &&& forall|k: Seq<char>|
                swept.sessions.contains_key(k) <==> store.sessions.contains_key(k) && (k == active
                    || now - store.sessions[k].last_seen_at <= SESSION_RETENTION_SECS)
            &&& forall|i: int|
                0 <= i < swept.undo.entries.len() ==> now - (#[trigger] swept.undo.entries[i]).created_at
                    <= UNDO_RETENTION_SECS && store.undo.entries.contains(swept.undo.entries[i])
            &&& forall|i: int|
                0 <= i < store.undo.entries.len() && now - (
                #[trigger] store.undo.entries[i]).created_at <= UNDO_RETENTION_SECS
                    ==> swept.undo.entries.contains(store.undo.entries[i])
        }),
{
    if store.sweep_due(now) {
        let swept = store.maybe_run(active, now);
        let keeps = young(spec_cutoff(now, UNDO_RETENTION_SECS));
        lemma_filter_entries(store.undo.entries, keeps);
        assert forall|i: int|
            0 <= i < store.undo.entries.len() && now - (
            #[trigger] store.undo.entries[i]).created_at
                <= UNDO_RETENTION_SECS implies swept.undo.entries.contains(
            store.undo.entries[i],
        ) by {
            store.undo.entries.lemma_filter_contains(keeps, i);
        }
    }
}

} // verus!
