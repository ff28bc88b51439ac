//! The store and its four operations: `record`, `back`, `list` and
//! `cancel`, together with rotation of the event log and the retention
//! sweep.
//!
//! Each operation has a spec function on `StoreView` that gives, for a
//! state and the operation's arguments, either the next state and the
//! result or the reason for which the operation fails.

use vstd::prelude::*;
use crate::dirs::DirSnapshot;
use crate::event_log::{
    event_views,
    lemma_scan_rows,
    lookup,
    scan,
    Event,
    EventLog,
    EventLogView,
    EventView,
};
use crate::failure::Failure;
use crate::navigate::{
    list_candidates,
    navigate,
    shown,
    spec_list,
    spec_navigate,
    Candidate,
    CandidateView,
};
use crate::session::{
    no_jump,
    purged,
    row_views,
    table_of,
    touched,
    unique_keys,
    LastJump,
    SessionState,
    SessionTable,
    SessionView,
};
use crate::undo::{
    lemma_filter_entries,
    of_others,
    refers_to,
    undo_views,
    UndoEntry,
    UndoStack,
    UndoStackView,
    UndoView,
};

verus! {

/// The largest step count that `back` accepts, and the largest limit that
/// `list` accepts.
pub const MAX_BACK: u32 = 999;

/// The limit that `list` is given where the caller names none.
pub const DEFAULT_LIST: u32 = 10;

/// The retention sweep runs at most once in this many seconds (10 days).
pub const CLEANUP_INTERVAL_SECS: i64 = 864000;

/// A session's row is deleted once it has not been seen for this many
/// seconds (180 days).
pub const SESSION_RETENTION_SECS: i64 = 15552000;

/// An undo entry is deleted once it is older than this many seconds (90
/// days).
pub const UNDO_RETENTION_SECS: i64 = 7776000;

/// How the cursor of a session was found.
#[derive(Clone, Copy, Debug, PartialEq, Eq, Structural)]
pub enum CursorResolution {
    /// The stored cursor refers to an event that the log still holds.
    Stored(i64),
    /// The session has no row, or its cursor refers to an event that is
    /// gone: the cursor is the session's most recent event.
    FallbackLatest(i64),
    /// The session has no events.
    NoHistory,
}

impl CursorResolution {
    /// The resolved cursor, if there is one.
    pub open spec fn spec_id(self) -> Option<i64> {
        match self {
            CursorResolution::Stored(id) => Some(id),
            CursorResolution::FallbackLatest(id) => Some(id),
            CursorResolution::NoHistory => None,
        }
    }

    /// The resolved cursor, if there is one.
    #[verifier::when_used_as_spec(spec_id)]
    pub fn id(self) -> (id: Option<i64>)
        ensures
            id == self.spec_id(),
    {
        match self {
            CursorResolution::Stored(id) => Some(id),
            CursorResolution::FallbackLatest(id) => Some(id),
            CursorResolution::NoHistory => None,
        }
    }
}

/// What `record` did to the log.
#[derive(Clone, Copy, Debug, PartialEq, Eq, Structural)]
pub struct Recorded {
    /// The event that the session's cursor now refers to.
    pub event_id: i64,
    /// Whether that event was added by this call.
    pub appended: bool,
    /// The id below which rotation deleted the session's events, if it
    /// deleted any.
    pub rotated_below: Option<i64>,
}

/// An executed jump.
#[derive(Debug)]
pub struct Jump {
    /// The cursor before the jump.
    pub from_id: i64,
    /// The event landed on, which is the cursor after the jump.
    pub to_id: i64,
    /// The directory of that event.
    pub path: String,
    /// How many steps back that event lies from the old cursor.
    pub steps: u64,
    /// The id of the undo entry that records the jump.
    pub undo_id: i64,
}

/// A `Jump` as a mathematical value.
pub struct JumpView {
    pub from_id: i64,
    pub to_id: i64,
    pub path: Seq<char>,
    pub steps: int,
    pub undo_id: i64,
}

impl View for Jump {
    type V = JumpView;

    open spec fn view(&self) -> JumpView {
        JumpView {
            from_id: self.from_id,
            to_id: self.to_id,
            path: self.path@,
            steps: self.steps as int,
            undo_id: self.undo_id,
        }
    }
}

/// A cancelled jump.
#[derive(Debug)]
pub struct Restored {
    /// The cursor after the cancellation: the one that the jump had left.
    pub cursor_id: i64,
    /// The directory of that event.
    pub path: String,
    /// The id of the undo entry that was consumed.
    pub undo_id: i64,
}

/// A `Restored` as a mathematical value.
pub struct RestoredView {
    pub cursor_id: i64,
    pub path: Seq<char>,
    pub undo_id: i64,
}

impl View for Restored {
    type V = RestoredView;

    open spec fn view(&self) -> RestoredView {
        RestoredView { cursor_id: self.cursor_id, path: self.path@, undo_id: self.undo_id }
    }
}

/// The event log, the session table, the undo stack and the time of the
/// last retention sweep.
#[derive(Debug)]
pub struct Store {
    log: EventLog,
    sessions: SessionTable,
    undo: UndoStack,
    last_cleanup_at: i64,
}

/// A `Store` as a mathematical value: the state on which the operations are
/// defined.
pub struct StoreView {
    pub log: EventLogView,
    pub sessions: Map<Seq<char>, SessionView>,
    pub undo: UndoStackView,
    pub last_cleanup_at: i64,
}

/// Why `back` refuses the step count `n`, if it does: the count is zero
/// or above `MAX_BACK`.
pub open spec fn spec_check_steps(n: u32) -> Option<Failure> {
    if n == 0 {
        Some(Failure::BackUsage)
    } else if n > MAX_BACK {
        Some(Failure::OverMax)
    } else {
        None
    }
}

/// Why `list` refuses the limit `limit`, if it does: the limit is zero or
/// above `MAX_BACK`.
pub open spec fn spec_check_limit(limit: u32) -> Option<Failure> {
    if limit == 0 {
        Some(Failure::ListUsage)
    } else if limit > MAX_BACK {
        Some(Failure::OverMax)
    } else {
        None
    }
}

/// The time `window` seconds before `now`, or the earliest time there is
/// where that lies before it.
pub open spec fn spec_cutoff(now: i64, window: i64) -> i64 {
    if now - window < i64::MIN {
        i64::MIN
    } else if now - window > i64::MAX {
        i64::MAX
    } else {
        (now - window) as i64
    }
}

impl StoreView {
    /// The log and the undo stack are well formed.
    pub open spec fn wf(self) -> bool {
        self.log.wf() && self.undo.wf()
    }

    /// The cursor of `session`: the stored one where the log still holds
    /// the event it refers to, the session's most recent event otherwise.
    pub open spec fn resolve_cursor(self, session: Seq<char>) -> CursorResolution {
        if self.sessions.contains_key(session) && lookup(
            self.log.events,
            self.sessions[session].cursor_id,
            session,
        ) is Some {
            CursorResolution::Stored(self.sessions[session].cursor_id)
        } else {
            match self.log.latest(session) {
                Some(v) => CursorResolution::FallbackLatest(v.id),
                None => CursorResolution::NoHistory,
            }
        }
    }

    /// The live state of `session` refers to the event id `id`: it is the
    /// session's cursor or an end of its last jump, 0 standing for none,
    /// or an end of one of its undo entries.
    pub open spec fn live_reference(self, session: Seq<char>, id: i64) -> bool {
        ||| self.sessions.contains_key(session) && id != 0 && (self.sessions[session].cursor_id
            == id || self.sessions[session].last_jump.from_id == id
            || self.sessions[session].last_jump.to_id == id)
        ||| refers_to(self.undo.entries, session, id)
    }

    /// `lowest` is the lowest id that the live state of `session` refers
    /// to.
    pub open spec fn is_lowest_reference(self, session: Seq<char>, lowest: i64) -> bool {
        self.live_reference(session, lowest) && forall|id: i64|
            self.live_reference(session, id) ==> lowest <= id
    }

    /// The lowest id that the live state of `session` refers to, if it
    /// refers to any.
    pub open spec fn keep_from(self, session: Seq<char>) -> Option<i64> {
        if exists|m: i64| self.is_lowest_reference(session, m) {
            Some(choose|m: i64| self.is_lowest_reference(session, m))
        } else {
            None
        }
    }

    /// The store after a rotation of the events of `session`.
    pub open spec fn rotate_events(self, session: Seq<char>) -> StoreView {
        StoreView { log: self.log.rotate(session, self.keep_from(session)), ..self }
    }

    /// What `record` does: the next state and what happened to the log, or
    /// the reason for which it fails.
    pub open spec fn record(
        self,
        session: Seq<char>,
        path: Seq<char>,
        dirs: Set<Seq<char>>,
        now: i64,
    ) -> Result<(StoreView, Recorded), Failure> {
        if !dirs.contains(path) {
            Err(Failure::NotADirectory)
        } else if self.log.changes(session, path) && self.log.next_id == i64::MAX {
            Err(Failure::IdsExhausted)
        } else {
            let id = self.log.anchor(session, path);
            let log = self.log.append_if_changed(session, path, now);
            Ok(
                (
                    StoreView {
                        log: log.rotate(session, Some(id)),
                        sessions: self.sessions.insert(
                            session,
                            SessionView { cursor_id: id, last_jump: no_jump(), last_seen_at: now },
                        ),
                        undo: self.undo.clear(session),
                        last_cleanup_at: self.last_cleanup_at,
                    },
                    Recorded {
                        event_id: id,
                        appended: self.log.changes(session, path),
                        rotated_below: log.rotation_bound(session, Some(id)),
                    },
                ),
            )
        }
    }

    /// What `back` does: the next state and the jump, or the reason for
    /// which it fails.
    pub open spec fn back(self, session: Seq<char>, n: u32, dirs: Set<Seq<char>>, now: i64) -> Result<
        (StoreView, JumpView),
        Failure,
    > {
        if let Some(refusal) = spec_check_steps(n) {
            Err(refusal)
        } else {
            match self.resolve_cursor(session).spec_id() {
                None => Err(Failure::NoEarlierDirectory),
                Some(cursor) => match spec_navigate(
                    scan(self.log.events, session, cursor as int),
                    dirs,
                    n as int,
                ) {
                    None => Err(Failure::NoEarlierDirectory),
                    Some(target) => if self.undo.next_id == i64::MAX {
                        Err(Failure::IdsExhausted)
                    } else {
                        Ok(
                            (
                                StoreView {
                                    sessions: self.sessions.insert(
                                        session,
                                        SessionView {
                                            cursor_id: target.id,
                                            last_jump: LastJump {
                                                delta: target.steps as u64,
                                                from_id: cursor,
                                                to_id: target.id,
                                                armed: true,
                                            },
                                            last_seen_at: now,
                                        },
                                    ),
                                    undo: self.undo.push(session, cursor, target.id, now),
                                    ..self
                                },
                                JumpView {
                                    from_id: cursor,
                                    to_id: target.id,
                                    path: target.path,
                                    steps: target.steps,
                                    undo_id: self.undo.next_id,
                                },
                            ),
                        )
                    },
                },
            }
        }
    }

    /// What `list` does: the next state and the rows shown, or the reason
    /// for which it fails.
    pub open spec fn list(self, session: Seq<char>, limit: u32, dirs: Set<Seq<char>>, now: i64) -> Result<
        (StoreView, Seq<CandidateView>),
        Failure,
    > {
        if let Some(refusal) = spec_check_limit(limit) {
            Err(refusal)
        } else {
            match self.resolve_cursor(session).spec_id() {
                None => Err(Failure::NoHistory),
                Some(cursor) => {
                    let entries = spec_list(
                        scan(self.log.events, session, cursor as int),
                        dirs,
                        limit as int,
                    );
                    if entries.len() == 0 {
                        Err(Failure::NoHistory)
                    } else {
                        Ok(
                            (
                                StoreView { sessions: touched(self.sessions, session, now), ..self },
                                entries,
                            ),
                        )
                    }
                },
            }
        }
    }

    /// What `cancel` does: the next state and the restored cursor, or the
    /// reason for which it fails.
    pub open spec fn cancel(self, session: Seq<char>, dirs: Set<Seq<char>>, now: i64) -> Result<
        (StoreView, RestoredView),
        Failure,
    > {
        match self.undo.top(session) {
            None => Err(Failure::NothingToCancel),
            Some(entry) => match lookup(self.log.events, entry.from_id, session) {
                None => Err(Failure::NothingToCancel),
                Some(event) => if !dirs.contains(event.path) {
                    Err(Failure::NothingToCancel)
                } else {
                    Ok(
                        (
                            StoreView {
                                sessions: self.sessions.insert(
                                    session,
                                    SessionView {
                                        cursor_id: entry.from_id,
                                        last_jump: no_jump(),
                                        last_seen_at: now,
                                    },
                                ),
                                undo: self.undo.pop(session),
                                ..self
                            },
                            RestoredView {
                                cursor_id: entry.from_id,
                                path: event.path,
                                undo_id: entry.id,
                            },
                        ),
                    )
                },
            },
        }
    }

    /// Whether a retention sweep is due at `now`: the last one lies
    /// `CLEANUP_INTERVAL_SECS` or more back.
    pub open spec fn sweep_due(self, now: i64) -> bool {
        now - self.last_cleanup_at >= CLEANUP_INTERVAL_SECS
    }

    /// The store after `maybe_run` at `now` on behalf of the session
    /// `active`.
    pub open spec fn maybe_run(self, active: Seq<char>, now: i64) -> StoreView {
        if self.sweep_due(now) {
            StoreView {
                log: self.log,
                sessions: purged(self.sessions, spec_cutoff(now, SESSION_RETENTION_SECS), active),
                undo: self.undo.purge_older(spec_cutoff(now, UNDO_RETENTION_SECS)),
                last_cleanup_at: now,
            }
        } else {
            self
        }
    }
}

impl View for Store {
    type V = StoreView;

    closed spec fn view(&self) -> StoreView {
        StoreView {
            log: self.log@,
            sessions: self.sessions@,
            undo: self.undo@,
            last_cleanup_at: self.last_cleanup_at,
        }
    }
}

/// Checks the step count of a `back`: it must be at least 1 and at most
/// `MAX_BACK`. Returns the reason for which it is refused, if it is.
pub fn check_steps(n: u32) -> (refusal: Option<Failure>)
    ensures
        refusal == spec_check_steps(n),
{
    if n == 0 {
        Some(Failure::BackUsage)
    } else if n > MAX_BACK {
        Some(Failure::OverMax)
    } else {
        None
    }
}

/// Checks the limit of a `list`: it must be at least 1 and at most
/// `MAX_BACK`. Returns the reason for which it is refused, if it is.
pub fn check_limit(limit: u32) -> (refusal: Option<Failure>)
    ensures
        refusal == spec_check_limit(limit),
{
    if limit == 0 {
        Some(Failure::ListUsage)
    } else if limit > MAX_BACK {
        Some(Failure::OverMax)
    } else {
        None
    }
}

/// The time `window` seconds before `now`, or the earliest time there is
/// where that lies before it.
pub fn cutoff(now: i64, window: i64) -> (at: i64)
    ensures
        at == spec_cutoff(now, window),
{
    match now.checked_sub(window) {
        Some(at) => at,
        None => if window >= 0 {
            i64::MIN
        } else {
            i64::MAX
        },
    }
}

/// A lowest reference is the one that `keep_from` gives.
pub proof fn lemma_keep_from_is(store: StoreView, session: Seq<char>, lowest: i64)
    requires
        store.is_lowest_reference(session, lowest),
    ensures
        store.keep_from(session) == Some(lowest),
{
    let chosen = choose|m: i64| store.is_lowest_reference(session, m);
    assert(store.live_reference(session, chosen));
    assert(store.live_reference(session, lowest));
}

/// Without a live reference `keep_from` gives none.
pub proof fn lemma_keep_from_none(store: StoreView, session: Seq<char>)
    requires
        forall|id: i64| !store.live_reference(session, id),
    ensures
        store.keep_from(session) is None,
{
}

impl Store {
    /// The session table as a value.
    pub closed spec fn session_table(&self) -> SessionTable {
        self.sessions
    }

    /// The store's parts are well formed: ids grow along the log and the
    /// undo stack, and no two session rows have the same key.
    pub open spec fn wf(&self) -> bool {
        self.session_table().wf() && self@.wf()
    }

    /// An empty store that has never been swept.
    pub fn new() -> (store: Self)
        ensures
            store.wf(),
            store@.log.events == Seq::<EventView>::empty(),
            store@.log.next_id == 1,
            store@.sessions == Map::<Seq<char>, SessionView>::empty(),
            store@.undo.entries == Seq::<UndoView>::empty(),
            store@.undo.next_id == 1,
            store@.last_cleanup_at == 0,
    {
        Store {
            log: EventLog::new(),
            sessions: SessionTable::new(),
            undo: UndoStack::new(),
            last_cleanup_at: 0,
        }
    }

    /// A store of the given parts.
    pub fn from_parts(
        log: EventLog,
        sessions: SessionTable,
        undo: UndoStack,
        last_cleanup_at: i64,
    ) -> (store: Self)
        requires
            log@.wf(),
            sessions.wf(),
            undo@.wf(),
        ensures
            store.wf(),
            store@ == (StoreView { log: log@, sessions: sessions@, undo: undo@, last_cleanup_at }),
    {
        Store { log, sessions, undo, last_cleanup_at }
    }

    /// A store of the given rows; `None` unless the events and the undo
    /// entries have ids that start at 1 or above, grow strictly and stay
    /// below the next id of their table, and no two session rows have the
    /// same key.
    pub fn from_tables(
        events: Vec<Event>,
        next_event_id: i64,
        sessions: Vec<SessionState>,
        undo: Vec<UndoEntry>,
        next_undo_id: i64,
        last_cleanup_at: i64,
    ) -> (store: Option<Self>)
        ensures
            store is Some <==> (EventLogView {
                events: event_views(events@),
                next_id: next_event_id,
            }).wf() && unique_keys(row_views(sessions@)) && (UndoStackView {
                entries: undo_views(undo@),
                next_id: next_undo_id,
            }).wf(),
            store matches Some(s) ==> s.wf() && s@ == (StoreView {
                log: EventLogView { events: event_views(events@), next_id: next_event_id },
                sessions: table_of(row_views(sessions@)),
                undo: UndoStackView { entries: undo_views(undo@), next_id: next_undo_id },
                last_cleanup_at,
            }),
    {
        let log = match EventLog::from_parts(events, next_event_id) {
            Some(log) => log,
            None => {
                return None;
            },
        };
        let sessions = match SessionTable::from_rows(sessions) {
            Some(sessions) => sessions,
            None => {
                return None;
            },
        };
        let undo = match UndoStack::from_parts(undo, next_undo_id) {
            Some(undo) => undo,
            None => {
                return None;
            },
        };
        Some(Store::from_parts(log, sessions, undo, last_cleanup_at))
    }

    /// The event log.
    pub fn log(&self) -> (log: &EventLog)
        ensures
            log@ == self@.log,
    {
        &self.log
    }

    /// The session table.
    pub fn sessions(&self) -> (sessions: &SessionTable)
        ensures
            sessions == self.session_table(),
            sessions@ == self@.sessions,
    {
        &self.sessions
    }

    /// The undo stack.
    pub fn undo(&self) -> (undo: &UndoStack)
        ensures
            undo@ == self@.undo,
    {
        &self.undo
    }

    /// The time of the last retention sweep.
    pub fn last_cleanup_at(&self) -> (at: i64)
        ensures
            at == self@.last_cleanup_at,
    {
        self.last_cleanup_at
    }

    /// Finds the cursor of `session`: the stored one where the log still
    /// holds the event it refers to, the session's most recent event
    /// otherwise.
    pub fn resolve_cursor(&self, session: &str) -> (resolution: CursorResolution)
        requires
            self.wf(),
        ensures
            resolution == self@.resolve_cursor(session@),
    {
        match self.sessions.get(session) {
            Some(row) => {
                if self.log.find(row.cursor_id, session).is_some() {
                    return CursorResolution::Stored(row.cursor_id);
                }
            },
            None => {},
        }
        match self.log.latest(session) {
            Some(v) => CursorResolution::FallbackLatest(v.id),
            None => CursorResolution::NoHistory,
        }
    }

    /// The lowest event id that the live state of `session` refers to:
    /// its cursor, the ends of its last jump and of its undo entries.
    pub fn lowest_live_reference(&self, session: &str) -> (lowest: Option<i64>)
        requires
            self.wf(),
        ensures
            lowest == self@.keep_from(session@),
    {
        let mut lowest = self.undo.lowest_reference(session);
        match self.sessions.get(session) {
            Some(row) => {
                lowest = lower_of(lowest, row.cursor_id);
                lowest = lower_of(lowest, row.last_jump.from_id);
                lowest = lower_of(lowest, row.last_jump.to_id);
            },
            None => {},
        }
        proof {
            match lowest {
                Some(m) => {
                    assert(self@.is_lowest_reference(session@, m));
                    lemma_keep_from_is(self@, session@, m);
                },
                None => {
                    lemma_keep_from_none(self@, session@);
                },
            }
        }
        lowest
    }

    /// Caps the history of `session`: once it holds
    /// `EVENTS_KEPT_PER_SESSION` events or more, deletes those older than
    /// the `EVENTS_KEPT_PER_SESSION` most recent ones, but none from the
    /// lowest id on that the session's live state refers to. Returns the
    /// id below which it deleted; without one, nothing changed.
    pub fn rotate_events(&mut self, session: &str) -> (bound: Option<i64>)
        requires
            old(self).wf(),
        ensures
            final(self).wf(),
            final(self)@ == old(self)@.rotate_events(session@),
            bound == old(self)@.log.rotation_bound(session@, old(self)@.keep_from(session@)),
    {
        let keep_from = self.lowest_live_reference(session);
        self.log.rotate(session, keep_from)
    }

    /// Records that `session` is now in the directory `path`. Appends an
    /// event unless the session's most recent one already has that path,
    /// puts the cursor on the session's most recent event, disarms the
    /// last jump, empties the session's undo stack and rotates its
    /// events. Fails where `path` is not an existing directory.
    pub fn record(&mut self, session: &str, path: &str, dirs: &DirSnapshot, now: i64) -> (result:
        Result<Recorded, Failure>)
        requires
            old(self).wf(),
        ensures
            final(self).wf(),
            match result {
                Ok(recorded) => old(self)@.record(session@, path@, dirs@, now) == Ok::<
                    (StoreView, Recorded),
                    Failure,
                >((final(self)@, recorded)),
                Err(failure) => old(self)@.record(session@, path@, dirs@, now) == Err::<
                    (StoreView, Recorded),
                    Failure,
                >(failure) && final(self)@ == old(self)@,
            },
    {
        if !dirs.is_directory(path) {
            return Err(Failure::NotADirectory);
        }
        let ghost before = self@;
        let next_id = self.log.next_id();
        let event_id = match self.log.append_if_changed(session, path, now) {
            Some(id) => id,
            None => {
                return Err(Failure::IdsExhausted);
            },
        };
        let appended = event_id == next_id;
        self.sessions.upsert(
            SessionState {
                session_key: session.to_owned(),
                cursor_id: event_id,
                last_jump: LastJump { delta: 0, from_id: 0, to_id: 0, armed: false },
                last_seen_at: now,
            },
        );
        self.undo.clear(session);
        proof {
            let reset = self@;
            lemma_filter_entries(before.undo.entries, of_others(session@));
            assert(forall|id: i64| !refers_to(reset.undo.entries, session@, id));
            lemma_anchor_in_range(before.log, session@, path@);
            assert(reset.is_lowest_reference(session@, event_id));
            lemma_keep_from_is(reset, session@, event_id);
        }
        let rotated_below = self.rotate_events(session);
        Ok(Recorded { event_id, appended, rotated_below })
    }

    /// Moves the cursor of `session` back by `n` steps through its
    /// history, counting every event on the way but landing only on one
    /// whose directory exists; where no such event lies `n` steps back or
    /// more, lands on the oldest one whose directory exists. Arms the last
    /// jump and puts the jump on the undo stack.
    pub fn back(&mut self, session: &str, n: u32, dirs: &DirSnapshot, now: i64) -> (result: Result<
        Jump,
        Failure,
    >)
        requires
            old(self).wf(),
        ensures
            final(self).wf(),
            match result {
                Ok(jump) => old(self)@.back(session@, n, dirs@, now) == Ok::<
                    (StoreView, JumpView),
                    Failure,
                >((final(self)@, jump@)),
                Err(failure) => old(self)@.back(session@, n, dirs@, now) == Err::<
                    (StoreView, JumpView),
                    Failure,
                >(failure) && final(self)@ == old(self)@,
            },
    {
        if let Some(refusal) = check_steps(n) {
            return Err(refusal);
        }
        let cursor = match self.resolve_cursor(session).id() {
            Some(cursor) => cursor,
            None => {
                return Err(Failure::NoEarlierDirectory);
            },
        };
        let rows = self.log.scan_backward(session, cursor);
        let target = match navigate(&rows, dirs, n) {
            Some(target) => target,
            None => {
                return Err(Failure::NoEarlierDirectory);
            },
        };
        let undo_id = match self.undo.push(session, cursor, target.id, now) {
            Some(id) => id,
            None => {
                return Err(Failure::IdsExhausted);
            },
        };
        self.sessions.upsert(
            SessionState {
                session_key: session.to_owned(),
                cursor_id: target.id,
                last_jump: LastJump {
                    delta: target.steps,
                    from_id: cursor,
                    to_id: target.id,
                    armed: true,
                },
                last_seen_at: now,
            },
        );
        Ok(Jump { from_id: cursor, to_id: target.id, path: target.path, steps: target.steps, undo_id })
    }

    /// Lists up to `limit` directories that `back` can land on from the
    /// cursor of `session`, closest first, each with the step count that
    /// leads to it. Changes nothing but the session's time of last
    /// activity.
    pub fn list(&mut self, session: &str, limit: u32, dirs: &DirSnapshot, now: i64) -> (result:
        Result<Vec<Candidate>, Failure>)
        requires
            old(self).wf(),
        ensures
            final(self).wf(),
            match result {
                Ok(entries) => old(self)@.list(session@, limit, dirs@, now) == Ok::<
                    (StoreView, Seq<CandidateView>),
                    Failure,
                >((final(self)@, shown(entries@))),
                Err(failure) => old(self)@.list(session@, limit, dirs@, now) == Err::<
                    (StoreView, Seq<CandidateView>),
                    Failure,
                >(failure) && final(self)@ == old(self)@,
            },
    {
        if let Some(refusal) = check_limit(limit) {
            return Err(refusal);
        }
        let cursor = match self.resolve_cursor(session).id() {
            Some(cursor) => cursor,
            None => {
                return Err(Failure::NoHistory);
            },
        };
        let rows = self.log.scan_backward(session, cursor);
        let entries = list_candidates(&rows, dirs, limit);
        if entries.len() == 0 {
            return Err(Failure::NoHistory);
        }
        self.sessions.touch(session, now);
        Ok(entries)
    }

    /// Undoes the most recent jump of `session` that has not been undone:
    /// puts the cursor back on the event that the jump left, disarms the
    /// last jump and takes the jump off the undo stack. Fails, and keeps
    /// the jump on the stack, where the log no longer holds that event or
    /// its directory no longer exists.
    pub fn cancel(&mut self, session: &str, dirs: &DirSnapshot, now: i64) -> (result: Result<
        Restored,
        Failure,
    >)
        requires
            old(self).wf(),
        ensures
            final(self).wf(),
            match result {
                Ok(restored) => old(self)@.cancel(session@, dirs@, now) == Ok::<
                    (StoreView, RestoredView),
                    Failure,
                >((final(self)@, restored@)),
                Err(failure) => old(self)@.cancel(session@, dirs@, now) == Err::<
                    (StoreView, RestoredView),
                    Failure,
                >(failure) && final(self)@ == old(self)@,
            },
    {
        let (undo_id, from_id) = match self.undo.peek(session) {
            Some(entry) => (entry.id, entry.from_id),
            None => {
                return Err(Failure::NothingToCancel);
            },
        };
        let path = match self.log.find(from_id, session) {
            Some(event) => event.path.clone(),
            None => {
                return Err(Failure::NothingToCancel);
            },
        };
        if !dirs.is_directory(path.as_str()) {
            return Err(Failure::NothingToCancel);
        }
        self.undo.pop(session);
        self.sessions.upsert(
            SessionState {
                session_key: session.to_owned(),
                cursor_id: from_id,
                last_jump: LastJump { delta: 0, from_id: 0, to_id: 0, armed: false },
                last_seen_at: now,
            },
        );
        Ok(Restored { cursor_id: from_id, path, undo_id })
    }

    /// Runs the retention sweep if the last one lies
    /// `CLEANUP_INTERVAL_SECS` or more back, and says whether it ran. The
    /// sweep deletes the rows of sessions not seen for more than
    /// `SESSION_RETENTION_SECS`, except that of the session `active`, and
    /// the undo entries older than `UNDO_RETENTION_SECS`.
    pub fn maybe_run(&mut self, active: &str, now: i64) -> (ran: bool)
        requires
            old(self).wf(),
        ensures
            final(self).wf(),
            ran == old(self)@.sweep_due(now),
            final(self)@ == old(self)@.maybe_run(active@, now),
    {
        match now.checked_sub(self.last_cleanup_at) {
            Some(elapsed) => {
                if elapsed < CLEANUP_INTERVAL_SECS {
                    return false;
                }
            },
            None => {
                if now < self.last_cleanup_at {
                    return false;
                }
            },
        }
        self.sessions.purge_stale(cutoff(now, SESSION_RETENTION_SECS), active);
        self.undo.purge_older(cutoff(now, UNDO_RETENTION_SECS));
        self.last_cleanup_at = now;
        true
    }
}

/// The id that anchors a session after a visit lies in the range of ids.
pub proof fn lemma_anchor_in_range(log: EventLogView, session: Seq<char>, path: Seq<char>)
    requires
        log.wf(),
    ensures
        1 <= log.anchor(session, path) <= log.next_id,
        log.changes(session, path) <==> log.anchor(session, path) == log.next_id,
{
    if !log.changes(session, path) {
        lemma_scan_rows(log.events, session, log.next_id as int, 0);
    }
}

/// The lower of `lowest` and `id`, where 0 stands for no id.
fn lower_of(lowest: Option<i64>, id: i64) -> (lower: Option<i64>)
    ensures
        lower == if id == 0 {
            lowest
        } else {
            match lowest {
                Some(m) => Some(
                    if m <= id {
                        m
                    } else {
                        id
                    },
                ),
                None => Some(id),
            }
        },
{
    if id == 0 {
        lowest
    } else {
        match lowest {
            Some(m) => if m <= id {
                Some(m)
            } else {
                Some(id)
            },
            None => Some(id),
        }
    }
}

} // verus!
