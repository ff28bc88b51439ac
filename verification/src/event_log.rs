//! The event log: an append-only record of the directories each session
//! visited, in the order of their ids.

use vstd::prelude::*;
use crate::navigate::{Visit, VisitView, visits};

verus! {

/// The number of most recent events that rotation keeps for a session.
pub const EVENTS_KEPT_PER_SESSION: usize = 10000;

/// One recorded visit of a directory.
#[derive(Debug)]
pub struct Event {
    pub id: i64,
    pub session_key: String,
    pub path: String,
    pub timestamp: i64,
}

/// An `Event` as a mathematical value.
pub struct EventView {
    pub id: i64,
    pub session_key: Seq<char>,
    pub path: Seq<char>,
    pub timestamp: i64,
}

impl View for Event {
    type V = EventView;

    open spec fn view(&self) -> EventView {
        EventView {
            id: self.id,
            session_key: self.session_key@,
            path: self.path@,
            timestamp: self.timestamp,
        }
    }
}

/// The events of all sessions, ordered by id, and the id that the next
/// event gets.
#[derive(Debug)]
pub struct EventLog {
    events: Vec<Event>,
    next_id: i64,
}

/// An `EventLog` as a mathematical value.
pub struct EventLogView {
    pub events: Seq<EventView>,
    pub next_id: i64,
}

/// The events as mathematical values.
pub open spec fn event_views(events: Seq<Event>) -> Seq<EventView> {
    events.map_values(|e: Event| e@)
}

/// The scan row that stands for an event.
pub open spec fn visit_of(e: EventView) -> VisitView {
    VisitView { id: e.id, path: e.path }
}

/// The events of `session` with an id below `before`, from the most
/// recent to the oldest.
pub open spec fn scan(events: Seq<EventView>, session: Seq<char>, before: int) -> Seq<VisitView>
    decreases events.len(),
{
    if events.len() == 0 {
        Seq::empty()
    } else {
        let older = scan(events.drop_last(), session, before);
        let e = events.last();
        if e.session_key == session && e.id < before {
            seq![visit_of(e)] + older
        } else {
            older
        }
    }
}

/// The event of `session` with the given id, if the log holds one.
pub open spec fn lookup(events: Seq<EventView>, id: i64, session: Seq<char>) -> Option<EventView>
    decreases events.len(),
{
    if events.len() == 0 {
        None
    } else {
        let e = events.last();
        if e.id == id && e.session_key == session {
            Some(e)
        } else {
            lookup(events.drop_last(), id, session)
        }
    }
}

/// The events that a rotation of `session` up to `bound` leaves in place:
/// those of other sessions, and those of `session` from `bound` on.
pub open spec fn survives(session: Seq<char>, bound: i64) -> spec_fn(EventView) -> bool {
    |e: EventView| !(e.session_key == session && e.id < bound)
}

impl EventLogView {
    /// Ids start at 1, stay below the next id to assign, and grow strictly
    /// along the log.
    pub open spec fn wf(self) -> bool {
        &&& 1 <= self.next_id
        &&& forall|i: int| 0 <= i < self.events.len() ==> 1 <= (#[trigger] self.events[i]).id
            < self.next_id
        &&& forall|i: int, j: int|
            0 <= i < j < self.events.len() ==> (#[trigger] self.events[i]).id
                < (#[trigger] self.events[j]).id
    }

    /// The whole history of `session`, most recent first.
    pub open spec fn history(self, session: Seq<char>) -> Seq<VisitView> {
        scan(self.events, session, self.next_id as int)
    }

    /// The most recent event of `session`.
    pub open spec fn latest(self, session: Seq<char>) -> Option<VisitView> {
        if self.history(session).len() > 0 {
            Some(self.history(session)[0])
        } else {
            None
        }
    }

    /// Whether appending a visit of `path` would add an event: it does
    /// unless the session's most recent event already has that path.
    pub open spec fn changes(self, session: Seq<char>, path: Seq<char>) -> bool {
        match self.latest(session) {
            Some(v) => v.path != path,
            None => true,
        }
    }

    /// The id that anchors the session after a visit of `path`: that of
    /// the most recent event where nothing changes, the next id to assign
    /// where an event is added.
    pub open spec fn anchor(self, session: Seq<char>, path: Seq<char>) -> i64 {
        if self.changes(session, path) {
            self.next_id
        } else {
            self.latest(session)->0.id
        }
    }

    /// The log after a visit of `path` at time `now`.
    pub open spec fn append_if_changed(self, session: Seq<char>, path: Seq<char>, now: i64) -> Self {
        if self.changes(session, path) {
            EventLogView {
                events: self.events.push(
                    EventView { id: self.next_id, session_key: session, path, timestamp: now },
                ),
                next_id: (self.next_id + 1) as i64,
            }
        } else {
            self
        }
    }

    /// The id of the event of `session` that has exactly
    /// `EVENTS_KEPT_PER_SESSION - 1` more recent ones, if the session has
    /// that many events.
    pub open spec fn rotation_cutoff(self, session: Seq<char>) -> Option<i64> {
        if self.history(session).len() >= EVENTS_KEPT_PER_SESSION {
            Some(self.history(session)[EVENTS_KEPT_PER_SESSION - 1].id)
        } else {
            None
        }
    }

    /// The id below which a rotation deletes the events of `session`: the
    /// smaller of the cutoff and the lowest id still referenced. There is
    /// none while the session is under its cap or nothing is referenced.
    pub open spec fn rotation_bound(self, session: Seq<char>, keep_from: Option<i64>) -> Option<
        i64,
    > {
        match (self.rotation_cutoff(session), keep_from) {
            (Some(cutoff), Some(keep)) => Some(
                if cutoff <= keep {
                    cutoff
                } else {
                    keep
                },
            ),
            _ => None,
        }
    }

    /// The log after a rotation of `session`.
    pub open spec fn rotate(self, session: Seq<char>, keep_from: Option<i64>) -> Self {
        match self.rotation_bound(session, keep_from) {
            Some(bound) => EventLogView {
                events: self.events.filter(survives(session, bound)),
                next_id: self.next_id,
            },
            None => self,
        }
    }
}

impl View for EventLog {
    type V = EventLogView;

    closed spec fn view(&self) -> EventLogView {
        EventLogView { events: event_views(self.events@), next_id: self.next_id }
    }
}

/// One step of a scan: what the event at index `i` adds to the scan of
/// the events before it.
pub proof fn lemma_scan_step(events: Seq<EventView>, session: Seq<char>, before: int, i: int)
    requires
        0 <= i < events.len(),
    ensures
        scan(events.take(i + 1), session, before) == if events[i].session_key == session
            && events[i].id < before {
            seq![visit_of(events[i])] + scan(events.take(i), session, before)
        } else {
            scan(events.take(i), session, before)
        },
{
    assert(events.take(i + 1).drop_last() =~= events.take(i));
}

/// One step of a lookup: the event at index `i` is found, or the lookup
/// goes on among the events before it.
pub proof fn lemma_lookup_step(events: Seq<EventView>, id: i64, session: Seq<char>, i: int)
    requires
        0 <= i < events.len(),
    ensures
        lookup(events.take(i + 1), id, session) == if events[i].id == id && events[i].session_key
            == session {
            Some(events[i])
        } else {
            lookup(events.take(i), id, session)
        },
{
    assert(events.take(i + 1).drop_last() =~= events.take(i));
}

impl EventLog {
    /// An empty log whose first event gets id 1.
    pub fn new() -> (log: Self)
        ensures
            log@.wf(),
            log@.events == Seq::<EventView>::empty(),
            log@.next_id == 1,
    {
        let log = EventLog { events: Vec::new(), next_id: 1 };
        assert(log@.events =~= Seq::<EventView>::empty());
        log
    }

    /// A log of the given events; `None` unless their ids start at 1 or
    /// above, grow strictly and stay below `next_id`.
    pub fn from_parts(events: Vec<Event>, next_id: i64) -> (log: Option<Self>)
        ensures
            log is Some <==> (EventLogView { events: event_views(events@), next_id }).wf(),
            log matches Some(l) ==> l@ == (EventLogView { events: event_views(events@), next_id }),
    {
        if next_id < 1 {
            return None;
        }
        let ghost model = event_views(events@);
        let mut floor: i64 = 0;
        let mut i: usize = 0;
        while i < events.len()
            invariant
                i <= events.len(),
                model == event_views(events@),
                0 <= floor < next_id,
                i == 0 ==> floor == 0,
                i > 0 ==> floor == model[i - 1].id,
                forall|a: int| 0 <= a < i ==> 1 <= (#[trigger] model[a]).id < next_id,
                forall|a: int, b: int|
                    0 <= a < b < i ==> (#[trigger] model[a]).id < (#[trigger] model[b]).id,
            decreases events.len() - i,
        {
            let id = events[i].id;
            assert(model[i as int].id == id);
            if id <= floor || id >= next_id {
                proof {
                    let given = EventLogView { events: model, next_id };
                    if given.wf() {
                        assert(1 <= given.events[i as int].id < next_id);
                        if i > 0 {
                            assert(given.events[i - 1].id < given.events[i as int].id);
                        }
                    }
                }
                return None;
            }
            floor = id;
            i += 1;
        }
        Some(EventLog { events, next_id })
    }

    /// The events, ordered by id.
    pub fn events(&self) -> (events: &Vec<Event>)
        ensures
            event_views(events@) == self@.events,
    {
        &self.events
    }

    /// The id that the next event gets.
    pub fn next_id(&self) -> (id: i64)
        ensures
            id == self@.next_id,
    {
        self.next_id
    }

    /// The events of `session` with an id below `before_id`, from the most
    /// recent to the oldest.
    pub fn scan_backward(&self, session: &str, before_id: i64) -> (rows: Vec<Visit>)
        ensures
            visits(rows@) == scan(self@.events, session@, before_id as int),
    {
        let key = session.to_owned();
        let ghost model = self@.events;
        let ghost all = scan(model, session@, before_id as int);
        let mut rows: Vec<Visit> = Vec::new();
        let mut i: usize = self.events.len();
        assert(model.take(i as int) =~= model);
        assert(visits(rows@) + all =~= all);
        while i > 0
            invariant
                i <= self.events.len(),
                model == self@.events,
                key@ == session@,
                all == scan(model, session@, before_id as int),
                visits(rows@) + scan(model.take(i as int), session@, before_id as int) == all,
            decreases i,
        {
            i -= 1;
            proof {
                lemma_scan_step(model, session@, before_id as int, i as int);
            }
            if self.events[i].session_key == key && self.events[i].id < before_id {
                let row = Visit { id: self.events[i].id, path: self.events[i].path.clone() };
                let ghost found = visits(rows@);
                rows.push(row);
                assert(visits(rows@) =~= found.push(row@));
                assert(found.push(row@) + scan(model.take(i as int), session@, before_id as int)
                    =~= found + (seq![row@] + scan(
                    model.take(i as int),
                    session@,
                    before_id as int,
                )));
            }
        }
        assert(model.take(0) =~= Seq::<EventView>::empty());
        assert(visits(rows@) + Seq::<VisitView>::empty() =~= visits(rows@));
        rows
    }

    /// The most recent event of `session`.
    pub fn latest(&self, session: &str) -> (found: Option<Visit>)
        ensures
            match found {
                Some(v) => self@.latest(session@) == Some(v@),
                None => self@.latest(session@) is None,
            },
    {
        match self.nth_latest_index(session, 0) {
            Some(i) => Some(Visit { id: self.events[i].id, path: self.events[i].path.clone() }),
            None => None,
        }
    }

    /// The position of the event of `session` that has exactly `skip` more
    /// recent ones.
    fn nth_latest_index(&self, session: &str, skip: usize) -> (found: Option<usize>)
        ensures
            match found {
                Some(i) => i < self.events.len() && skip < self@.history(session@).len()
                    && self@.history(session@)[skip as int] == visit_of(self@.events[i as int]),
                None => self@.history(session@).len() <= skip,
            },
    {
        let key = session.to_owned();
        let ghost model = self@.events;
        let ghost before = self.next_id as int;
        let ghost all = scan(model, session@, before);
        let ghost mut passed: Seq<VisitView> = Seq::empty();
        let mut count: usize = 0;
        let mut i: usize = self.events.len();
        assert(model.take(i as int) =~= model);
        assert(passed + all =~= all);
        while i > 0
            invariant
                i <= self.events.len(),
                model == self@.events,
                before == self.next_id as int,
                key@ == session@,
                all == scan(model, session@, before),
                passed + scan(model.take(i as int), session@, before) == all,
                count == passed.len(),
                count <= skip,
                count <= self.events.len() - i,
            decreases i,
        {
            i -= 1;
            proof {
                lemma_scan_step(model, session@, before, i as int);
            }
            if self.events[i].session_key == key && self.events[i].id < self.next_id {
                let ghost rest = scan(model.take(i as int), session@, before);
                let ghost hit = visit_of(model[i as int]);
                assert(passed.push(hit) + rest =~= passed + (seq![hit] + rest));
                if count == skip {
                    assert((passed.push(hit) + rest)[skip as int] == hit);
                    return Some(i);
                }
                proof {
                    passed = passed.push(hit);
                }
                count += 1;
            }
        }
        assert(model.take(0) =~= Seq::<EventView>::empty());
        assert(passed + Seq::<VisitView>::empty() =~= passed);
        None
    }

    /// The event of `session` with the given id, if the log still holds
    /// it.
    pub fn find(&self, id: i64, session: &str) -> (found: Option<&Event>)
        ensures
            match found {
                Some(e) => lookup(self@.events, id, session@) == Some(e@),
                None => lookup(self@.events, id, session@) is None,
            },
    {
        let key = session.to_owned();
        let ghost model = self@.events;
        let mut i: usize = self.events.len();
        assert(model.take(i as int) =~= model);
        while i > 0
            invariant
                i <= self.events.len(),
                model == self@.events,
                key@ == session@,
                lookup(model.take(i as int), id, session@) == lookup(model, id, session@),
            decreases i,
        {
            i -= 1;
            proof {
                lemma_lookup_step(model, id, session@, i as int);
            }
            if self.events[i].id == id && self.events[i].session_key == key {
                return Some(&self.events[i]);
            }
        }
        assert(model.take(0) =~= Seq::<EventView>::empty());
        None
    }

    /// Records a visit of `path` by `session` at time `now`, unless the
    /// session's most recent event already has that path, and returns the
    /// id that anchors the session: the new event's, or that of the most
    /// recent event. Returns `None`, and changes nothing, where an event
    /// is due and the ids are used up.
    pub fn append_if_changed(&mut self, session: &str, path: &str, now: i64) -> (anchor: Option<
        i64,
    >)
        requires
            old(self)@.wf(),
        ensures
            final(self)@.wf(),
            anchor is None <==> old(self)@.changes(session@, path@) && old(self)@.next_id
                == i64::MAX,
            match anchor {
                Some(id) => final(self)@ == old(self)@.append_if_changed(session@, path@, now)
                    && id == old(self)@.anchor(session@, path@),
                None => final(self)@ == old(self)@,
            },
    {
        let wanted = path.to_owned();
        match self.latest(session) {
            Some(v) => {
                if v.path == wanted {
                    return Some(v.id);
                }
            },
            None => {},
        }
        if self.next_id == i64::MAX {
            return None;
        }
        let id = self.next_id;
        let event = Event { id, session_key: session.to_owned(), path: wanted, timestamp: now };
        self.events.push(event);
        self.next_id = id + 1;
        assert(self@.events =~= old(self)@.events.push(event@));
        Some(id)
    }

    /// Deletes the oldest events of `session` once it holds
    /// `EVENTS_KEPT_PER_SESSION` of them or more: those with an id below
    /// both the id of the `EVENTS_KEPT_PER_SESSION`-th most recent event
    /// and `keep_from_id`, the lowest id that the session still refers to.
    /// Returns the id below which it deleted; without one, nothing
    /// changed.
    pub fn rotate(&mut self, session: &str, keep_from_id: Option<i64>) -> (bound: Option<i64>)
        requires
            old(self)@.wf(),
        ensures
            final(self)@.wf(),
            bound == old(self)@.rotation_bound(session@, keep_from_id),
            final(self)@ == old(self)@.rotate(session@, keep_from_id),
    {
        let keep = match keep_from_id {
            Some(keep) => keep,
            None => {
                return None;
            },
        };
        let cutoff = match self.nth_latest_index(session, EVENTS_KEPT_PER_SESSION - 1) {
            Some(i) => self.events[i].id,
            None => {
                return None;
            },
        };
        let bound = if cutoff <= keep {
            cutoff
        } else {
            keep
        };
        let key = session.to_owned();
        let ghost orig = old(self)@.events;
        let ghost keeps = survives(session@, bound);
        let ghost mut j: int = 0;
        let mut i: usize = 0;
        proof {
            reveal(Seq::filter);
            assert(orig.take(0) =~= Seq::<EventView>::empty());
            assert(orig.take(0).filter(keeps) + orig.skip(0) =~= orig);
        }
        while i < self.events.len()
            invariant
                0 <= i <= self.events.len(),
                i <= j <= orig.len(),
                key@ == session@,
                keeps == survives(session@, bound),
                self.next_id == old(self).next_id,
                i == orig.take(j).filter(keeps).len(),
                self@.events == orig.take(j).filter(keeps) + orig.skip(j),
            decreases orig.len() - j,
        {
            let ghost kept = orig.take(j).filter(keeps);
            proof {
                assert(self@.events[i as int] == orig.skip(j)[0]);
                assert(orig.take(j + 1) =~= orig.take(j).push(orig[j]));
                orig.take(j).lemma_filter_push(orig[j], keeps);
            }
            if self.events[i].session_key == key && self.events[i].id < bound {
                let ghost shown = self@.events;
                self.events.remove(i);
                assert(self@.events =~= shown.remove(i as int));
                assert(shown.remove(i as int) =~= kept + orig.skip(j + 1));
            } else {
                assert(kept + orig.skip(j) =~= kept.push(orig[j]) + orig.skip(j + 1));
                i += 1;
            }
            proof {
                j = j + 1;
            }
        }
        proof {
            assert(orig.take(j) =~= orig);
            assert(orig.filter(keeps) + orig.skip(j) =~= orig.filter(keeps));
            lemma_filter_keeps_order(orig, keeps);
        }
        Some(bound)
    }
}

/// Every row of a scan stands for an event of the session with an id
/// below the bound, and that event is what a lookup of its id finds.
pub proof fn lemma_scan_rows(events: Seq<EventView>, session: Seq<char>, before: int, k: int)
    requires
        0 <= k < scan(events, session, before).len(),
        forall|i: int, j: int|
            0 <= i < j < events.len() ==> (#[trigger] events[i]).id < (#[trigger] events[j]).id,
    ensures
        exists|i: int|
            0 <= i < events.len() && (#[trigger] events[i]).session_key == session && events[i].id
                < before && visit_of(events[i]) == scan(events, session, before)[k] && lookup(
                events,
                events[i].id,
                session,
            ) == Some(events[i]),
    decreases events.len(),
{
    let e = events.last();
    let head = events.drop_last();
    if e.session_key == session && e.id < before && k == 0 {
        assert(events[events.len() - 1] == e);
    } else {
        let k_head = if e.session_key == session && e.id < before {
            k - 1
        } else {
            k
        };
        assert(scan(events, session, before)[k] == scan(head, session, before)[k_head]);
        lemma_scan_rows(head, session, before, k_head);
        let i = choose|i: int|
            0 <= i < head.len() && (#[trigger] head[i]).session_key == session && head[i].id
                < before && visit_of(head[i]) == scan(head, session, before)[k_head] && lookup(
                head,
                head[i].id,
                session,
            ) == Some(head[i]);
        assert(events[i] == head[i]);
        assert(events[i].id < events[events.len() - 1].id);
    }
}

/// Every event of the session with an id below the bound has its row in
/// the scan.
pub proof fn lemma_scan_complete(events: Seq<EventView>, session: Seq<char>, before: int, i: int)
    requires
        0 <= i < events.len(),
        events[i].session_key == session,
        events[i].id < before,
    ensures
        scan(events, session, before).contains(visit_of(events[i])),
    decreases events.len(),
{
    let rows = scan(events, session, before);
    if i == events.len() - 1 {
        assert(rows[0] == visit_of(events[i]));
    } else {
        let head = events.drop_last();
        lemma_scan_complete(head, session, before, i);
        let older = scan(head, session, before);
        let k = choose|k: int| 0 <= k < older.len() && older[k] == visit_of(head[i]);
        if rows.len() == older.len() {
            assert(rows[k] == visit_of(events[i]));
        } else {
            assert(rows[k + 1] == visit_of(events[i]));
        }
    }
}

/// A lookup finds the event that has the id and belongs to the session,
/// wherever in the log it stands.
pub proof fn lemma_lookup_finds(events: Seq<EventView>, id: i64, session: Seq<char>, i: int)
    requires
        0 <= i < events.len(),
        events[i].id == id,
        events[i].session_key == session,
        forall|a: int, b: int|
            0 <= a < b < events.len() ==> (#[trigger] events[a]).id < (#[trigger] events[b]).id,
    ensures
        lookup(events, id, session) == Some(events[i]),
    decreases events.len(),
{
    if i < events.len() - 1 {
        assert(events[i].id < events[events.len() - 1].id);
        lemma_lookup_finds(events.drop_last(), id, session, i);
    }
}

/// A lookup finds nothing exactly when no event has the id and belongs to
/// the session.
pub proof fn lemma_lookup_none(events: Seq<EventView>, id: i64, session: Seq<char>)
    ensures
        lookup(events, id, session) is None <==> forall|i: int|
            0 <= i < events.len() ==> !((#[trigger] events[i]).id == id && events[i].session_key
                == session),
    decreases events.len(),
{
    if events.len() > 0 {
        let head = events.drop_last();
        lemma_lookup_none(head, id, session);
        let e = events[events.len() - 1];
        if !(e.id == id && e.session_key == session) {
            if lookup(head, id, session) is None {
                assert forall|i: int| 0 <= i < events.len() implies !((#[trigger] events[i]).id
                    == id && events[i].session_key == session) by {
                    if i < head.len() {
                        assert(head[i] == events[i]);
                    }
                }
            } else {
                let i = choose|i: int|
                    0 <= i < head.len() && (#[trigger] head[i]).id == id && head[i].session_key
                        == session;
                assert(events[i] == head[i]);
            }
        }
    }
}

/// Filtering a log keeps its events in order and adds none.
pub proof fn lemma_filter_keeps_order(events: Seq<EventView>, keeps: spec_fn(EventView) -> bool)
    requires
        forall|i: int, j: int|
            0 <= i < j < events.len() ==> (#[trigger] events[i]).id < (#[trigger] events[j]).id,
    ensures
        forall|i: int, j: int|
            0 <= i < j < events.filter(keeps).len() ==> (#[trigger] events.filter(keeps)[i]).id < (
            #[trigger] events.filter(keeps)[j]).id,
        forall|i: int|
            0 <= i < events.filter(keeps).len() ==> events.contains(
                #[trigger] events.filter(keeps)[i],
            ),
    decreases events.len(),
{
    reveal(Seq::filter);
    if events.len() > 0 {
        let head = events.drop_last();
        let kept = head.filter(keeps);
        lemma_filter_keeps_order(head, keeps);
        assert forall|i: int| 0 <= i < kept.len() implies events.contains(#[trigger] kept[i])
            && kept[i].id < events.last().id by {
            assert(head.contains(kept[i]));
            let m = choose|m: int| 0 <= m < head.len() && head[m] == kept[i];
            assert(events[m] == kept[i]);
        }
        assert(events.contains(events.last())) by {
            assert(events[events.len() - 1] == events.last());
        }
    }
}

/// The rows of a scan with an id of `bound` or above.
pub open spec fn from_id(bound: i64) -> spec_fn(VisitView) -> bool {
    |v: VisitView| v.id >= bound
}

/// A scan runs from higher ids to lower ones.
pub proof fn lemma_scan_descends(
    events: Seq<EventView>,
    session: Seq<char>,
    before: int,
    a: int,
    b: int,
)
    requires
        0 <= a < b < scan(events, session, before).len(),
        forall|i: int, j: int|
            0 <= i < j < events.len() ==> (#[trigger] events[i]).id < (#[trigger] events[j]).id,
    ensures
        scan(events, session, before)[a].id > scan(events, session, before)[b].id,
    decreases events.len(),
{
    let e = events.last();
    let head = events.drop_last();
    if e.session_key == session && e.id < before {
        lemma_scan_rows(head, session, before, b - 1);
        let i = choose|i: int|
            0 <= i < head.len() && (#[trigger] head[i]).session_key == session && head[i].id
                < before && visit_of(head[i]) == scan(head, session, before)[b - 1] && lookup(
                head,
                head[i].id,
                session,
            ) == Some(head[i]);
        assert(events[i] == head[i]);
        assert(events[i].id < events[events.len() - 1].id);
        if a > 0 {
            lemma_scan_descends(head, session, before, a - 1, b - 1);
        }
    } else {
        lemma_scan_descends(head, session, before, a, b);
    }
}

/// A filter that every element passes changes nothing.
pub proof fn lemma_filter_all<A>(s: Seq<A>, keeps: spec_fn(A) -> bool)
    requires
        forall|i: int| 0 <= i < s.len() ==> keeps(#[trigger] s[i]),
    ensures
        s.filter(keeps) == s,
    decreases s.len(),
{
    reveal(Seq::filter);
    if s.len() > 0 {
        let head = s.drop_last();
        assert forall|i: int| 0 <= i < head.len() implies keeps(#[trigger] head[i]) by {
            assert(head[i] == s[i]);
        }
        lemma_filter_all(head, keeps);
        assert(keeps(s[s.len() - 1]));
        assert(head.push(s.last()) =~= s);
    } else {
        assert(s.filter(keeps) =~= s);
    }
}

/// Of rows in descending order, those with an id of `rows[k].id` or above
/// are the first `k + 1`.
pub proof fn lemma_filter_descending(rows: Seq<VisitView>, k: int)
    requires
        0 <= k < rows.len(),
        forall|a: int, b: int|
            0 <= a < b < rows.len() ==> (#[trigger] rows[a]).id > (#[trigger] rows[b]).id,
    ensures
        rows.filter(from_id(rows[k].id)) == rows.take(k + 1),
    decreases rows.len(),
{
    reveal(Seq::filter);
    let keeps = from_id(rows[k].id);
    if k == rows.len() - 1 {
        assert forall|i: int| 0 <= i < rows.len() implies keeps(#[trigger] rows[i]) by {
            if i < k {
                assert(rows[i].id > rows[k].id);
            }
        }
        lemma_filter_all(rows, keeps);
        assert(rows.take(k + 1) =~= rows);
    } else {
        let head = rows.drop_last();
        assert(head[k] == rows[k]);
        assert forall|a: int, b: int| 0 <= a < b < head.len() implies (#[trigger] head[a]).id > (
        #[trigger] head[b]).id by {
            assert(rows[a].id > rows[b].id);
        }
        lemma_filter_descending(head, k);
        assert(rows[k].id > rows[rows.len() - 1].id);
        assert(head.take(k + 1) =~= rows.take(k + 1));
    }
}

/// The scan of a rotated log is the scan of the log without the rows
/// below the bound of the rotation.
pub proof fn lemma_scan_rotated(
    events: Seq<EventView>,
    session: Seq<char>,
    before: int,
    bound: i64,
)
    ensures
        scan(events.filter(survives(session, bound)), session, before) == scan(
            events,
            session,
            before,
        ).filter(from_id(bound)),
    decreases events.len(),
{
    reveal(Seq::filter);
    let keeps = survives(session, bound);
    let wanted = from_id(bound);
    if events.len() == 0 {
        assert(events.filter(keeps) =~= Seq::<EventView>::empty());
        assert(scan(events, session, before).filter(wanted) =~= Seq::<VisitView>::empty());
    } else {
        let e = events.last();
        let head = events.drop_last();
        lemma_scan_rotated(head, session, before, bound);
        let kept = head.filter(keeps);
        let older = scan(head, session, before);
        if keeps(e) {
            assert(kept.push(e).drop_last() =~= kept);
        }
        if e.session_key == session && e.id < before {
            let row = seq![visit_of(e)];
            Seq::filter_distributes_over_add(row, older, wanted);
            assert(row.drop_last() =~= Seq::<VisitView>::empty());
            assert(row.drop_last().filter(wanted) =~= Seq::<VisitView>::empty());
            assert(row.last() == visit_of(e));
            if wanted(visit_of(e)) {
                assert(row.filter(wanted) =~= row);
            } else {
                assert(row.filter(wanted) =~= Seq::<VisitView>::empty());
                assert(row.filter(wanted) + older.filter(wanted) =~= older.filter(wanted));
            }
        }
    }
}

/// No two rows next to each other have the same path.
pub open spec fn deduplicated(rows: Seq<VisitView>) -> bool {
    forall|a: int, b: int|
        0 <= a && b == a + 1 && b < rows.len() ==> (#[trigger] rows[a]).path != (
        #[trigger] rows[b]).path
}

/// A scan does not depend on its bound once the bound lies above every
/// id.
pub proof fn lemma_scan_bound(events: Seq<EventView>, session: Seq<char>, low: int, high: int)
    requires
        low <= high,
        forall|i: int| 0 <= i < events.len() ==> (#[trigger] events[i]).id < low,
    ensures
        scan(events, session, low) == scan(events, session, high),
    decreases events.len(),
{
    if events.len() > 0 {
        let head = events.drop_last();
        assert forall|i: int| 0 <= i < head.len() implies (#[trigger] head[i]).id < low by {
            assert(head[i] == events[i]);
        }
        lemma_scan_bound(head, session, low, high);
        assert(events[events.len() - 1].id < low);
    }
}

/// A rotation of one session leaves the scans of every other session as
/// they were.
pub proof fn lemma_scan_rotated_other(
    events: Seq<EventView>,
    session: Seq<char>,
    other: Seq<char>,
    before: int,
    bound: i64,
)
    requires
        other != session,
    ensures
        scan(events.filter(survives(session, bound)), other, before) == scan(events, other, before),
    decreases events.len(),
{
    reveal(Seq::filter);
    let keeps = survives(session, bound);
    if events.len() > 0 {
        let e = events.last();
        let head = events.drop_last();
        lemma_scan_rotated_other(head, session, other, before, bound);
        if keeps(e) {
            assert(head.filter(keeps).push(e).drop_last() =~= head.filter(keeps));
        }
    }
}

} // verus!
