//! The undo stack: every executed jump, in the order executed, so that
//! jumps can be cancelled one by one, the most recent first.

use vstd::prelude::*;

verus! {

/// One executed jump of a session, from the cursor it left to the event
/// it landed on.
#[derive(Debug)]
pub struct UndoEntry {
    pub id: i64,
    pub session_key: String,
    pub from_id: i64,
    pub to_id: i64,
    pub created_at: i64,
}

/// An `UndoEntry` as a mathematical value.
pub struct UndoView {
    pub id: i64,
    pub session_key: Seq<char>,
    pub from_id: i64,
    pub to_id: i64,
    pub created_at: i64,
}

impl View for UndoEntry {
    type V = UndoView;

    open spec fn view(&self) -> UndoView {
        UndoView {
            id: self.id,
            session_key: self.session_key@,
            from_id: self.from_id,
            to_id: self.to_id,
            created_at: self.created_at,
        }
    }
}

/// The jumps of all sessions, ordered by id, and the id that the next
/// entry gets.
#[derive(Debug)]
pub struct UndoStack {
    entries: Vec<UndoEntry>,
    next_id: i64,
}

/// An `UndoStack` as a mathematical value.
pub struct UndoStackView {
    pub entries: Seq<UndoView>,
    pub next_id: i64,
}

/// The entries as mathematical values.
pub open spec fn undo_views(entries: Seq<UndoEntry>) -> Seq<UndoView> {
    entries.map_values(|e: UndoEntry| e@)
}

/// The position of the most recent entry of `session`.
pub open spec fn top_index(entries: Seq<UndoView>, session: Seq<char>) -> Option<int>
    decreases entries.len(),
{
    if entries.len() == 0 {
        None
    } else if entries.last().session_key == session {
        Some(entries.len() - 1)
    } else {
        top_index(entries.drop_last(), session)
    }
}

/// Some entry of `session` has `id` as one of its two ends.
pub open spec fn refers_to(entries: Seq<UndoView>, session: Seq<char>, id: i64) -> bool {
    exists|i: int|
        0 <= i < entries.len() && (#[trigger] entries[i]).session_key == session && (
        entries[i].from_id == id || entries[i].to_id == id)
}

/// The entries of every session but `session`.
pub open spec fn of_others(session: Seq<char>) -> spec_fn(UndoView) -> bool {
    |e: UndoView| e.session_key != session
}

/// The entries created at `cutoff` or later.
pub open spec fn young(cutoff: i64) -> spec_fn(UndoView) -> bool {
    |e: UndoView| e.created_at >= cutoff
}

impl UndoStackView {
    /// Ids start at 1, stay below the next id to assign, and grow strictly
    /// along the stack.
    pub open spec fn wf(self) -> bool {
        &&& 1 <= self.next_id
        &&& forall|i: int| 0 <= i < self.entries.len() ==> 1 <= (#[trigger] self.entries[i]).id
            < self.next_id
        &&& forall|i: int, j: int|
            0 <= i < j < self.entries.len() ==> (#[trigger] self.entries[i]).id
                < (#[trigger] self.entries[j]).id
    }

    /// The most recent entry of `session`.
    pub open spec fn top(self, session: Seq<char>) -> Option<UndoView> {
        match top_index(self.entries, session) {
            Some(i) => Some(self.entries[i]),
            None => None,
        }
    }

    /// The stack with one more jump of `session` on top.
    pub open spec fn push(self, session: Seq<char>, from_id: i64, to_id: i64, now: i64) -> Self {
        UndoStackView {
            entries: self.entries.push(
                UndoView { id: self.next_id, session_key: session, from_id, to_id, created_at: now },
            ),
            next_id: (self.next_id + 1) as i64,
        }
    }

    /// The stack without the most recent entry of `session`.
    pub open spec fn pop(self, session: Seq<char>) -> Self {
        match top_index(self.entries, session) {
            Some(i) => UndoStackView { entries: self.entries.remove(i), next_id: self.next_id },
            None => self,
        }
    }

    /// The stack without the entries of `session`.
    pub open spec fn clear(self, session: Seq<char>) -> Self {
        UndoStackView { entries: self.entries.filter(of_others(session)), next_id: self.next_id }
    }

    /// The stack without the entries created before `cutoff`.
    pub open spec fn purge_older(self, cutoff: i64) -> Self {
        UndoStackView { entries: self.entries.filter(young(cutoff)), next_id: self.next_id }
    }
}

impl View for UndoStack {
    type V = UndoStackView;

    closed spec fn view(&self) -> UndoStackView {
        UndoStackView { entries: undo_views(self.entries@), next_id: self.next_id }
    }
}

/// One step of the search for the top: the entry at index `i` is it, or
/// the search goes on among the entries before it.
pub proof fn lemma_top_step(entries: Seq<UndoView>, session: Seq<char>, i: int)
    requires
        0 <= i < entries.len(),
    ensures
        top_index(entries.take(i + 1), session) == if entries[i].session_key == session {
            Some(i)
        } else {
            top_index(entries.take(i), session)
        },
{
    assert(entries.take(i + 1).drop_last() =~= entries.take(i));
}

/// The top of a session is its last entry, and a session without entries
/// has none.
pub proof fn lemma_top_is_last(entries: Seq<UndoView>, session: Seq<char>)
    ensures
        match top_index(entries, session) {
            Some(i) => 0 <= i < entries.len() && entries[i].session_key == session && forall|
                j: int,
            |
                i < j < entries.len() ==> (#[trigger] entries[j]).session_key != session,
            None => forall|j: int|
                0 <= j < entries.len() ==> (#[trigger] entries[j]).session_key != session,
        },
    decreases entries.len(),
{
    if entries.len() > 0 && entries.last().session_key != session {
        lemma_top_is_last(entries.drop_last(), session);
        let head = entries.drop_last();
        match top_index(head, session) {
            Some(i) => {
                assert forall|j: int| i < j < entries.len() implies (#[trigger] entries[j]).session_key
                    != session by {
                    if j < head.len() {
                        assert(head[j] == entries[j]);
                    }
                }
            },
            None => {
                assert forall|j: int| 0 <= j < entries.len() implies (#[trigger] entries[j]).session_key
                    != session by {
                    if j < head.len() {
                        assert(head[j] == entries[j]);
                    }
                }
            },
        }
    }
}

/// Filtering a stack keeps its entries in order, keeps exactly the
/// entries that the filter accepts, and adds none.
pub proof fn lemma_filter_entries(entries: Seq<UndoView>, keeps: spec_fn(UndoView) -> bool)
    requires
        forall|i: int, j: int|
            0 <= i < j < entries.len() ==> (#[trigger] entries[i]).id < (#[trigger] entries[j]).id,
    ensures
        forall|i: int, j: int|
            0 <= i < j < entries.filter(keeps).len() ==> (#[trigger] entries.filter(keeps)[i]).id
                < (#[trigger] entries.filter(keeps)[j]).id,
        forall|i: int|
            0 <= i < entries.filter(keeps).len() ==> entries.contains(
                #[trigger] entries.filter(keeps)[i],
            ) && keeps(entries.filter(keeps)[i]),
    decreases entries.len(),
{
    reveal(Seq::filter);
    if entries.len() > 0 {
        let head = entries.drop_last();
        let kept = head.filter(keeps);
        lemma_filter_entries(head, keeps);
        assert forall|i: int| 0 <= i < kept.len() implies entries.contains(#[trigger] kept[i])
            && kept[i].id < entries.last().id by {
            assert(head.contains(kept[i]));
            let m = choose|m: int| 0 <= m < head.len() && head[m] == kept[i];
            assert(entries[m] == kept[i]);
        }
        assert(entries.contains(entries.last())) by {
            assert(entries[entries.len() - 1] == entries.last());
        }
    }
}

impl UndoStack {
    /// An empty stack whose first entry gets id 1.
    pub fn new() -> (stack: Self)
        ensures
            stack@.wf(),
            stack@.entries == Seq::<UndoView>::empty(),
            stack@.next_id == 1,
    {
        let stack = UndoStack { entries: Vec::new(), next_id: 1 };
        assert(stack@.entries =~= Seq::<UndoView>::empty());
        stack
    }

    /// A stack of the given entries; `None` unless their ids start at 1 or
    /// above, grow strictly and stay below `next_id`.
    pub fn from_parts(entries: Vec<UndoEntry>, next_id: i64) -> (stack: Option<Self>)
        ensures
            stack is Some <==> (UndoStackView { entries: undo_views(entries@), next_id }).wf(),
            stack matches Some(s) ==> s@ == (UndoStackView {
                entries: undo_views(entries@),
                next_id,
            }),
    {
        if next_id < 1 {
            return None;
        }
        let ghost model = undo_views(entries@);
        let mut floor: i64 = 0;
        let mut i: usize = 0;
        while i < entries.len()
            invariant
                i <= entries.len(),
                model == undo_views(entries@),
                0 <= floor < next_id,
                i == 0 ==> floor == 0,
                i > 0 ==> floor == model[i - 1].id,
                forall|a: int| 0 <= a < i ==> 1 <= (#[trigger] model[a]).id < next_id,
                forall|a: int, b: int|
                    0 <= a < b < i ==> (#[trigger] model[a]).id < (#[trigger] model[b]).id,
            decreases entries.len() - i,
        {
            let id = entries[i].id;
            assert(model[i as int].id == id);
            if id <= floor || id >= next_id {
                proof {
                    let given = UndoStackView { entries: model, next_id };
                    if given.wf() {
                        assert(1 <= given.entries[i as int].id < next_id);
                        if i > 0 {
                            assert(given.entries[i - 1].id < given.entries[i as int].id);
                        }
                    }
                }
                return None;
            }
            floor = id;
            i += 1;
        }
        Some(UndoStack { entries, next_id })
    }

    /// The entries, ordered by id.
    pub fn entries(&self) -> (entries: &Vec<UndoEntry>)
        ensures
            undo_views(entries@) == self@.entries,
    {
        &self.entries
    }

    /// The id that the next entry gets.
    pub fn next_id(&self) -> (id: i64)
        ensures
            id == self@.next_id,
    {
        self.next_id
    }

    /// The position of the most recent entry of `key`.
    fn top_position(&self, key: &String) -> (found: Option<usize>)
        ensures
            match found {
                Some(i) => i < self.entries.len() && top_index(self@.entries, key@) == Some(
                    i as int,
                ),
                None => top_index(self@.entries, key@) is None,
            },
    {
        let ghost model = self@.entries;
        let mut i: usize = self.entries.len();
        assert(model.take(i as int) =~= model);
        while i > 0
            invariant
                i <= self.entries.len(),
                model == self@.entries,
                top_index(model.take(i as int), key@) == top_index(model, key@),
            decreases i,
        {
            i -= 1;
            proof {
                lemma_top_step(model, key@, i as int);
            }
            if self.entries[i].session_key == *key {
                return Some(i);
            }
        }
        assert(model.take(0) =~= Seq::<UndoView>::empty());
        None
    }

    /// The most recent entry of `session`.
    pub fn peek(&self, session: &str) -> (top: Option<&UndoEntry>)
        ensures
            match top {
                Some(e) => self@.top(session@) == Some(e@),
                None => self@.top(session@) is None,
            },
    {
        let key = session.to_owned();
        match self.top_position(&key) {
            Some(i) => Some(&self.entries[i]),
            None => None,
        }
    }

    /// Puts a jump of `session` on top and returns its id. Returns `None`,
    /// and changes nothing, where the ids are used up.
    pub fn push(&mut self, session: &str, from_id: i64, to_id: i64, now: i64) -> (id: Option<i64>)
        requires
            old(self)@.wf(),
        ensures
            final(self)@.wf(),
            id is None <==> old(self)@.next_id == i64::MAX,
            match id {
                Some(id) => id == old(self)@.next_id && final(self)@ == old(self)@.push(
                    session@,
                    from_id,
                    to_id,
                    now,
                ),
                None => final(self)@ == old(self)@,
            },
    {
        if self.next_id == i64::MAX {
            return None;
        }
        let id = self.next_id;
        let entry = UndoEntry { id, session_key: session.to_owned(), from_id, to_id, created_at: now };
        self.entries.push(entry);
        self.next_id = id + 1;
        assert(self@.entries =~= old(self)@.entries.push(entry@));
        Some(id)
    }

    /// Takes the most recent entry of `session` off the stack.
    pub fn pop(&mut self, session: &str) -> (top: Option<UndoEntry>)
        requires
            old(self)@.wf(),
        ensures
            final(self)@.wf(),
            final(self)@ == old(self)@.pop(session@),
            match top {
                Some(e) => old(self)@.top(session@) == Some(e@),
                None => old(self)@.top(session@) is None,
            },
    {
        let key = session.to_owned();
        match self.top_position(&key) {
            Some(i) => {
                let entry = self.entries.remove(i);
                assert(self@.entries =~= old(self)@.entries.remove(i as int));
                Some(entry)
            },
            None => None,
        }
    }

    /// Deletes the entries of `session`.
    pub fn clear(&mut self, session: &str)
        requires
            old(self)@.wf(),
        ensures
            final(self)@.wf(),
            final(self)@ == old(self)@.clear(session@),
    {
        let key = session.to_owned();
        let ghost orig = old(self)@.entries;
        let ghost keeps = of_others(session@);
        let ghost mut j: int = 0;
        let mut i: usize = 0;
        proof {
            reveal(Seq::filter);
            assert(orig.take(0) =~= Seq::<UndoView>::empty());
            assert(orig.take(0).filter(keeps) + orig.skip(0) =~= orig);
        }
        while i < self.entries.len()
            invariant
                0 <= i <= self.entries.len(),
                i <= j <= orig.len(),
                key@ == session@,
                keeps == of_others(session@),
                self.next_id == old(self).next_id,
                i == orig.take(j).filter(keeps).len(),
                self@.entries == orig.take(j).filter(keeps) + orig.skip(j),
            decreases orig.len() - j,
        {
            let ghost kept = orig.take(j).filter(keeps);
            proof {
                assert(self@.entries[i as int] == orig.skip(j)[0]);
                assert(orig.take(j + 1) =~= orig.take(j).push(orig[j]));
                orig.take(j).lemma_filter_push(orig[j], keeps);
            }
            if self.entries[i].session_key == key {
                let ghost shown = self@.entries;
                self.entries.remove(i);
                assert(self@.entries =~= shown.remove(i as int));
                assert(shown.remove(i as int) =~= kept + orig.skip(j + 1));
            } else {
                assert(kept + orig.skip(j) =~= kept.push(orig[j]) + orig.skip(j + 1));
                i += 1;
            }
            proof {
                j = j + 1;
            }
        }
        proof {
            assert(orig.take(j) =~= orig);
            assert(orig.filter(keeps) + orig.skip(j) =~= orig.filter(keeps));
            lemma_filter_entries(orig, keeps);
        }
    }

    /// Deletes the entries created before `cutoff`.
    pub fn purge_older(&mut self, cutoff: i64)
        requires
            old(self)@.wf(),
        ensures
            final(self)@.wf(),
            final(self)@ == old(self)@.purge_older(cutoff),
    {
        let ghost orig = old(self)@.entries;
        let ghost keeps = young(cutoff);
        let ghost mut j: int = 0;
        let mut i: usize = 0;
        proof {
            reveal(Seq::filter);
            assert(orig.take(0) =~= Seq::<UndoView>::empty());
            assert(orig.take(0).filter(keeps) + orig.skip(0) =~= orig);
        }
        while i < self.entries.len()
            invariant
                0 <= i <= self.entries.len(),
                i <= j <= orig.len(),
                keeps == young(cutoff),
                self.next_id == old(self).next_id,
                i == orig.take(j).filter(keeps).len(),
                self@.entries == orig.take(j).filter(keeps) + orig.skip(j),
            decreases orig.len() - j,
        {
            let ghost kept = orig.take(j).filter(keeps);
            proof {
                assert(self@.entries[i as int] == orig.skip(j)[0]);
                assert(orig.take(j + 1) =~= orig.take(j).push(orig[j]));
                orig.take(j).lemma_filter_push(orig[j], keeps);
            }
            if self.entries[i].created_at < cutoff {
                let ghost shown = self@.entries;
                self.entries.remove(i);
                assert(self@.entries =~= shown.remove(i as int));
                assert(shown.remove(i as int) =~= kept + orig.skip(j + 1));
            } else {
                assert(kept + orig.skip(j) =~= kept.push(orig[j]) + orig.skip(j + 1));
                i += 1;
            }
            proof {
                j = j + 1;
            }
        }
        proof {
            assert(orig.take(j) =~= orig);
            assert(orig.filter(keeps) + orig.skip(j) =~= orig.filter(keeps));
            lemma_filter_entries(orig, keeps);
        }
    }

    /// The lowest event id that an entry of `session` has as one of its
    /// ends; `None` where the session has no entry.
    pub fn lowest_reference(&self, session: &str) -> (lowest: Option<i64>)
        ensures
            match lowest {
                Some(m) => refers_to(self@.entries, session@, m) && forall|id: i64|
                    refers_to(self@.entries, session@, id) ==> m <= id,
                None => forall|id: i64| !refers_to(self@.entries, session@, id),
            },
    {
        let key = session.to_owned();
        let ghost model = self@.entries;
        let mut lowest: Option<i64> = None;
        let mut i: usize = 0;
        while i < self.entries.len()
            invariant
                i <= self.entries.len(),
                model == self@.entries,
                key@ == session@,
                match lowest {
                    Some(m) => {
                        &&& exists|a: int|
                            0 <= a < i && (#[trigger] model[a]).session_key == session@ && (
                            model[a].from_id == m || model[a].to_id == m)
                        &&& forall|a: int|
                            0 <= a < i && (#[trigger] model[a]).session_key == session@ ==> m
                                <= model[a].from_id && m <= model[a].to_id
                    },
                    None => forall|a: int|
                        0 <= a < i ==> (#[trigger] model[a]).session_key != session@,
                },
            decreases self.entries.len() - i,
        {
            if self.entries[i].session_key == key {
                let from_id = self.entries[i].from_id;
                let to_id = self.entries[i].to_id;
                let end = if from_id <= to_id {
                    from_id
                } else {
                    to_id
                };
                assert(model[i as int].from_id == end || model[i as int].to_id == end);
                lowest =
                match lowest {
                    Some(m) => if m <= end {
                        Some(m)
                    } else {
                        Some(end)
                    },
                    None => Some(end),
                };
            }
            i += 1;
        }
        lowest
    }
}

} // verus!
