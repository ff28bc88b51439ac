//! Session state: one row per session, holding its navigation cursor and
//! a description of its most recent jump.

use vstd::prelude::*;

verus! {

/// The most recent jump of a session. While `armed` is false the other
/// fields are 0 and refer to nothing.
#[derive(Clone, Copy, Debug, PartialEq, Eq, Structural)]
pub struct LastJump {
    pub delta: u64,
    pub from_id: i64,
    pub to_id: i64,
    pub armed: bool,
}

/// The state of one session.
#[derive(Debug)]
pub struct SessionState {
    pub session_key: String,
    pub cursor_id: i64,
    pub last_jump: LastJump,
    pub last_seen_at: i64,
}

/// What a session's row holds besides its key.
pub struct SessionView {
    pub cursor_id: i64,
    pub last_jump: LastJump,
    pub last_seen_at: i64,
}

/// A `SessionState` as a mathematical value: its key and what it holds.
pub struct SessionRowView {
    pub key: Seq<char>,
    pub state: SessionView,
}

impl View for SessionState {
    type V = SessionRowView;

    open spec fn view(&self) -> SessionRowView {
        SessionRowView {
            key: self.session_key@,
            state: SessionView {
                cursor_id: self.cursor_id,
                last_jump: self.last_jump,
                last_seen_at: self.last_seen_at,
            },
        }
    }
}

/// The rows of all sessions. No two rows have the same key.
#[derive(Debug)]
pub struct SessionTable {
    rows: Vec<SessionState>,
}

/// The "no armed jump" state.
pub open spec fn no_jump() -> LastJump {
    LastJump { delta: 0, from_id: 0, to_id: 0, armed: false }
}

/// The rows as mathematical values.
pub open spec fn row_views(rows: Seq<SessionState>) -> Seq<SessionRowView> {
    rows.map_values(|r: SessionState| r@)
}

/// No two rows have the same key.
pub open spec fn unique_keys(rows: Seq<SessionRowView>) -> bool {
    forall|i: int, j: int|
        0 <= i < j < rows.len() ==> (#[trigger] rows[i]).key != (#[trigger] rows[j]).key
}

/// Some row has the key `key`.
pub open spec fn has_key(rows: Seq<SessionRowView>, key: Seq<char>) -> bool {
    exists|i: int| 0 <= i < rows.len() && (#[trigger] rows[i]).key == key
}

/// The position of a row with the key `key`.
pub open spec fn position_of(rows: Seq<SessionRowView>, key: Seq<char>) -> int {
    choose|i: int| 0 <= i < rows.len() && (#[trigger] rows[i]).key == key
}

/// The table that the rows stand for: each key with the state of its row.
pub open spec fn table_of(rows: Seq<SessionRowView>) -> Map<Seq<char>, SessionView> {
    Map::new(|k: Seq<char>| has_key(rows, k), |k: Seq<char>| rows[position_of(rows, k)].state)
}

/// The table with the time of last activity of `session` set to `now`,
/// where the session has a row.
pub open spec fn touched(table: Map<Seq<char>, SessionView>, session: Seq<char>, now: i64) -> Map<
    Seq<char>,
    SessionView,
> {
    if table.contains_key(session) {
        table.insert(session, SessionView { last_seen_at: now, ..table[session] })
    } else {
        table
    }
}

/// Whether a sweep with the given cutoff keeps a row: it keeps the active
/// session's, and every row last seen at the cutoff or later.
pub open spec fn stays(cutoff: i64, active: Seq<char>) -> spec_fn(SessionRowView) -> bool {
    |r: SessionRowView| r.key == active || r.state.last_seen_at >= cutoff
}

/// The table without the rows last seen before `cutoff`, except that of
/// the active session.
pub open spec fn purged(table: Map<Seq<char>, SessionView>, cutoff: i64, active: Seq<char>) -> Map<
    Seq<char>,
    SessionView,
> {
    Map::new(
        |k: Seq<char>|
            table.contains_key(k) && stays(cutoff, active)(
                SessionRowView { key: k, state: table[k] },
            ),
        |k: Seq<char>| table[k],
    )
}

impl View for SessionTable {
    type V = Map<Seq<char>, SessionView>;

    closed spec fn view(&self) -> Map<Seq<char>, SessionView> {
        table_of(row_views(self.rows@))
    }
}

/// In rows with unique keys, the table maps each row's key to its state.
pub proof fn lemma_table_row(rows: Seq<SessionRowView>, i: int)
    requires
        unique_keys(rows),
        0 <= i < rows.len(),
    ensures
        table_of(rows).contains_key(rows[i].key),
        table_of(rows)[rows[i].key] == rows[i].state,
{
    assert(has_key(rows, rows[i].key));
    let p = position_of(rows, rows[i].key);
    if p < i {
        assert(rows[p].key != rows[i].key);
    } else if i < p {
        assert(rows[i].key != rows[p].key);
    }
}

/// Filtering rows keeps their keys unique, keeps exactly the rows that
/// the filter accepts, and adds none.
pub proof fn lemma_filter_rows(rows: Seq<SessionRowView>, keeps: spec_fn(SessionRowView) -> bool)
    requires
        unique_keys(rows),
    ensures
        unique_keys(rows.filter(keeps)),
        forall|i: int|
            0 <= i < rows.filter(keeps).len() ==> rows.contains(#[trigger] rows.filter(keeps)[i])
                && keeps(rows.filter(keeps)[i]),
        forall|i: int|
            0 <= i < rows.len() && keeps(rows[i]) ==> rows.filter(keeps).contains(
                #[trigger] rows[i],
            ),
    decreases rows.len(),
{
    reveal(Seq::filter);
    if rows.len() > 0 {
        let head = rows.drop_last();
        let kept = head.filter(keeps);
        let all = rows.filter(keeps);
        assert(unique_keys(head)) by {
            assert forall|i: int, j: int| 0 <= i < j < head.len() implies (#[trigger] head[i]).key
                != (#[trigger] head[j]).key by {
                assert(rows[i].key != rows[j].key);
            }
        }
        lemma_filter_rows(head, keeps);
        assert forall|i: int| 0 <= i < kept.len() implies rows.contains(#[trigger] kept[i])
            && kept[i].key != rows.last().key by {
            assert(head.contains(kept[i]));
            let m = choose|m: int| 0 <= m < head.len() && head[m] == kept[i];
            assert(rows[m] == kept[i]);
            assert(rows[m].key != rows[rows.len() - 1].key);
        }
        assert(rows.contains(rows.last())) by {
            assert(rows[rows.len() - 1] == rows.last());
        }
        assert forall|i: int| 0 <= i < rows.len() && keeps(rows[i]) implies all.contains(
            #[trigger] rows[i],
        ) by {
            if i < head.len() {
                assert(head[i] == rows[i]);
                assert(kept.contains(head[i]));
                let m = choose|m: int| 0 <= m < kept.len() && kept[m] == head[i];
                assert(all[m] == rows[i]);
            } else {
                assert(all[all.len() - 1] == rows[i]);
            }
        }
    }
}

/// The table of filtered rows is the table without the keys of the rows
/// that the filter rejects.
pub proof fn lemma_table_of_filtered(rows: Seq<SessionRowView>, cutoff: i64, active: Seq<char>)
    requires
        unique_keys(rows),
    ensures
        unique_keys(rows.filter(stays(cutoff, active))),
        table_of(rows.filter(stays(cutoff, active))) == purged(table_of(rows), cutoff, active),
{
    let keeps = stays(cutoff, active);
    let kept = rows.filter(keeps);
    let before = table_of(rows);
    let after = table_of(kept);
    lemma_filter_rows(rows, keeps);
    assert forall|k: Seq<char>| after.contains_key(k) implies purged(
        before,
        cutoff,
        active,
    ).contains_key(k) && purged(before, cutoff, active)[k] == after[k] by {
        let p = position_of(kept, k);
        assert(rows.contains(kept[p]));
        let m = choose|m: int| 0 <= m < rows.len() && rows[m] == kept[p];
        lemma_table_row(rows, m);
        lemma_table_row(kept, p);
    }
    assert forall|k: Seq<char>| purged(before, cutoff, active).contains_key(
        k,
    ) implies after.contains_key(k) by {
        let m = position_of(rows, k);
        lemma_table_row(rows, m);
        assert(keeps(rows[m]));
        assert(kept.contains(rows[m]));
        let p = choose|p: int| 0 <= p < kept.len() && kept[p] == rows[m];
        lemma_table_row(kept, p);
    }
    assert(after =~= purged(before, cutoff, active));
}

impl SessionTable {
    /// No two rows have the same key.
    pub closed spec fn wf(&self) -> bool {
        unique_keys(row_views(self.rows@))
    }

    /// A table without rows.
    pub fn new() -> (table: Self)
        ensures
            table.wf(),
            table@ == Map::<Seq<char>, SessionView>::empty(),
    {
        let table = SessionTable { rows: Vec::new() };
        assert(table@ =~= Map::<Seq<char>, SessionView>::empty());
        table
    }

    /// A table of the given rows; `None` where two of them have the same
    /// key.
    pub fn from_rows(rows: Vec<SessionState>) -> (table: Option<Self>)
        ensures
            table is Some <==> unique_keys(row_views(rows@)),
            table matches Some(t) ==> t.wf() && t@ == table_of(row_views(rows@)),
    {
        let ghost model = row_views(rows@);
        let mut j: usize = 0;
        while j < rows.len()
            invariant
                j <= rows.len(),
                model == row_views(rows@),
                forall|a: int, b: int|
                    0 <= a < b < j ==> (#[trigger] model[a]).key != (#[trigger] model[b]).key,
            decreases rows.len() - j,
        {
            let mut i: usize = 0;
            while i < j
                invariant
                    i <= j < rows.len(),
                    model == row_views(rows@),
                    forall|a: int| 0 <= a < i ==> (#[trigger] model[a]).key != model[j as int].key,
                decreases j - i,
            {
                if rows[i].session_key == rows[j].session_key {
                    assert(model[i as int].key == model[j as int].key);
                    return None;
                }
                i += 1;
            }
            j += 1;
        }
        Some(SessionTable { rows })
    }

    /// The rows, in no particular order.
    pub fn rows(&self) -> (rows: &Vec<SessionState>)
        requires
            self.wf(),
        ensures
            unique_keys(row_views(rows@)),
            table_of(row_views(rows@)) == self@,
    {
        &self.rows
    }

    /// The position of the row of `key`.
    fn position(&self, key: &String) -> (found: Option<usize>)
        requires
            self.wf(),
        ensures
            match found {
                Some(i) => i < self.rows.len() && self.rows[i as int]@.key == key@
                    && self@.contains_key(key@) && self@[key@] == self.rows[i as int]@.state,
                None => !self@.contains_key(key@),
            },
    {
        let ghost model = row_views(self.rows@);
        let mut i: usize = 0;
        while i < self.rows.len()
            invariant
                i <= self.rows.len(),
                self.wf(),
                model == row_views(self.rows@),
                forall|a: int| 0 <= a < i ==> (#[trigger] model[a]).key != key@,
            decreases self.rows.len() - i,
        {
            if self.rows[i].session_key == *key {
                proof {
                    lemma_table_row(model, i as int);
                }
                return Some(i);
            }
            i += 1;
        }
        None
    }

    /// The row of `session`, if it has one.
    pub fn get(&self, session: &str) -> (found: Option<&SessionState>)
        requires
            self.wf(),
        ensures
            match found {
                Some(row) => row@.key == session@ && self@.contains_key(session@) && self@[session@]
                    == row@.state,
                None => !self@.contains_key(session@),
            },
    {
        let key = session.to_owned();
        match self.position(&key) {
            Some(i) => Some(&self.rows[i]),
            None => None,
        }
    }

    /// Writes `row`: in place of the row with its key where there is one,
    /// as a new row otherwise.
    pub fn upsert(&mut self, row: SessionState)
        requires
            old(self).wf(),
        ensures
            final(self).wf(),
            final(self)@ == old(self)@.insert(row@.key, row@.state),
    {
        let ghost before = row_views(self.rows@);
        match self.position(&row.session_key) {
            Some(i) => {
                self.rows.set(i, row);
                proof {
                    let after = row_views(self.rows@);
                    assert(after =~= before.update(i as int, row@));
                    lemma_upsert_in_place(before, i as int, row@);
                }
            },
            None => {
                self.rows.push(row);
                proof {
                    let after = row_views(self.rows@);
                    assert(after =~= before.push(row@));
                    lemma_upsert_new(before, row@);
                }
            },
        }
    }

    /// Sets the time of last activity of `session` to `now`, where the
    /// session has a row.
    pub fn touch(&mut self, session: &str, now: i64)
        requires
            old(self).wf(),
        ensures
            final(self).wf(),
            final(self)@ == touched(old(self)@, session@, now),
    {
        let key = session.to_owned();
        match self.position(&key) {
            Some(i) => {
                let row = SessionState {
                    session_key: key,
                    cursor_id: self.rows[i].cursor_id,
                    last_jump: self.rows[i].last_jump,
                    last_seen_at: now,
                };
                self.upsert(row);
            },
            None => {},
        }
    }

    /// Deletes the rows last seen before `cutoff`, except the row of the
    /// active session.
    pub fn purge_stale(&mut self, cutoff: i64, active: &str)
        requires
            old(self).wf(),
        ensures
            final(self).wf(),
            final(self)@ == purged(old(self)@, cutoff, active@),
    {
        let key = active.to_owned();
        let ghost orig = row_views(self.rows@);
        let ghost keeps = stays(cutoff, active@);
        let ghost mut j: int = 0;
        let mut i: usize = 0;
        proof {
            reveal(Seq::filter);
            assert(orig.take(0) =~= Seq::<SessionRowView>::empty());
            assert(orig.take(0).filter(keeps) + orig.skip(0) =~= orig);
        }
        while i < self.rows.len()
            invariant
                0 <= i <= self.rows.len(),
                i <= j <= orig.len(),
                key@ == active@,
                keeps == stays(cutoff, active@),
                i == orig.take(j).filter(keeps).len(),
                row_views(self.rows@) == orig.take(j).filter(keeps) + orig.skip(j),
            decreases orig.len() - j,
        {
            let ghost kept = orig.take(j).filter(keeps);
            proof {
                assert(row_views(self.rows@)[i as int] == orig.skip(j)[0]);
                assert(orig.take(j + 1) =~= orig.take(j).push(orig[j]));
                orig.take(j).lemma_filter_push(orig[j], keeps);
            }
            if self.rows[i].session_key == key || self.rows[i].last_seen_at >= cutoff {
                assert(kept + orig.skip(j) =~= kept.push(orig[j]) + orig.skip(j + 1));
                i += 1;
            } else {
                let ghost shown = row_views(self.rows@);
                self.rows.remove(i);
                assert(row_views(self.rows@) =~= shown.remove(i as int));
                assert(shown.remove(i as int) =~= kept + orig.skip(j + 1));
            }
            proof {
                j = j + 1;
            }
        }
        proof {
            assert(orig.take(j) =~= orig);
            assert(orig.filter(keeps) + orig.skip(j) =~= orig.filter(keeps));
            lemma_table_of_filtered(orig, cutoff, active@);
        }
    }
}

/// Replacing the row of a key writes that key in the table.
proof fn lemma_upsert_in_place(rows: Seq<SessionRowView>, i: int, row: SessionRowView)
    requires
        unique_keys(rows),
        0 <= i < rows.len(),
        rows[i].key == row.key,
    ensures
        unique_keys(rows.update(i, row)),
        table_of(rows.update(i, row)) == table_of(rows).insert(row.key, row.state),
{
    let after = rows.update(i, row);
    assert(unique_keys(after)) by {
        assert forall|a: int, b: int| 0 <= a < b < after.len() implies (#[trigger] after[a]).key
            != (#[trigger] after[b]).key by {
            assert(rows[a].key != rows[b].key);
        }
    }
    assert forall|k: Seq<char>| table_of(after).contains_key(k) implies table_of(rows).insert(
        row.key,
        row.state,
    ).contains_key(k) && table_of(rows).insert(row.key, row.state)[k] == table_of(after)[k] by {
        let p = position_of(after, k);
        lemma_table_row(after, p);
        if p != i {
            assert(rows[p] == after[p]);
            lemma_table_row(rows, p);
        }
    }
    assert forall|k: Seq<char>|
        table_of(rows).insert(row.key, row.state).contains_key(k) implies table_of(
        after,
    ).contains_key(k) by {
        if k == row.key {
            lemma_table_row(after, i);
        } else {
            let p = position_of(rows, k);
            assert(after[p] == rows[p]);
            lemma_table_row(after, p);
        }
    }
    assert(table_of(after) =~= table_of(rows).insert(row.key, row.state));
}

/// Adding a row with a new key adds that key to the table.
proof fn lemma_upsert_new(rows: Seq<SessionRowView>, row: SessionRowView)
    requires
        unique_keys(rows),
        !table_of(rows).contains_key(row.key),
    ensures
        unique_keys(rows.push(row)),
        table_of(rows.push(row)) == table_of(rows).insert(row.key, row.state),
{
    let after = rows.push(row);
    assert(unique_keys(after)) by {
        assert forall|a: int, b: int| 0 <= a < b < after.len() implies (#[trigger] after[a]).key
            != (#[trigger] after[b]).key by {
            if b < rows.len() {
                assert(rows[a].key != rows[b].key);
            } else {
                assert(rows[a] == after[a]);
                if rows[a].key == row.key {
                    assert(has_key(rows, row.key));
                }
            }
        }
    }
    assert forall|k: Seq<char>| table_of(after).contains_key(k) implies table_of(rows).insert(
        row.key,
        row.state,
    ).contains_key(k) && table_of(rows).insert(row.key, row.state)[k] == table_of(after)[k] by {
        let p = position_of(after, k);
        lemma_table_row(after, p);
        if p < rows.len() {
            assert(rows[p] == after[p]);
            lemma_table_row(rows, p);
        }
    }
    assert forall|k: Seq<char>|
        table_of(rows).insert(row.key, row.state).contains_key(k) implies table_of(
        after,
    ).contains_key(k) by {
        if k == row.key {
            lemma_table_row(after, rows.len() as int);
        } else {
            let p = position_of(rows, k);
            assert(after[p] == rows[p]);
            lemma_table_row(after, p);
        }
    }
    assert(table_of(after) =~= table_of(rows).insert(row.key, row.state));
}

} // verus!
