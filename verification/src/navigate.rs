//! The backward walk over a session's history: where "go back `n`" lands,
//! and which rows a listing shows.
//!
//! A walk visits rows from the most recent to the oldest. The row at index
//! `k` lies `k + 1` steps back, whether or not its directory still exists;
//! only a row whose directory exists can be landed on or listed.

use vstd::prelude::*;
use crate::dirs::DirSnapshot;

verus! {

/// One row of a backward scan: a recorded visit.
#[derive(Debug)]
pub struct Visit {
    pub id: i64,
    pub path: String,
}

/// A `Visit` as a mathematical value.
pub struct VisitView {
    pub id: i64,
    pub path: Seq<char>,
}

impl View for Visit {
    type V = VisitView;

    open spec fn view(&self) -> VisitView {
        VisitView { id: self.id, path: self.path@ }
    }
}

/// The row a walk landed on, and how many steps back it lies.
#[derive(Debug)]
pub struct Target {
    pub id: i64,
    pub path: String,
    pub steps: u64,
}

/// A `Target` as a mathematical value.
pub struct TargetView {
    pub id: i64,
    pub path: Seq<char>,
    pub steps: int,
}

impl View for Target {
    type V = TargetView;

    open spec fn view(&self) -> TargetView {
        TargetView { id: self.id, path: self.path@, steps: self.steps as int }
    }
}

/// A row shown by a listing: its step number and its directory.
#[derive(Debug)]
pub struct Candidate {
    pub step: u64,
    pub path: String,
}

/// A `Candidate` as a mathematical value.
pub struct CandidateView {
    pub step: int,
    pub path: Seq<char>,
}

impl View for Candidate {
    type V = CandidateView;

    open spec fn view(&self) -> CandidateView {
        CandidateView { step: self.step as int, path: self.path@ }
    }
}

/// The rows of a scan as mathematical values.
pub open spec fn visits(rows: Seq<Visit>) -> Seq<VisitView> {
    rows.map_values(|v: Visit| v@)
}

/// The shown rows of a listing as mathematical values.
pub open spec fn shown(entries: Seq<Candidate>) -> Seq<CandidateView> {
    entries.map_values(|c: Candidate| c@)
}

/// Row `k` exists in the scan and its directory exists on disk.
pub open spec fn navigable(rows: Seq<VisitView>, dirs: Set<Seq<char>>, k: int) -> bool {
    0 <= k < rows.len() && dirs.contains(rows[k].path)
}

/// A walk of `n` steps lands on row `k`: either `k` is the first navigable
/// row at `n` steps or more, or no navigable row lies that far back and
/// `k` is the oldest navigable row.
pub open spec fn lands_on(rows: Seq<VisitView>, dirs: Set<Seq<char>>, n: int, k: int) -> bool {
    &&& navigable(rows, dirs, k)
    &&& if k + 1 >= n {
        forall|j: int| n - 1 <= j < k ==> !navigable(rows, dirs, j)
    } else {
        forall|j: int| k < j < rows.len() ==> !navigable(rows, dirs, j)
    }
}

/// The index of the row on which a walk of `n` steps lands, if any.
pub open spec fn landing(rows: Seq<VisitView>, dirs: Set<Seq<char>>, n: int) -> Option<int> {
    if exists|k: int| lands_on(rows, dirs, n, k) {
        Some(choose|k: int| lands_on(rows, dirs, n, k))
    } else {
        None
    }
}

/// The target that stands for row `k`.
pub open spec fn target_at(rows: Seq<VisitView>, k: int) -> TargetView {
    TargetView { id: rows[k].id, path: rows[k].path, steps: k + 1 }
}

/// The outcome of a walk of `n` steps.
pub open spec fn spec_navigate(rows: Seq<VisitView>, dirs: Set<Seq<char>>, n: int) -> Option<
    TargetView,
> {
    match landing(rows, dirs, n) {
        Some(k) => Some(target_at(rows, k)),
        None => None,
    }
}

/// Every navigable row with its step number, closest first.
pub open spec fn candidates(rows: Seq<VisitView>, dirs: Set<Seq<char>>) -> Seq<CandidateView>
    decreases rows.len(),
{
    if rows.len() == 0 {
        Seq::empty()
    } else {
        let closer = candidates(rows.drop_last(), dirs);
        if dirs.contains(rows.last().path) {
            closer.push(CandidateView { step: rows.len() as int, path: rows.last().path })
        } else {
            closer
        }
    }
}

/// The rows a listing of at most `limit` entries shows.
pub open spec fn spec_list(rows: Seq<VisitView>, dirs: Set<Seq<char>>, limit: int) -> Seq<
    CandidateView,
> {
    let all = candidates(rows, dirs);
    if all.len() <= limit {
        all
    } else {
        all.take(limit)
    }
}

/// A walk lands on at most one row.
pub proof fn lemma_lands_on_unique(
    rows: Seq<VisitView>,
    dirs: Set<Seq<char>>,
    n: int,
    k1: int,
    k2: int,
)
    requires
        lands_on(rows, dirs, n, k1),
        lands_on(rows, dirs, n, k2),
    ensures
        k1 == k2,
{
    if k1 < k2 {
        assert(navigable(rows, dirs, k2));
    } else if k2 < k1 {
        assert(navigable(rows, dirs, k1));
    }
}

/// The row a walk lands on is its landing.
pub proof fn lemma_landing_is(rows: Seq<VisitView>, dirs: Set<Seq<char>>, n: int, k: int)
    requires
        lands_on(rows, dirs, n, k),
    ensures
        landing(rows, dirs, n) == Some(k),
{
    let chosen = choose|c: int| lands_on(rows, dirs, n, c);
    lemma_lands_on_unique(rows, dirs, n, k, chosen);
}

/// A walk has no landing exactly when no row is navigable.
pub proof fn lemma_landing_none(rows: Seq<VisitView>, dirs: Set<Seq<char>>, n: int)
    ensures
        landing(rows, dirs, n) is None <==> forall|k: int| !navigable(rows, dirs, k),
{
    if exists|k: int| navigable(rows, dirs, k) {
        let witness = choose|k: int| navigable(rows, dirs, k);
        lemma_some_landing(rows, dirs, n, witness);
    }
}

/// With a navigable row, the walk lands somewhere.
proof fn lemma_some_landing(rows: Seq<VisitView>, dirs: Set<Seq<char>>, n: int, witness: int)
    requires
        navigable(rows, dirs, witness),
    ensures
        exists|k: int| lands_on(rows, dirs, n, k),
{
    if exists|k: int| n - 1 <= k && navigable(rows, dirs, k) {
        let far = choose|k: int| n - 1 <= k && navigable(rows, dirs, k);
        let first = first_navigable_from(rows, dirs, n - 1, far);
        assert(lands_on(rows, dirs, n, first));
    } else {
        let oldest = last_navigable_upto(rows, dirs, witness, rows.len() as int);
        assert(lands_on(rows, dirs, n, oldest));
    }
}

/// The first navigable row at index `from` or later, given that `far` is
/// one.
proof fn first_navigable_from(rows: Seq<VisitView>, dirs: Set<Seq<char>>, from: int, far: int) -> (k:
    int)
    requires
        from <= far,
        navigable(rows, dirs, far),
    ensures
        from <= k <= far,
        navigable(rows, dirs, k),
        forall|j: int| from <= j < k ==> !navigable(rows, dirs, j),
    decreases far - from,
{
    if navigable(rows, dirs, from) {
        from
    } else {
        first_navigable_from(rows, dirs, from + 1, far)
    }
}

/// The last navigable row below index `end`, given that `known` is one.
proof fn last_navigable_upto(rows: Seq<VisitView>, dirs: Set<Seq<char>>, known: int, end: int) -> (k:
    int)
    requires
        known < end,
        navigable(rows, dirs, known),
    ensures
        known <= k < end,
        navigable(rows, dirs, k),
        forall|j: int| k < j < end ==> !navigable(rows, dirs, j),
    decreases end - known,
{
    if navigable(rows, dirs, end - 1) {
        end - 1
    } else {
        last_navigable_upto(rows, dirs, known, end - 1)
    }
}

/// The candidates of a prefix of the rows are a prefix of the candidates.
pub proof fn lemma_candidates_prefix(rows: Seq<VisitView>, dirs: Set<Seq<char>>, i: int)
    requires
        0 <= i <= rows.len(),
    ensures
        candidates(rows.take(i), dirs).len() <= candidates(rows, dirs).len(),
        candidates(rows.take(i), dirs) == candidates(rows, dirs).take(
            candidates(rows.take(i), dirs).len() as int,
        ),
    decreases rows.len(),
{
    if i == rows.len() {
        assert(rows.take(i) =~= rows);
        assert(candidates(rows, dirs).take(candidates(rows, dirs).len() as int) =~= candidates(
            rows,
            dirs,
        ));
    } else {
        lemma_candidates_prefix(rows.drop_last(), dirs, i);
        assert(rows.drop_last().take(i) =~= rows.take(i));
        let part = candidates(rows.take(i), dirs);
        let closer = candidates(rows.drop_last(), dirs);
        assert(part =~= candidates(rows, dirs).take(part.len() as int));
    }
}

/// Each candidate names a navigable row: its step number is the row's
/// distance and its path the row's path.
pub proof fn lemma_candidate_is_navigable(rows: Seq<VisitView>, dirs: Set<Seq<char>>, j: int)
    requires
        0 <= j < candidates(rows, dirs).len(),
    ensures
        navigable(rows, dirs, candidates(rows, dirs)[j].step - 1),
        candidates(rows, dirs)[j].path == rows[candidates(rows, dirs)[j].step - 1].path,
    decreases rows.len(),
{
    if rows.len() > 0 {
        let closer = candidates(rows.drop_last(), dirs);
        if j < closer.len() {
            lemma_candidate_is_navigable(rows.drop_last(), dirs, j);
        }
    }
}

/// Candidates come in strictly ascending step order.
pub proof fn lemma_candidates_ascend(rows: Seq<VisitView>, dirs: Set<Seq<char>>, i: int, j: int)
    requires
        0 <= i < j < candidates(rows, dirs).len(),
    ensures
        candidates(rows, dirs)[i].step < candidates(rows, dirs)[j].step,
    decreases rows.len(),
{
    if rows.len() > 0 {
        let closer = candidates(rows.drop_last(), dirs);
        if j < closer.len() {
            lemma_candidates_ascend(rows.drop_last(), dirs, i, j);
        } else {
            lemma_candidate_is_navigable(rows.drop_last(), dirs, i);
        }
    }
}

/// Every navigable row is among the candidates.
pub proof fn lemma_navigable_is_candidate(rows: Seq<VisitView>, dirs: Set<Seq<char>>, k: int)
    requires
        navigable(rows, dirs, k),
    ensures
        exists|j: int|
            0 <= j < candidates(rows, dirs).len() && (#[trigger] candidates(rows, dirs)[j]).step
                == k + 1,
    decreases rows.len(),
{
    let all = candidates(rows, dirs);
    if k == rows.len() - 1 {
        assert(all[all.len() - 1].step == k + 1);
    } else {
        lemma_navigable_is_candidate(rows.drop_last(), dirs, k);
        let closer = candidates(rows.drop_last(), dirs);
        let j = choose|j: int| 0 <= j < closer.len() && (#[trigger] closer[j]).step == k + 1;
        assert(all[j].step == k + 1);
    }
}

/// Walks back `n` steps through `rows`, which run from the most recent
/// visit to the oldest. Every row counts as a step; the walk stops on the
/// first row at `n` steps or more whose directory exists, and otherwise
/// falls back to the oldest row whose directory exists.
pub fn navigate(rows: &Vec<Visit>, dirs: &DirSnapshot, n: u32) -> (target: Option<Target>)
    ensures
        match target {
            Some(t) => spec_navigate(visits(rows@), dirs@, n as int) == Some(t@),
            None => spec_navigate(visits(rows@), dirs@, n as int) is None,
        },
{
    let ghost model = visits(rows@);
    let mut oldest: Option<usize> = None;
    let mut i: usize = 0;
    while i < rows.len()
        invariant
            i <= rows.len(),
            model == visits(rows@),
            forall|j: int| 0 <= j < i && navigable(model, dirs@, j) ==> j + 1 < n,
            match oldest {
                Some(k) => k < i && navigable(model, dirs@, k as int) && forall|j: int|
                    k < j < i ==> !navigable(model, dirs@, j),
                None => forall|j: int| 0 <= j < i ==> !navigable(model, dirs@, j),
            },
        decreases rows.len() - i,
    {
        if dirs.is_directory(rows[i].path.as_str()) {
            if i + 1 >= n as usize {
                let target = Target {
                    id: rows[i].id,
                    path: rows[i].path.clone(),
                    steps: (i + 1) as u64,
                };
                proof {
                    assert(lands_on(model, dirs@, n as int, i as int));
                    lemma_landing_is(model, dirs@, n as int, i as int);
                }
                return Some(target);
            }
            oldest = Some(i);
        }
        i += 1;
    }
    match oldest {
        Some(k) => {
            let target = Target { id: rows[k].id, path: rows[k].path.clone(), steps: (k + 1) as u64 };
            proof {
                assert(lands_on(model, dirs@, n as int, k as int));
                lemma_landing_is(model, dirs@, n as int, k as int);
            }
            Some(target)
        },
        None => {
            proof {
                lemma_landing_none(model, dirs@, n as int);
            }
            None
        },
    }
}

/// Collects the rows a listing shows: up to `limit` rows whose directory
/// exists, closest first, each with its step number.
pub fn list_candidates(rows: &Vec<Visit>, dirs: &DirSnapshot, limit: u32) -> (entries: Vec<
    Candidate,
>)
    ensures
        shown(entries@) == spec_list(visits(rows@), dirs@, limit as int),
{
    let ghost model = visits(rows@);
    let mut entries: Vec<Candidate> = Vec::new();
    if limit == 0 {
        assert(shown(entries@) =~= spec_list(model, dirs@, 0));
        return entries;
    }
    let mut i: usize = 0;
    assert(model.take(0) =~= Seq::<VisitView>::empty());
    assert(shown(entries@) =~= candidates(model.take(0), dirs@));
    while i < rows.len()
        invariant
            i <= rows.len(),
            model == visits(rows@),
            shown(entries@) == candidates(model.take(i as int), dirs@),
            entries.len() < limit,
        decreases rows.len() - i,
    {
        proof {
            assert(model.take(i + 1).drop_last() =~= model.take(i as int));
        }
        if dirs.is_directory(rows[i].path.as_str()) {
            let entry = Candidate { step: (i + 1) as u64, path: rows[i].path.clone() };
            let ghost before = shown(entries@);
            entries.push(entry);
            assert(shown(entries@) =~= before.push(entry@));
            if entries.len() >= limit as usize {
                proof {
                    lemma_candidates_prefix(model, dirs@, i + 1);
                }
                return entries;
            }
        }
        i += 1;
    }
    assert(model.take(rows.len() as int) =~= model);
    entries
}

} // verus!
