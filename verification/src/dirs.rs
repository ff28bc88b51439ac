//! A snapshot of the filesystem's directory predicate: the set of paths
//! that were existing directories when the snapshot was taken.

use vstd::prelude::*;

verus! {

/// The paths known to be existing directories. Every path outside the
/// snapshot counts as missing.
#[derive(Debug)]
pub struct DirSnapshot {
    existing: Vec<String>,
}

impl View for DirSnapshot {
    type V = Set<Seq<char>>;

    closed spec fn view(&self) -> Set<Seq<char>> {
        Set::new(
            |p: Seq<char>| exists|i: int| 0 <= i < self.existing@.len() && self.existing@[i]@ == p,
        )
    }
}

impl DirSnapshot {
    /// A snapshot in which no directory exists.
    pub fn new() -> (dirs: Self)
        ensures
            dirs@ == Set::<Seq<char>>::empty(),
    {
        let dirs = DirSnapshot { existing: Vec::new() };
        assert(dirs@ =~= Set::<Seq<char>>::empty());
        dirs
    }

    /// Marks `path` as an existing directory.
    pub fn insert(&mut self, path: &str)
        ensures
            final(self)@ == old(self)@.insert(path@),
    {
        let owned = path.to_owned();
        self.existing.push(owned);
        proof {
            let before = old(self).existing@;
            let after = self.existing@;
            assert forall|p: Seq<char>| self@.contains(p) == old(self)@.insert(path@).contains(
                p,
            ) by {
                if old(self)@.contains(p) {
                    let i = choose|i: int| 0 <= i < before.len() && before[i]@ == p;
                    assert(after[i]@ == p);
                }
                if p == path@ {
                    assert(after[before.len() as int]@ == p);
                }
            }
            assert(self@ =~= old(self)@.insert(path@));
        }
    }

    /// Whether `path` was an existing directory when the snapshot was
    /// taken.
    pub fn is_directory(&self, path: &str) -> (found: bool)
        ensures
            found == self@.contains(path@),
    {
        let wanted = path.to_owned();
        let mut i: usize = 0;
        while i < self.existing.len()
            invariant
                i <= self.existing@.len(),
                wanted@ == path@,
                forall|j: int| 0 <= j < i ==> self.existing@[j]@ != path@,
            decreases self.existing@.len() - i,
        {
            if self.existing[i] == wanted {
                return true;
            }
            i += 1;
        }
        false
    }
}

} // verus!
