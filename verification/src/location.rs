//! Where the store's database file lies, given the directories that the
//! environment configures. Paths are joined with the separator `/`.

use vstd::prelude::*;
use vstd::string::{StrSliceExecFns, StringExecFns};
use crate::failure::Failure;

verus! {

/// `base` extended by the relative path `part`: the two joined by one
/// separator, which is left out where `base` is empty or ends in one.
pub open spec fn spec_join(base: Seq<char>, part: Seq<char>) -> Seq<char> {
    if base.len() == 0 || base.last() == '/' {
        base + part
    } else {
        base + seq!['/'] + part
    }
}

/// The state directory: `back-directory` under the configured state
/// home, or under `.local/state` in the home directory where no state
/// home is configured.
pub open spec fn spec_state_dir(state_home: Option<&str>, home: Option<&str>) -> Result<
    Seq<char>,
    Failure,
> {
    match state_home {
        Some(dir) => Ok(spec_join(dir@, "back-directory"@)),
        None => match home {
            Some(dir) => Ok(
                spec_join(
                    spec_join(spec_join(dir@, ".local"@), "state"@),
                    "back-directory"@,
                ),
            ),
            None => Err(Failure::HomeNotSet),
        },
    }
}

/// The database file: `bd.sqlite3` in the state directory.
pub open spec fn spec_db_path(state_home: Option<&str>, home: Option<&str>) -> Result<
    Seq<char>,
    Failure,
> {
    match spec_state_dir(state_home, home) {
        Ok(dir) => Ok(spec_join(dir, "bd.sqlite3"@)),
        Err(failure) => Err(failure),
    }
}

/// Extends `base` by the relative path `part`.
pub fn join(base: String, part: &str) -> (joined: String)
    ensures
        joined@ == spec_join(base@, part@),
{
    let mut joined = base;
    let len = joined.as_str().unicode_len();
    if len > 0 && joined.as_str().get_char(len - 1) != '/' {
        proof {
            reveal_strlit("/");
        }
        assert("/"@ =~= seq!['/']);
        joined.append("/");
    }
    joined.append(part);
    joined
}

/// The state directory for the given values of `XDG_STATE_HOME` and
/// `HOME`. Fails where neither is set.
pub fn xdg_state_dir(state_home: Option<&str>, home: Option<&str>) -> (dir: Result<String, Failure>)
    ensures
        match dir {
            Ok(d) => spec_state_dir(state_home, home) == Ok::<Seq<char>, Failure>(d@),
            Err(failure) => spec_state_dir(state_home, home) == Err::<Seq<char>, Failure>(failure),
        },
{
    match state_home {
        Some(dir) => Ok(join(dir.to_owned(), "back-directory")),
        None => match home {
            Some(dir) => Ok(
                join(join(join(dir.to_owned(), ".local"), "state"), "back-directory"),
            ),
            None => Err(Failure::HomeNotSet),
        },
    }
}

/// The path of the database file for the given values of
/// `XDG_STATE_HOME` and `HOME`. Fails where neither is set.
pub fn db_path(state_home: Option<&str>, home: Option<&str>) -> (path: Result<String, Failure>)
    ensures
        match path {
            Ok(p) => spec_db_path(state_home, home) == Ok::<Seq<char>, Failure>(p@),
            Err(failure) => spec_db_path(state_home, home) == Err::<Seq<char>, Failure>(failure),
        },
{
    match xdg_state_dir(state_home, home) {
        Ok(dir) => Ok(join(dir, "bd.sqlite3")),
        Err(failure) => Err(failure),
    }
}

} // verus!
