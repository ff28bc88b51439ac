//! The reasons for which an operation on the history fails, and the
//! reason string that reports a failure of the database.

use vstd::prelude::*;
use vstd::string::StringExecFns;

verus! {

/// `rusqlite::Error`, carried through as an opaque value.
#[verifier::external_type_specification]
#[verifier::external_body]
pub struct ExDatabaseError(rusqlite::Error);

/// Renders a `rusqlite::Error` through its `Display` implementation. The
/// text is the database's own description of the error; nothing is
/// claimed of it.
#[verifier::external_body]
fn describe(error: &rusqlite::Error) -> (detail: String) {
    format!("{error}")
}

/// The reason string of a database failure with the given description.
pub open spec fn spec_store_message(detail: Seq<char>) -> Seq<char> {
    "bd: db error: "@ + detail
}

/// The reason string that reports a database failure: a fixed prefix,
/// then the description.
pub fn store_message(detail: &str) -> (text: String)
    ensures
        text@ == spec_store_message(detail@),
{
    let mut text = "bd: db error: ".to_owned();
    text.append(detail);
    text
}

/// The reason string that reports `error`: the prefix of every database
/// failure, then the database's description of the error. Failures of the
/// database are all reported alike, whatever their cause.
pub fn store_failure(error: &rusqlite::Error) -> (text: String)
    ensures
        exists|detail: Seq<char>| text@ == spec_store_message(detail),
{
    let detail = describe(error);
    store_message(detail.as_str())
}

/// Why an operation failed. A failed operation changes nothing.
#[derive(Clone, Copy, Debug, PartialEq, Eq, Structural)]
pub enum Failure {
    /// The path handed to `record` is not an existing directory.
    NotADirectory,
    /// `back` was asked for zero steps.
    BackUsage,
    /// `list` was asked for zero entries.
    ListUsage,
    /// The step count or the limit is above `MAX_BACK`.
    OverMax,
    /// There is nothing to go back to: the session has no history before
    /// its cursor, or none of those directories exists any more.
    NoEarlierDirectory,
    /// There is nothing to list: the session has no history before its
    /// cursor, or none of those directories exists any more.
    NoHistory,
    /// The session has no jump to undo, or the directory that the jump
    /// left has vanished.
    NothingToCancel,
    /// Neither a state directory nor a home directory is configured.
    HomeNotSet,
    /// The store has run out of row ids.
    IdsExhausted,
}

impl Failure {
    /// The short, stable reason string of each failure.
    pub open spec fn spec_message(self) -> Seq<char> {
        match self {
            Failure::NotADirectory => "bd: pwd is not a directory"@,
            Failure::BackUsage => "bd: usage: bd [N|c|ls]"@,
            Failure::ListUsage => "bd: usage: bd ls [N]"@,
            Failure::OverMax => "bd: max is 999"@,
            Failure::NoEarlierDirectory => "bd: no earlier directory"@,
            Failure::NoHistory => "bd: no history in this session"@,
            Failure::NothingToCancel => "bd: nothing to cancel"@,
            Failure::HomeNotSet => "bd: HOME not set"@,
            Failure::IdsExhausted => "bd: db error: row ids exhausted"@,
        }
    }

    /// The reason string to show for this failure.
    pub fn message(&self) -> (text: String)
        ensures
            text@ == self.spec_message(),
    {
        match self {
            Failure::NotADirectory => "bd: pwd is not a directory".to_owned(),
            Failure::BackUsage => "bd: usage: bd [N|c|ls]".to_owned(),
            Failure::ListUsage => "bd: usage: bd ls [N]".to_owned(),
            Failure::OverMax => "bd: max is 999".to_owned(),
            Failure::NoEarlierDirectory => "bd: no earlier directory".to_owned(),
            Failure::NoHistory => "bd: no history in this session".to_owned(),
            Failure::NothingToCancel => "bd: nothing to cancel".to_owned(),
            Failure::HomeNotSet => "bd: HOME not set".to_owned(),
            Failure::IdsExhausted => "bd: db error: row ids exhausted".to_owned(),
        }
    }
}

} // verus!
