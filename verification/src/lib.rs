//! Directory history for shell sessions: an event log of visited
//! directories, backward navigation by step count, a multi-level undo
//! stack and a retention policy that keeps the log bounded.

pub mod clock;
pub mod dirs;
pub mod event_log;
pub mod failure;
pub mod laws;
pub mod location;
pub mod navigate;
pub mod session;
pub mod store;
pub mod undo;
