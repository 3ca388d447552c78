//! Verified core of a PTY session manager: an incremental UTF-8 stream
//! decoder for terminal output, the per-session output pump state machine,
//! the session registry, shell and environment resolution, and the pure
//! ordering rules of the directory-tree lister.

use vstd::prelude::*;

pub mod decode;
pub mod file_tree;
pub mod pump;
pub mod registry;
pub mod report;
pub mod shell;

verus! {

/// Errors surfaced by session operations.
///
/// `NotFound` names an unknown session id; `IoFailure` carries the message of
/// an underlying OS error; `LockFailure` reports broken internal
/// synchronization.
#[derive(Debug)]
pub enum SessionError {
    NotFound,
    IoFailure(String),
    LockFailure,
}

impl SessionError {
    /// The human-readable message for this error, as handed to callers.
    pub fn message(&self) -> (r: String)
        ensures
            self is NotFound ==> r@ == "PTY not found"@,
            self is LockFailure ==> r@ == "PTY manager lock poisoned"@,
            self matches SessionError::IoFailure(m) ==> r@ == m@,
    {
        match self {
            SessionError::NotFound => "PTY not found".to_owned(),
            SessionError::LockFailure => "PTY manager lock poisoned".to_owned(),
            SessionError::IoFailure(m) => m.clone(),
        }
    }
}

} // verus!
