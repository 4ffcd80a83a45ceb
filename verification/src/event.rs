//! What the daemon announces to every client that listens.
use vstd::prelude::*;

verus! {

/// One announcement. A client answers each by reading again what it names.
#[derive(Debug, PartialEq, Eq)]
pub enum ChangeEvent {
    /// Created, edited, commented on, renumbered, or deleted.
    TaskChanged { project: String, id: String },
    /// A tag was registered, recolored, re-described, renamed, or deleted.
    TagsChanged { project: String },
    /// Membership, a rename, a status change, or a new abbreviation.
    ProjectsChanged,
    /// A sync with the remote ran, whether it moved anything or failed.
    SyncChanged { project: String },
    /// An agent session started, ended, changed, or wrote a task.
    AgentSessionsChanged { project: String },
    /// The stream dropped events and cannot say which, so the client reads everything again.
    Resync,
    DaemonStopping,
}

} // verus!
