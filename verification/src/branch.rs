//! How a task stands on the branches that carry it.
use vstd::prelude::*;

verus! {

/// How a branch's committed version of a task stands against the default branch's merge-base:
/// `Base` is the default branch itself, the other three are the ways a branch diverges.
#[derive(Debug, Clone, Copy, PartialEq, Eq)]
pub enum ChangeKind {
    Base,
    Added,
    Modified,
    Deleted,
}

/// One branch that carries a version of a task, how it got there, and whether the worktree holds
/// edits not yet committed.
#[derive(Debug, PartialEq, Eq)]
pub struct BranchMark {
    pub branch: String,
    pub kind: ChangeKind,
    pub dirty: bool,
}

/// Where a write to one task lands, and whether it can land there now: `writable` is false while
/// no live worktree holds `branch`, and every write to the task is then refused.
#[derive(Debug, PartialEq, Eq)]
pub struct WriteTarget {
    pub branch: String,
    pub writable: bool,
}

/// Who works on a task right now, from which worktree and branch, and when they last said so.
#[derive(Debug, PartialEq, Eq)]
pub struct Presence {
    pub task_id: String,
    pub actor: String,
    pub worktree: String,
    pub branch: String,
    pub last_heartbeat_secs: u64,
}

} // verus!
