//! The projects the daemon serves, as its API describes and registers them.
use vstd::prelude::*;

use crate::field::Rfc3339;

verus! {

/// The store a project keeps its tasks in.
#[derive(Debug, Clone, Copy, PartialEq, Eq)]
pub enum BackendKind {
    Git,
    Local,
}

/// The name a backend travels under.
pub open spec fn backend_name(kind: BackendKind) -> Seq<char> {
    match kind {
        BackendKind::Git => "git"@,
        BackendKind::Local => "local"@,
    }
}

impl BackendKind {
    /// The name this backend travels under.
    pub fn as_str(&self) -> (name: &'static str)
        ensures
            name@ == backend_name(*self),
    {
        match self {
            BackendKind::Git => "git",
            BackendKind::Local => "local",
        }
    }
}

/// Whether the daemon can serve a project, and if not, why.
#[derive(Debug, PartialEq, Eq)]
pub enum ProjectStatus {
    Serving,
    Error { reason: String },
}

impl ProjectStatus {
    /// Why the project cannot be served; nothing for a project that can.
    pub fn reason(&self) -> (reason: Option<&str>)
        ensures
            match self {
                ProjectStatus::Serving => reason is None,
                ProjectStatus::Error { reason: why } => reason matches Some(r) && r@ == why@,
            },
    {
        match self {
            ProjectStatus::Serving => None,
            ProjectStatus::Error { reason } => Some(reason.as_str()),
        }
    }
}

/// How a project's remote sync stands.
#[derive(Debug, PartialEq, Eq)]
pub struct SyncView {
    pub remote: String,
    pub last_attempt: Option<Rfc3339>,
    pub last_success: Option<Rfc3339>,
    pub ahead: usize,
    pub behind: usize,
    pub error: Option<String>,
}

/// One project the daemon serves. `git_common_dir` is what a client matches its own checkout
/// against; a project on a local directory has none.
#[derive(Debug, PartialEq, Eq)]
pub struct ProjectView {
    pub name: String,
    pub root: String,
    pub git_common_dir: Option<String>,
    pub backend: BackendKind,
    pub abbreviation: String,
    pub status: ProjectStatus,
    pub sync: Option<SyncView>,
}

/// A project to register. `backend` and `abbreviation` start a project that has no tasks yet;
/// without them the daemon serves what the path already holds.
#[derive(Debug, PartialEq, Eq)]
pub struct RegisterProject {
    pub path: String,
    pub backend: Option<BackendKind>,
    pub abbreviation: Option<String>,
}

/// A project's new name.
#[derive(Debug, PartialEq, Eq)]
pub struct RenameProject {
    pub name: String,
}

} // verus!
