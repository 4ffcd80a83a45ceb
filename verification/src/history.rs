//! What each revision of a project changed, read from its documents.
use vstd::prelude::*;

use crate::status::Status;
use crate::text::same_chars;

verus! {

/// How a revision touched a document.
#[derive(Debug, Clone, Copy, PartialEq, Eq)]
pub enum DocumentChangeKind {
    Added,
    Modified,
    Removed,
}

/// One document a revision touched, and the task or tag it holds, where it holds one.
#[derive(Debug, PartialEq, Eq)]
pub struct DocumentChange {
    pub path: String,
    pub kind: DocumentChangeKind,
    pub task: Option<String>,
    pub tag: Option<String>,
}

/// One task a revision touched, even where a new title moved it to a file with a new name: for a
/// removed task the title it had, for a modified one the fields that changed.
#[derive(Debug, PartialEq, Eq)]
pub struct TaskChange {
    pub task: String,
    pub kind: DocumentChangeKind,
    pub title: Option<String>,
    pub fields: Vec<FieldChange>,
}

/// One field a revision changed. `Parent` and `Title` leave out the side that holds nothing.
#[allow(inconsistent_fields)]
#[derive(Debug, PartialEq, Eq)]
pub enum FieldChange {
    /// A sync merge moved the task, because another task took its number first.
    Number { from: String, to: String },
    Status { from: Status, to: Status },
    Parent { from: Option<String>, to: Option<String> },
    Order,
    Dependencies { from: Vec<String>, to: Vec<String> },
    Tags { from: Vec<String>, to: Vec<String> },
    Title { from: Option<String>, to: Option<String> },
    Description,
    Comments { added: usize, removed: usize },
    Conflicts { from: usize, to: usize },
    /// A field the tracker does not model, or one that one version cannot read.
    Other { name: String },
    /// One version of the frontmatter does not parse, so no field of it can be compared.
    Frontmatter,
}

/// One tag a revision touched; a renamed tag is `Modified`, and `renamed_from` holds its old name.
#[derive(Debug, PartialEq, Eq)]
pub struct TagChange {
    pub tag: String,
    pub kind: DocumentChangeKind,
    pub renamed_from: Option<String>,
}

/// The state of the lane that carries rolling updates to the default branch.
#[derive(Debug, Clone, Copy, PartialEq, Eq)]
pub enum SyncState {
    InSync,
    Pending,
    Syncing,
    Blocked,
}

/// A rebase that stopped. The files keep their markers in `worktree`, where a person fixes them.
#[derive(Debug, PartialEq, Eq)]
pub struct Conflict {
    pub files: Vec<String>,
    pub worktree: String,
}

/// The branch the remote now holds, and the commit it points at.
#[derive(Debug, PartialEq, Eq)]
pub struct Published {
    pub branch: String,
    pub commit: String,
}

/// The name the local history stores a kind of change under.
pub open spec fn kind_text(kind: DocumentChangeKind) -> Seq<char> {
    match kind {
        DocumentChangeKind::Added => "added"@,
        DocumentChangeKind::Modified => "modified"@,
        DocumentChangeKind::Removed => "removed"@,
    }
}

/// The name the local history stores a kind of change under.
pub fn kind_name(kind: DocumentChangeKind) -> (name: &'static str)
    ensures
        name@ == kind_text(kind),
{
    match kind {
        DocumentChangeKind::Added => "added",
        DocumentChangeKind::Modified => "modified",
        DocumentChangeKind::Removed => "removed",
    }
}

/// A name the local history holds that names no kind of change.
#[derive(Debug, PartialEq, Eq)]
pub struct UnknownKind {
    pub name: String,
}

/// The kind of change a stored name names; a name that names none is refused with the name.
pub fn parse_kind(name: &str) -> (kind: Result<DocumentChangeKind, UnknownKind>)
    ensures
        match kind {
            Ok(k) => kind_text(k) == name@,
            Err(e) => e.name@ == name@ && forall|k: DocumentChangeKind| kind_text(k) != name@,
        },
{
    proof {
        reveal_strlit("added");
        reveal_strlit("modified");
        reveal_strlit("removed");
    }
    if same_chars(name, "added") {
        Ok(DocumentChangeKind::Added)
    } else if same_chars(name, "modified") {
        Ok(DocumentChangeKind::Modified)
    } else if same_chars(name, "removed") {
        Ok(DocumentChangeKind::Removed)
    } else {
        Err(UnknownKind { name: name.to_owned() })
    }
}

/// A kind of change reads back as itself from the name the history stores it under.
pub proof fn lemma_kind_reads_back(kind: DocumentChangeKind)
    ensures
        forall|k: DocumentChangeKind| kind_text(k) == kind_text(kind) ==> k == kind,
{
    reveal_strlit("added");
    reveal_strlit("modified");
    reveal_strlit("removed");
    assert("added"@[0] != "modified"@[0]);
    assert("added"@[0] != "removed"@[0]);
    assert("modified"@[0] != "removed"@[0]);
}

} // verus!
