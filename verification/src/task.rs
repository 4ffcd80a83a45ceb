//! The shapes a task takes on the read path: a summary, a list row, a detail page.
use vstd::prelude::*;

use crate::field::{copy_text, Field, FieldView, Rfc3339};
use crate::metadata::{Metadata, MetadataView};
use crate::status::Status;

verus! {

/// The id, title, and metadata of one task.
#[derive(Debug, PartialEq, Eq)]
pub struct TaskSummary {
    pub id: String,
    pub title: String,
    pub metadata: Metadata,
}

/// A summary as plain values.
pub struct SummaryView {
    pub id: Seq<char>,
    pub title: Seq<char>,
    pub metadata: MetadataView,
}

impl View for TaskSummary {
    type V = SummaryView;

    open spec fn view(&self) -> SummaryView {
        SummaryView { id: self.id@, title: self.title@, metadata: self.metadata@ }
    }
}

impl Clone for TaskSummary {
    fn clone(&self) -> (copy: Self)
        ensures
            copy@ == self@,
    {
        TaskSummary {
            id: self.id.clone(),
            title: self.title.clone(),
            metadata: self.metadata.clone(),
        }
    }
}

/// The full read of one task: its summary, its body, and when it last changed.
#[derive(Debug, PartialEq, Eq)]
pub struct TaskView {
    pub id: String,
    pub title: String,
    pub metadata: Metadata,
    pub body: String,
    pub updated: Field<Rfc3339>,
}

/// A direct child of a task, in sibling (`rank`) order.
#[derive(Debug, PartialEq, Eq)]
pub struct TaskChild {
    pub id: String,
    pub title: String,
    pub status: Field<Status>,
    pub rank: Option<String>,
}

/// A task referenced by `[[id]]` in a body, resolved to its current title and status.
#[derive(Debug, PartialEq, Eq)]
pub struct TaskRef {
    pub id: String,
    pub title: String,
    pub status: Field<Status>,
}

/// Something wrong with a task that no single write caught.
#[derive(Debug, PartialEq, Eq)]
pub struct Problem {
    pub code: ProblemCode,
    pub message: String,
}

/// The kinds of problem the index reports.
#[derive(Debug, Clone, Copy, PartialEq, Eq, PartialOrd, Ord, Hash)]
pub enum ProblemCode {
    Field,
    Title,
    Comment,
    Diagram,
    Reference,
    Tag,
    ParentCycle,
    DependencyCycle,
    DuplicateNumber,
}

/// The name a problem code travels under.
pub open spec fn problem_code_name(code: ProblemCode) -> Seq<char> {
    match code {
        ProblemCode::Field => "field"@,
        ProblemCode::Title => "title"@,
        ProblemCode::Comment => "comment"@,
        ProblemCode::Diagram => "diagram"@,
        ProblemCode::Reference => "reference"@,
        ProblemCode::Tag => "tag"@,
        ProblemCode::ParentCycle => "parent_cycle"@,
        ProblemCode::DependencyCycle => "dependency_cycle"@,
        ProblemCode::DuplicateNumber => "duplicate_number"@,
    }
}

impl ProblemCode {
    /// The name this code travels under.
    pub fn as_str(self) -> (name: &'static str)
        ensures
            name@ == problem_code_name(self),
    {
        match self {
            ProblemCode::Field => "field",
            ProblemCode::Title => "title",
            ProblemCode::Comment => "comment",
            ProblemCode::Diagram => "diagram",
            ProblemCode::Reference => "reference",
            ProblemCode::Tag => "tag",
            ProblemCode::ParentCycle => "parent_cycle",
            ProblemCode::DependencyCycle => "dependency_cycle",
            ProblemCode::DuplicateNumber => "duplicate_number",
        }
    }
}

impl View for Problem {
    type V = (ProblemCode, Seq<char>);

    open spec fn view(&self) -> (ProblemCode, Seq<char>) {
        (self.code, self.message@)
    }
}

impl Clone for Problem {
    fn clone(&self) -> (copy: Self)
        ensures
            copy@ == self@,
    {
        Problem { code: self.code, message: self.message.clone() }
    }
}

/// Who wrote the revision that created a task.
#[derive(Debug, PartialEq, Eq)]
pub struct Author {
    pub name: String,
    pub email: Option<String>,
    pub agent: Option<String>,
}

impl View for Author {
    type V = (Seq<char>, Option<Seq<char>>, Option<Seq<char>>);

    open spec fn view(&self) -> (Seq<char>, Option<Seq<char>>, Option<Seq<char>>) {
        (self.name@, self.email.deep_view(), self.agent.deep_view())
    }
}

impl Clone for Author {
    fn clone(&self) -> (copy: Self)
        ensures
            copy@ == self@,
    {
        Author { name: self.name.clone(), email: copy_text(&self.email), agent: copy_text(&self.agent) }
    }
}

/// One task as a list row. `project` is the coordinate the key alone cannot carry: two projects
/// can use the same abbreviation, so `id` names a task only within its project.
#[derive(Debug, PartialEq, Eq)]
pub struct TaskListItem {
    pub project: String,
    pub id: String,
    pub title: String,
    pub metadata: Metadata,
    pub comment_count: usize,
    pub conflicts: usize,
    pub problems: Vec<Problem>,
    pub updated: Field<Rfc3339>,
    pub author: Option<Author>,
}

/// A list row as plain values.
pub struct ItemView {
    pub project: Seq<char>,
    pub id: Seq<char>,
    pub title: Seq<char>,
    pub metadata: MetadataView,
    pub comment_count: usize,
    pub conflicts: usize,
    pub problems: Seq<(ProblemCode, Seq<char>)>,
    pub updated: FieldView<Rfc3339>,
    pub author: Option<(Seq<char>, Option<Seq<char>>, Option<Seq<char>>)>,
}

impl View for TaskListItem {
    type V = ItemView;

    open spec fn view(&self) -> ItemView {
        ItemView {
            project: self.project@,
            id: self.id@,
            title: self.title@,
            metadata: self.metadata@,
            comment_count: self.comment_count,
            conflicts: self.conflicts,
            problems: Seq::new(self.problems@.len(), |i: int| self.problems@[i]@),
            updated: self.updated@,
            author: match self.author {
                Some(a) => Some(a@),
                None => None,
            },
        }
    }
}

impl Clone for TaskListItem {
    fn clone(&self) -> (copy: Self)
        ensures
            copy@ == self@,
    {
        let mut problems: Vec<Problem> = Vec::new();
        let mut i: usize = 0;
        while i < self.problems.len()
            invariant
                i <= self.problems@.len(),
                problems@.len() == i,
                forall|j: int| 0 <= j < i ==> (#[trigger] problems@[j])@ == self.problems@[j]@,
            decreases self.problems@.len() - i,
        {
            problems.push(self.problems[i].clone());
            i = i + 1;
        }
        let author = match &self.author {
            Some(a) => Some(a.clone()),
            None => None,
        };
        let copy = TaskListItem {
            project: self.project.clone(),
            id: self.id.clone(),
            title: self.title.clone(),
            metadata: self.metadata.clone(),
            comment_count: self.comment_count,
            conflicts: self.conflicts,
            problems,
            updated: self.updated.clone(),
            author,
        };
        assert(copy@.problems =~= self@.problems);
        copy
    }
}

/// One task read for its own page.
#[derive(Debug, PartialEq, Eq)]
pub struct TaskDetail {
    pub project: String,
    pub id: String,
    pub title: String,
    pub metadata: Metadata,
    pub body: String,
    pub conflicts: usize,
    pub problems: Vec<Problem>,
    pub updated: Field<Rfc3339>,
    pub author: Option<Author>,
    pub parent_title: Option<String>,
    pub children: Vec<TaskChild>,
    pub refs: Vec<TaskRef>,
    pub depends_on: Vec<TaskRef>,
    pub blocks: Vec<TaskRef>,
}

/// Which part of a task a search matched, strongest first.
#[derive(Debug, Clone, Copy, PartialEq, Eq, PartialOrd, Ord, Hash)]
pub enum SearchMatch {
    Key,
    Title,
    Text,
}

/// One task a search matched, as the list row every other list read answers with.
#[derive(Debug, PartialEq, Eq)]
pub struct SearchHit {
    pub task: TaskListItem,
    pub matched: SearchMatch,
}

/// The project and id a task sits at.
pub open spec fn coordinate_of(task: ItemView) -> (Seq<char>, Seq<char>) {
    (task.project, task.id)
}

} // verus!
