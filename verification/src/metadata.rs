//! A task's frontmatter as parsed field by field, so a file with one bad field still renders the
//! rest and flags only what failed.
use vstd::prelude::*;
use vstd::string::*;

use crate::field::{
    value_of, Field, FieldError, FieldErrorView, FieldResult, FieldView,
    ReadError, Rfc3339,
};
use crate::status::{Status, Timestamp};

verus! {

/// The fields a task file's frontmatter declares, each with its own value or error.
#[derive(Debug, PartialEq, Eq)]
pub struct FrontmatterFields {
    pub status: Field<Status>,
    pub created: Field<Rfc3339>,
    pub parent: Field<Option<String>>,
    pub rank: Field<Option<String>>,
    pub dependencies: Field<Vec<String>>,
    pub tags: Field<Vec<String>>,
}

/// The frontmatter fields as plain values.
pub struct FieldsView {
    pub status: FieldView<Status>,
    pub created: FieldView<Rfc3339>,
    pub parent: FieldView<Option<Seq<char>>>,
    pub rank: FieldView<Option<Seq<char>>>,
    pub dependencies: FieldView<Seq<Seq<char>>>,
    pub tags: FieldView<Seq<Seq<char>>>,
}

impl View for FrontmatterFields {
    type V = FieldsView;

    open spec fn view(&self) -> FieldsView {
        FieldsView {
            status: self.status@,
            created: self.created@,
            parent: self.parent@,
            rank: self.rank@,
            dependencies: self.dependencies@,
            tags: self.tags@,
        }
    }
}

/// Marks an unreadable frontmatter on the wire.
#[derive(Debug, Clone, Copy, PartialEq, Eq)]
pub enum MetadataErrorTag {
    Error,
}

/// The task's metadata as parsed: `Fields` when the YAML is a mapping, `Error` when the fence or
/// the YAML itself is unrecoverable.
#[derive(Debug, PartialEq, Eq)]
pub enum Metadata {
    Error { kind: MetadataErrorTag, message: String },
    Fields(FrontmatterFields),
}

/// The metadata as plain values.
pub enum MetadataView {
    Error(Seq<char>),
    Fields(FieldsView),
}

impl View for Metadata {
    type V = MetadataView;

    open spec fn view(&self) -> MetadataView {
        match self {
            Metadata::Error { message, .. } => MetadataView::Error(message@),
            Metadata::Fields(fields) => MetadataView::Fields(fields@),
        }
    }
}

impl Clone for Metadata {
    fn clone(&self) -> (copy: Self)
        ensures
            copy@ == self@,
    {
        match self {
            Metadata::Error { kind, message } => Metadata::Error {
                kind: *kind,
                message: message.clone(),
            },
            Metadata::Fields(fields) => Metadata::Fields(fields.copy()),
        }
    }
}

impl FrontmatterFields {
    /// A copy of every field.
    pub fn copy(&self) -> (copy: Self)
        ensures
            copy@ == self@,
    {
        FrontmatterFields {
            status: self.status.clone(),
            created: self.created.clone(),
            parent: self.parent.clone(),
            rank: self.rank.clone(),
            dependencies: self.dependencies.clone(),
            tags: self.tags.clone(),
        }
    }
}

/// The value a field view reads as: its own, or the published one of a conflict.
pub open spec fn view_value<V>(field: FieldView<V>) -> Option<V> {
    match field {
        FieldView::Value(value) => Some(value),
        FieldView::Conflict(value, _) => Some(value),
        FieldView::Error(_) => None,
    }
}

/// The status metadata reads as, from its plain values.
pub open spec fn view_status(metadata: MetadataView) -> Option<Status> {
    match metadata {
        MetadataView::Fields(fields) => view_value(fields.status),
        MetadataView::Error(_) => None,
    }
}

/// The parent metadata names, from its plain values.
pub open spec fn view_parent(metadata: MetadataView) -> Option<Seq<char>> {
    match metadata {
        MetadataView::Fields(fields) => match view_value(fields.parent) {
            Some(Some(parent)) => Some(parent),
            _ => None,
        },
        MetadataView::Error(_) => None,
    }
}

/// The rank metadata sets, from its plain values.
pub open spec fn view_rank(metadata: MetadataView) -> Option<Seq<char>> {
    match metadata {
        MetadataView::Fields(fields) => match view_value(fields.rank) {
            Some(Some(rank)) => Some(rank),
            _ => None,
        },
        MetadataView::Error(_) => None,
    }
}

/// What metadata reads as is what its plain values read as.
pub proof fn lemma_metadata_view(metadata: &Metadata)
    ensures
        status_of(metadata) == view_status(metadata@),
        parent_of(metadata) == view_parent(metadata@),
        rank_of(metadata) == view_rank(metadata@),
{
}

/// The status a task's metadata reads as, where it has one.
pub open spec fn status_of(metadata: &Metadata) -> Option<Status> {
    match metadata {
        Metadata::Fields(fields) => value_of(&fields.status),
        Metadata::Error { .. } => None,
    }
}

/// The text an optional field reads as, where it holds one.
pub open spec fn text_of(field: &Field<Option<String>>) -> Option<Seq<char>> {
    match value_of(field) {
        Some(Some(text)) => Some(text@),
        _ => None,
    }
}

/// The parent a task's metadata names, where it names one that parsed.
pub open spec fn parent_of(metadata: &Metadata) -> Option<Seq<char>> {
    match metadata {
        Metadata::Fields(fields) => text_of(&fields.parent),
        Metadata::Error { .. } => None,
    }
}

/// The rank a task's metadata sets, where it sets one that parsed.
pub open spec fn rank_of(metadata: &Metadata) -> Option<Seq<char>> {
    match metadata {
        Metadata::Fields(fields) => text_of(&fields.rank),
        Metadata::Error { .. } => None,
    }
}

/// The creation time a task's metadata reads as.
pub open spec fn created_of(metadata: &Metadata) -> Option<Timestamp> {
    match metadata {
        Metadata::Fields(fields) => match value_of(&fields.created) {
            Some(at) => Some(at.0),
            None => None,
        },
        Metadata::Error { .. } => None,
    }
}

/// The dependencies a task's metadata lists; none where the field holds no plain value.
pub open spec fn dependencies_of(metadata: &Metadata) -> Seq<String> {
    match metadata {
        Metadata::Fields(fields) => match fields.dependencies {
            Field::Value(list) => list@,
            _ => Seq::empty(),
        },
        Metadata::Error { .. } => Seq::empty(),
    }
}

/// The tags a task's metadata lists; none where the field holds no plain value.
pub open spec fn tags_of(metadata: &Metadata) -> Seq<String> {
    match metadata {
        Metadata::Fields(fields) => match fields.tags {
            Field::Value(list) => list@,
            _ => Seq::empty(),
        },
        Metadata::Error { .. } => Seq::empty(),
    }
}

/// The line that names one failed field: `<name>: missing` or `<name>: <message>`.
pub open spec fn problem_line(name: Seq<char>, err: FieldErrorView) -> Seq<char> {
    match err {
        FieldErrorView::Missing => name + ": missing"@,
        FieldErrorView::Invalid(message) => name + ": "@ + message,
    }
}

/// The line for a field, if it failed.
pub open spec fn problem_of<V>(name: Seq<char>, field: FieldView<V>) -> Seq<Seq<char>> {
    match field {
        FieldView::Error(err) => seq![problem_line(name, err)],
        _ => Seq::empty(),
    }
}

/// Every field that failed, named, in the order the frontmatter lists them.
pub open spec fn problems_of(metadata: MetadataView) -> Seq<Seq<char>> {
    match metadata {
        MetadataView::Error(message) => seq!["frontmatter: "@ + message],
        MetadataView::Fields(f) => problem_of("status"@, f.status) + problem_of("created"@, f.created)
            + problem_of("parent"@, f.parent) + problem_of("rank"@, f.rank) + problem_of(
            "dependencies"@,
            f.dependencies,
        ) + problem_of("tags"@, f.tags),
    }
}

/// Appends the line for a field that failed.
fn push_problem(out: &mut Vec<String>, name: &str, err: Option<&FieldError>)
    ensures
        final(out)@.len() == old(out)@.len() + match err {
            Some(_) => 1int,
            None => 0,
        },
        forall|i: int| 0 <= i < old(out)@.len() ==> final(out)@[i] == old(out)@[i],
        err matches Some(e) ==> final(out)@.last()@ == problem_line(name@, e@),
{
    if let Some(err) = err {
        let line = match err {
            FieldError::Missing => String::from_str(name).concat(": missing"),
            FieldError::Invalid { message } => String::from_str(name).concat(": ").concat(
                message.as_str(),
            ),
        };
        out.push(line);
    }
}

impl Metadata {
    /// The fields, when the frontmatter parsed as a mapping.
    pub fn fields(&self) -> (fields: Option<&FrontmatterFields>)
        ensures
            match self {
                Metadata::Fields(f) => fields == Some(f),
                Metadata::Error { .. } => fields is None,
            },
    {
        match self {
            Metadata::Fields(fields) => Some(fields),
            Metadata::Error { .. } => None,
        }
    }

    /// The display value: a field that failed has none, so a client shows the failure instead of
    /// a fabricated one.
    pub fn status(&self) -> (status: Option<Status>)
        ensures
            status == status_of(self),
    {
        match self.fields() {
            Some(fields) => match fields.status.as_value() {
                Some(status) => Some(*status),
                None => None,
            },
            None => None,
        }
    }

    /// The status as a field. A file whose metadata did not parse at all fails every field.
    pub fn status_field(&self) -> (field: Field<Status>)
        ensures
            match self {
                Metadata::Fields(f) => field@ == f.status@,
                Metadata::Error { message, .. } => field@ == FieldView::<Status>::Error(
                    FieldErrorView::Invalid(message@),
                ),
            },
    {
        match self {
            Metadata::Fields(fields) => fields.status.clone(),
            Metadata::Error { message, .. } => Field::Error(
                FieldError::Invalid { message: message.clone() },
            ),
        }
    }

    /// The parent the task names. A field that failed reads as absent, as a task with no parent.
    pub fn parent(&self) -> (parent: Option<&str>)
        ensures
            parent matches Some(p) ==> parent_of(self) == Some(p@),
            parent is None ==> parent_of(self) is None,
    {
        match self.fields() {
            Some(fields) => match fields.parent.as_value() {
                Some(Some(parent)) => Some(parent.as_str()),
                _ => None,
            },
            None => None,
        }
    }

    /// The rank the task sets. A field that failed reads as absent, as an unranked task.
    pub fn rank(&self) -> (rank: Option<&str>)
        ensures
            rank matches Some(r) ==> rank_of(self) == Some(r@),
            rank is None ==> rank_of(self) is None,
    {
        match self.fields() {
            Some(fields) => match fields.rank.as_value() {
                Some(Some(rank)) => Some(rank.as_str()),
                _ => None,
            },
            None => None,
        }
    }

    /// The time the task was created, where it reads as one.
    pub fn created(&self) -> (created: Option<Timestamp>)
        ensures
            created == created_of(self),
    {
        match self.fields() {
            Some(fields) => match fields.created.as_value() {
                Some(at) => Some(at.0),
                None => None,
            },
            None => None,
        }
    }

    /// Every field that failed, named, for a surface that reports what is wrong rather than only
    /// that something is.
    pub fn problems(&self) -> (problems: Vec<String>)
        ensures
            problems.deep_view() == problems_of(self@),
    {
        let fields = match self {
            Metadata::Error { message, .. } => {
                let mut out = Vec::new();
                out.push(String::from_str("frontmatter: ").concat(message.as_str()));
                assert(out.deep_view() =~= problems_of(self@));
                return out;
            },
            Metadata::Fields(fields) => fields,
        };
        let mut out: Vec<String> = Vec::new();
        push_problem(&mut out, "status", fields.status.as_error());
        let ghost a = out.deep_view();
        push_problem(&mut out, "created", fields.created.as_error());
        let ghost b = out.deep_view();
        push_problem(&mut out, "parent", fields.parent.as_error());
        let ghost c = out.deep_view();
        push_problem(&mut out, "rank", fields.rank.as_error());
        let ghost d = out.deep_view();
        push_problem(&mut out, "dependencies", fields.dependencies.as_error());
        let ghost e = out.deep_view();
        push_problem(&mut out, "tags", fields.tags.as_error());
        proof {
            let f = fields@;
            assert(a =~= problem_of("status"@, f.status));
            assert(b =~= a + problem_of("created"@, f.created));
            assert(c =~= b + problem_of("parent"@, f.parent));
            assert(d =~= c + problem_of("rank"@, f.rank));
            assert(e =~= d + problem_of("dependencies"@, f.dependencies));
            assert(out.deep_view() =~= e + problem_of("tags"@, f.tags));
        }
        out
    }

    /// The dependencies the task lists; none where the field failed or is in conflict.
    pub fn dependencies(&self) -> (dependencies: &[String])
        ensures
            dependencies@ == dependencies_of(self),
    {
        match self {
            Metadata::Fields(fields) => match &fields.dependencies {
                Field::Value(dependencies) => dependencies.as_slice(),
                _ => &[],
            },
            Metadata::Error { .. } => &[],
        }
    }

    /// The tags the task carries; none where the field failed or is in conflict.
    pub fn tags(&self) -> (tags: &[String])
        ensures
            tags@ == tags_of(self),
    {
        match self {
            Metadata::Fields(fields) => match &fields.tags {
                Field::Value(tags) => tags.as_slice(),
                _ => &[],
            },
            Metadata::Error { .. } => &[],
        }
    }
}

/// The second a surface shows as `updated` for a change at `at`: clamped up to `created`.
pub open spec fn shown_update(created: Option<Timestamp>, at: Timestamp) -> i64 {
    match created {
        Some(c) => if at.second >= c.second {
            at.second
        } else {
            c.second
        },
        None => at.second,
    }
}

/// The `updated` a surface reports: the time of the last change, clamped up to `created`, so a
/// hand-set `created` later than the last edit cannot show a task updated before it existed. A
/// time that could not be derived stays the reason it could not.
pub fn updated_field(created: Option<Timestamp>, updated: FieldResult<Timestamp>) -> (field: Field<
    Rfc3339,
>)
    ensures
        match updated {
            Ok(at) => field matches Field::Value(shown) && shown.0.second == shown_update(
                created,
                at,
            ),
            Err(ReadError::Missing) => field matches Field::Error(FieldError::Missing),
            Err(ReadError::Invalid(message)) => field matches Field::Error(
                FieldError::Invalid { message: m },
            ) && m == message,
        },
{
    match updated {
        Ok(at) => Field::Value(
            match created {
                Some(created) => Rfc3339(at.later(created)),
                None => Rfc3339(at),
            },
        ),
        Err(ReadError::Missing) => Field::Error(FieldError::Missing),
        Err(ReadError::Invalid(message)) => Field::Error(FieldError::Invalid { message }),
    }
}

/// A task never reads as updated before it was created, nor before its last change: the shown
/// time is the later of the two.
pub proof fn lemma_updated_not_before_created(created: Timestamp, at: Timestamp)
    ensures
        shown_update(Some(created), at) >= created.second,
        shown_update(Some(created), at) >= at.second,
        shown_update(Some(created), at) == created.second || shown_update(Some(created), at)
            == at.second,
{
}

} // verus!
