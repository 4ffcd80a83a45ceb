//! What a task file rebuilt from the state the daemon holds says: the frontmatter entries in the
//! order the file writes them, each reference in the spelling the store reads back, and a note for
//! each field a sync left in conflict.
use vstd::prelude::*;
use vstd::string::StringExecFns;

use crate::field::{Field, FieldView, Rfc3339};
use crate::keys::{decimal, digit_char, key_number, number_of_key, ref_target, target_of};
use crate::metadata::{view_value, FieldsView, FrontmatterFields, Metadata, MetadataView};
use crate::status::{status_name, Status};

verus! {

/// A task that cannot be written back as a file: its frontmatter lacks `status`, `created`, or
/// both, which make a task file one. A rendering without them would destroy the task if it were
/// written over the file.
#[derive(Debug, Clone, Copy, PartialEq, Eq)]
pub struct RenderError;

impl RenderError {
    /// What the error says.
    pub fn message(&self) -> (text: String)
        ensures
            text@ == "the task cannot be rendered as a task file: its frontmatter is missing `status`, `created`, or both. Read the file itself to repair it."@,
    {
        String::from_str(
            "the task cannot be rendered as a task file: its frontmatter is missing `status`, `created`, or both. Read the file itself to repair it.",
        )
    }
}

/// A reference as a task file spells it: a plain reference is the number the file layer
/// allocates, which YAML writes unquoted; one aimed at a section carries text a number cannot
/// hold, so it stays text.
#[derive(Debug, PartialEq, Eq)]
pub enum FileRef {
    Number(u64),
    Text(String),
}

/// A file reference as plain values.
pub enum FileRefView {
    Number(u64),
    Text(Seq<char>),
}

impl View for FileRef {
    type V = FileRefView;

    open spec fn view(&self) -> FileRefView {
        match self {
            FileRef::Number(n) => FileRefView::Number(*n),
            FileRef::Text(t) => FileRefView::Text(t@),
        }
    }
}

/// The value of one frontmatter entry.
#[derive(Debug, PartialEq, Eq)]
pub enum FileValue {
    Text(String),
    Instant(Rfc3339),
    Ref(FileRef),
    Refs(Vec<FileRef>),
    Texts(Vec<String>),
}

/// An entry value as plain values.
pub enum FileValueView {
    Text(Seq<char>),
    Instant(Rfc3339),
    Ref(FileRefView),
    Refs(Seq<FileRefView>),
    Texts(Seq<Seq<char>>),
}

impl View for FileValue {
    type V = FileValueView;

    open spec fn view(&self) -> FileValueView {
        match self {
            FileValue::Text(t) => FileValueView::Text(t@),
            FileValue::Instant(at) => FileValueView::Instant(*at),
            FileValue::Ref(r) => FileValueView::Ref(r@),
            FileValue::Refs(rs) => FileValueView::Refs(Seq::new(rs@.len(), |k: int| rs@[k]@)),
            FileValue::Texts(ts) => FileValueView::Texts(Seq::new(ts@.len(), |k: int| ts@[k]@)),
        }
    }
}

/// One frontmatter entry: its key and its value.
#[derive(Debug, PartialEq, Eq)]
pub struct FileEntry {
    pub key: String,
    pub value: FileValue,
}

impl View for FileEntry {
    type V = (Seq<char>, FileValueView);

    open spec fn view(&self) -> (Seq<char>, FileValueView) {
        (self.key@, self.value@)
    }
}

/// A field a sync left in conflict, as the file notes it: the other side's value in file spelling,
/// and the labels of the other side and of the published one.
#[derive(Debug, PartialEq, Eq)]
pub struct ConflictNote {
    pub field: String,
    pub other: Option<FileValue>,
    pub other_label: String,
    pub label: String,
}

/// A conflict note as plain values.
pub struct NoteView {
    pub field: Seq<char>,
    pub other: Option<FileValueView>,
    pub other_label: Seq<char>,
    pub label: Seq<char>,
}

impl View for ConflictNote {
    type V = NoteView;

    open spec fn view(&self) -> NoteView {
        NoteView {
            field: self.field@,
            other: match self.other {
                Some(v) => Some(v@),
                None => None,
            },
            other_label: self.other_label@,
            label: self.label@,
        }
    }
}

/// A reference in file spelling: a key becomes its number, and a key aimed at a section keeps the
/// section behind the number; anything else stays as it is.
pub open spec fn file_ref(reference: Seq<char>) -> FileRefView {
    let target = target_of(reference);
    match number_of_key(target) {
        Some(n) => if target == reference {
            FileRefView::Number(n)
        } else {
            FileRefView::Text(decimal(n as nat) + reference.subrange(target.len() as int, reference.len() as int))
        },
        None => FileRefView::Text(reference),
    }
}

/// The references in file spelling.
pub open spec fn file_refs(references: Seq<Seq<char>>) -> Seq<FileRefView> {
    Seq::new(references.len(), |k: int| file_ref(references[k]))
}

/// One entry where the value is there.
pub open spec fn entry_if(key: Seq<char>, value: Option<FileValueView>) -> Seq<(Seq<char>, FileValueView)> {
    match value {
        Some(v) => seq![(key, v)],
        None => Seq::empty(),
    }
}

/// The parent entry's value: the parent in file spelling, where one is set.
pub open spec fn parent_value(parent: Option<Seq<char>>) -> Option<FileValueView> {
    match parent {
        Some(p) => Some(FileValueView::Ref(file_ref(p))),
        None => None,
    }
}

/// The rank entry's value, where one is set.
pub open spec fn rank_value(rank: Option<Seq<char>>) -> Option<FileValueView> {
    match rank {
        Some(r) => Some(FileValueView::Text(r)),
        None => None,
    }
}

/// The dependencies entry's value: the references in file spelling, where there are any.
pub open spec fn dependencies_value(dependencies: Seq<Seq<char>>) -> Option<FileValueView> {
    if dependencies.len() > 0 {
        Some(FileValueView::Refs(file_refs(dependencies)))
    } else {
        None
    }
}

/// The tags entry's value, where there are any.
pub open spec fn tags_value(tags: Seq<Seq<char>>) -> Option<FileValueView> {
    if tags.len() > 0 {
        Some(FileValueView::Texts(tags))
    } else {
        None
    }
}

/// What a field reads as, flattened: nothing where it failed or holds nothing.
pub open spec fn read_or_none<V>(field: FieldView<Option<V>>) -> Option<V> {
    match view_value(field) {
        Some(Some(v)) => Some(v),
        _ => None,
    }
}

/// A list field's value, empty where it failed.
pub open spec fn list_or_empty(field: FieldView<Seq<Seq<char>>>) -> Seq<Seq<char>> {
    match view_value(field) {
        Some(list) => list,
        None => Seq::empty(),
    }
}

/// The frontmatter a task file is rebuilt with, in the order the file writes it: `status` and
/// `created`, then the parent, rank, dependencies and tags that are set. None where `status` or
/// `created` did not parse. A field that did not parse is left out rather than guessed at.
pub open spec fn frontmatter_of(f: FieldsView) -> Option<Seq<(Seq<char>, FileValueView)>> {
    match (view_value(f.status), view_value(f.created)) {
        (Some(status), Some(created)) => Some(
            seq![("status"@, FileValueView::Text(status_name(status))), ("created"@, FileValueView::Instant(created))]
                + entry_if("parent"@, parent_value(read_or_none(f.parent)))
                + entry_if("rank"@, rank_value(read_or_none(f.rank)))
                + entry_if("dependencies"@, dependencies_value(list_or_empty(f.dependencies)))
                + entry_if("tags"@, tags_value(list_or_empty(f.tags))),
        ),
        _ => None,
    }
}

/// The sides of a field in conflict: the other side's value and label, then the published
/// side's label. The first side is the other one and the last the published one. None where the
/// field is not in conflict or names no side.
pub open spec fn note_sides<V>(field: FieldView<V>) -> Option<(V, Seq<char>, Seq<char>)> {
    match field {
        FieldView::Conflict(_, sides) => if sides.len() > 0 {
            Some((sides[0].1, sides[0].0, sides.last().0))
        } else {
            None
        },
        _ => None,
    }
}

/// The note a field in conflict leaves, its other value spelled as `other`.
pub open spec fn note_with(name: Seq<char>, sides: Option<(Seq<char>, Seq<char>)>, other: Option<FileValueView>) -> Seq<NoteView> {
    match sides {
        Some((other_label, label)) => seq![NoteView { field: name, other, other_label, label }],
        None => Seq::empty(),
    }
}

/// The labels of a field's sides, where it is in conflict.
pub open spec fn labels<V>(field: FieldView<V>) -> Option<(Seq<char>, Seq<char>)> {
    match note_sides(field) {
        Some((_, other_label, label)) => Some((other_label, label)),
        None => None,
    }
}

/// The other side's value of a field in conflict, spelled by `spell`; none where not in conflict.
pub open spec fn other_spelled<V>(field: FieldView<V>, spell: spec_fn(V) -> Option<FileValueView>) -> Option<FileValueView> {
    match note_sides(field) {
        Some((v, _, _)) => spell(v),
        None => None,
    }
}

/// The notes of the fields in conflict, in the order the file writes the fields.
pub open spec fn notes_of(f: FieldsView) -> Seq<NoteView> {
    note_with("status"@, labels(f.status), other_spelled(f.status, |s: Status| Some(FileValueView::Text(status_name(s)))))
        + note_with("created"@, labels(f.created), other_spelled(f.created, |c: Rfc3339| Some(FileValueView::Instant(c))))
        + note_with("parent"@, labels(f.parent), other_spelled(f.parent, |p: Option<Seq<char>>| parent_value(p)))
        + note_with("rank"@, labels(f.rank), other_spelled(f.rank, |r: Option<Seq<char>>| rank_value(r)))
        + note_with("dependencies"@, labels(f.dependencies), other_spelled(f.dependencies, |d: Seq<Seq<char>>| dependencies_value(d)))
        + note_with("tags"@, labels(f.tags), other_spelled(f.tags, |t: Seq<Seq<char>>| tags_value(t)))
}

/// The decimal spelling of a number.
pub fn decimal_text(n: u64) -> (text: String)
    ensures
        text@ == decimal(n as nat),
    decreases n,
{
    let digits = "0123456789";
    proof {
        reveal_strlit("0123456789");
    }
    let d = (n % 10) as usize;
    proof {
        assert(digits@.subrange(d as int, d + 1) =~= seq![digit_char(d as nat)]);
    }
    if n < 10 {
        String::from_str(digits.substring_char(d, d + 1))
    } else {
        let mut text = decimal_text(n / 10);
        text.append(digits.substring_char(d, d + 1));
        text
    }
}

/// A reference in the spelling the store reads back.
pub fn file_reference(reference: &str) -> (spelled: FileRef)
    ensures
        spelled@ == file_ref(reference@),
{
    let target = ref_target(reference);
    match key_number(target) {
        Some(number) => {
            let n = reference.unicode_len();
            let t = target.unicode_len();
            proof {
                crate::keys::lemma_first_index(reference@, '#');
            }
            if t == n {
                proof {
                    assert(target@ =~= reference@);
                }
                FileRef::Number(number)
            } else {
                let mut text = decimal_text(number);
                text.append(reference.substring_char(t, n));
                FileRef::Text(text)
            }
        },
        None => FileRef::Text(reference.to_owned()),
    }
}

/// The references in the spelling the store reads back.
fn file_references(references: &Vec<String>) -> (spelled: Vec<FileRef>)
    ensures
        Seq::new(spelled@.len(), |k: int| spelled@[k]@) == file_refs(Seq::new(references@.len(), |k: int| references@[k]@)),
{
    let mut spelled: Vec<FileRef> = Vec::new();
    let mut k: usize = 0;
    while k < references.len()
        invariant
            k <= references.len(),
            spelled@.len() == k,
            forall|j: int| 0 <= j < k ==> (#[trigger] spelled@[j])@ == file_ref(references@[j]@),
        decreases references.len() - k,
    {
        spelled.push(file_reference(references[k].as_str()));
        k = k + 1;
    }
    proof {
        assert(Seq::new(spelled@.len(), |k: int| spelled@[k]@) =~= file_refs(Seq::new(references@.len(), |k: int| references@[k]@)));
    }
    spelled
}

/// A copy of each text.
fn copy_all(texts: &Vec<String>) -> (copy: Vec<String>)
    ensures
        Seq::new(copy@.len(), |k: int| copy@[k]@) == Seq::new(texts@.len(), |k: int| texts@[k]@),
{
    let mut copy: Vec<String> = Vec::new();
    let mut k: usize = 0;
    while k < texts.len()
        invariant
            k <= texts.len(),
            copy@.len() == k,
            forall|j: int| 0 <= j < k ==> (#[trigger] copy@[j])@ == texts@[j]@,
        decreases texts.len() - k,
    {
        copy.push(texts[k].clone());
        k = k + 1;
    }
    proof {
        assert(Seq::new(copy@.len(), |k: int| copy@[k]@) =~= Seq::new(texts@.len(), |k: int| texts@[k]@));
    }
    copy
}

/// The parent entry's value.
fn spell_parent(parent: &Option<String>) -> (value: Option<FileValue>)
    ensures
        view_opt(&value) == parent_value(match parent {
            Some(p) => Some(p@),
            None => None,
        }),
{
    match parent {
        Some(p) => Some(FileValue::Ref(file_reference(p.as_str()))),
        None => None,
    }
}

/// The rank entry's value.
fn spell_rank(rank: &Option<String>) -> (value: Option<FileValue>)
    ensures
        view_opt(&value) == rank_value(match rank {
            Some(r) => Some(r@),
            None => None,
        }),
{
    match rank {
        Some(r) => Some(FileValue::Text(r.clone())),
        None => None,
    }
}

/// The dependencies entry's value.
fn spell_dependencies(dependencies: &Vec<String>) -> (value: Option<FileValue>)
    ensures
        view_opt(&value) == dependencies_value(Seq::new(dependencies@.len(), |k: int| dependencies@[k]@)),
{
    if dependencies.len() > 0 {
        Some(FileValue::Refs(file_references(dependencies)))
    } else {
        None
    }
}

/// The tags entry's value.
fn spell_tags(tags: &Vec<String>) -> (value: Option<FileValue>)
    ensures
        view_opt(&value) == tags_value(Seq::new(tags@.len(), |k: int| tags@[k]@)),
{
    if tags.len() > 0 {
        Some(FileValue::Texts(copy_all(tags)))
    } else {
        None
    }
}

/// An optional entry value as plain values.
pub open spec fn view_opt(value: &Option<FileValue>) -> Option<FileValueView> {
    match value {
        Some(v) => Some(v@),
        None => None,
    }
}

/// The entries a list holds, as plain values.
pub open spec fn entry_views(entries: Seq<FileEntry>) -> Seq<(Seq<char>, FileValueView)> {
    Seq::new(entries.len(), |k: int| entries[k]@)
}

/// The notes a list holds, as plain values.
pub open spec fn note_views(notes: Seq<ConflictNote>) -> Seq<NoteView> {
    Seq::new(notes.len(), |k: int| notes[k]@)
}

/// Adds an entry where there is a value.
fn put(entries: &mut Vec<FileEntry>, key: &str, value: Option<FileValue>)
    ensures
        entry_views(final(entries)@) == entry_views(old(entries)@) + entry_if(key@, view_opt(&value)),
{
    match value {
        Some(v) => {
            let ghost before = entry_views(entries@);
            entries.push(FileEntry { key: key.to_owned(), value: v });
            proof {
                assert(entry_views(entries@) =~= before + entry_if(key@, view_opt(&value)));
            }
        },
        None => {
            proof {
                assert(entry_views(entries@) =~= entry_views(entries@) + entry_if(key@, view_opt(&value)));
            }
        },
    }
}

/// What a field's plain values read as is what the field reads as.
proof fn lemma_value_view<T: DeepView>(field: &Field<T>)
    ensures
        view_value(field@) == match crate::field::value_of(field) {
            Some(v) => Some(v.deep_view()),
            None => None,
        },
{
}

/// What a status field's plain values read as is what the field reads as.
pub proof fn lemma_status_view_value(field: &Field<Status>)
    ensures
        view_value(field@) == crate::field::value_of(field),
{
    lemma_value_view(field);
}

/// The frontmatter entries a task file is rebuilt with, in the order the file writes them. Fails
/// where the metadata did not parse, or `status` or `created` did not.
pub fn frontmatter_entries(metadata: &Metadata) -> (result: Result<Vec<FileEntry>, RenderError>)
    ensures
        match metadata@ {
            MetadataView::Fields(f) => match frontmatter_of(f) {
                Some(es) => result matches Ok(entries) && entry_views(entries@) == es,
                None => result is Err,
            },
            MetadataView::Error(_) => result is Err,
        },
{
    let fields = match metadata.fields() {
        Some(fields) => fields,
        None => {
            return Err(RenderError);
        },
    };
    let (status, created) = match (fields.status.as_value(), fields.created.as_value()) {
        (Some(status), Some(created)) => (*status, *created),
        _ => {
            return Err(RenderError);
        },
    };
    let mut entries: Vec<FileEntry> = Vec::new();
    put(&mut entries, "status", Some(FileValue::Text(String::from_str(status.as_str()))));
    put(&mut entries, "created", Some(FileValue::Instant(created)));
    let parent = match fields.parent.as_value() {
        Some(p) => spell_parent(p),
        None => None,
    };
    put(&mut entries, "parent", parent);
    let rank = match fields.rank.as_value() {
        Some(r) => spell_rank(r),
        None => None,
    };
    put(&mut entries, "rank", rank);
    let dependencies = match fields.dependencies.as_value() {
        Some(d) => spell_dependencies(d),
        None => None,
    };
    put(&mut entries, "dependencies", dependencies);
    let tags = match fields.tags.as_value() {
        Some(t) => spell_tags(t),
        None => None,
    };
    put(&mut entries, "tags", tags);
    proof {
        let f = fields@;
        lemma_value_view(&fields.status);
        lemma_value_view(&fields.created);
        lemma_value_view(&fields.parent);
        lemma_value_view(&fields.rank);
        lemma_value_view(&fields.dependencies);
        lemma_value_view(&fields.tags);
        match crate::field::value_of(&fields.parent) {
            Some(p) => {
                assert(read_or_none(f.parent) == match p {
                    Some(x) => Some(x@),
                    None => None,
                });
            },
            None => {},
        }
        match crate::field::value_of(&fields.rank) {
            Some(r) => {
                assert(read_or_none(f.rank) == match r {
                    Some(x) => Some(x@),
                    None => None,
                });
            },
            None => {},
        }
        match crate::field::value_of(&fields.dependencies) {
            Some(d) => {
                assert(list_or_empty(f.dependencies) =~= Seq::new(d@.len(), |k: int| d@[k]@));
            },
            None => {},
        }
        match crate::field::value_of(&fields.tags) {
            Some(t) => {
                assert(list_or_empty(f.tags) =~= Seq::new(t@.len(), |k: int| t@[k]@));
            },
            None => {},
        }
        assert(entry_views(entries@) =~= frontmatter_of(f)->0);
    }
    Ok(entries)
}

/// The sides of a field in conflict: the other side's value and label, and the published side's
/// label.
fn sides_of<T: DeepView>(field: &Field<T>) -> (sides: Option<(&T, &String, &String)>)
    ensures
        match sides {
            Some((v, other_label, label)) => note_sides(field@) == Some((v.deep_view(), other_label@, label@)),
            None => note_sides(field@) is None,
        },
{
    match field {
        Field::Conflict(conflict) => {
            let n = conflict.sides.len();
            if n == 0 {
                return None;
            }
            let other = &conflict.sides[0];
            let published = &conflict.sides[n - 1];
            Some((&other.value, &other.label, &published.label))
        },
        _ => None,
    }
}

/// Adds the note of a field in conflict, its other side spelled as `other`.
fn note(notes: &mut Vec<ConflictNote>, name: &str, sides: Option<(&String, &String)>, other: Option<FileValue>)
    ensures
        note_views(final(notes)@) == note_views(old(notes)@) + note_with(
            name@,
            match sides {
                Some((o, l)) => Some((o@, l@)),
                None => None,
            },
            view_opt(&other),
        ),
{
    let ghost before = note_views(notes@);
    match sides {
        Some((other_label, label)) => {
            notes.push(ConflictNote { field: name.to_owned(), other, other_label: other_label.clone(), label: label.clone() });
            proof {
                assert(note_views(notes@) =~= before + note_with(name@, Some((other_label@, label@)), view_opt(&other)));
            }
        },
        None => {
            proof {
                assert(note_views(notes@) =~= before + note_with(name@, None, view_opt(&other)));
            }
        },
    }
}

/// The labels of a field's sides, where it is in conflict.
fn labels_of<'a, T: DeepView>(sides: Option<(&'a T, &'a String, &'a String)>) -> (out: Option<(&'a String, &'a String)>)
    ensures
        out == match sides {
            Some((_, o, l)) => Some((o, l)),
            None => None,
        },
{
    match sides {
        Some((_, o, l)) => Some((o, l)),
        None => None,
    }
}

/// A note for each field a sync left in conflict, its other side in the spelling its published
/// value takes in the file, so a file written back from the rendering keeps the conflict as the
/// daemon holds it.
pub fn conflicts_of(fields: &FrontmatterFields) -> (notes: Vec<ConflictNote>)
    ensures
        note_views(notes@) == notes_of(fields@),
{
    let mut notes: Vec<ConflictNote> = Vec::new();
    let s = sides_of(&fields.status);
    let other = match s {
        Some((v, _, _)) => Some(FileValue::Text(String::from_str(v.as_str()))),
        None => None,
    };
    note(&mut notes, "status", labels_of(s), other);
    let c = sides_of(&fields.created);
    let other = match c {
        Some((v, _, _)) => Some(FileValue::Instant(*v)),
        None => None,
    };
    note(&mut notes, "created", labels_of(c), other);
    let p = sides_of(&fields.parent);
    let other = match p {
        Some((v, _, _)) => spell_parent(v),
        None => None,
    };
    note(&mut notes, "parent", labels_of(p), other);
    let r = sides_of(&fields.rank);
    let other = match r {
        Some((v, _, _)) => spell_rank(v),
        None => None,
    };
    note(&mut notes, "rank", labels_of(r), other);
    let d = sides_of(&fields.dependencies);
    let other = match d {
        Some((v, _, _)) => spell_dependencies(v),
        None => None,
    };
    note(&mut notes, "dependencies", labels_of(d), other);
    let t = sides_of(&fields.tags);
    let other = match t {
        Some((v, _, _)) => spell_tags(v),
        None => None,
    };
    note(&mut notes, "tags", labels_of(t), other);
    proof {
        let f = fields@;
        match p {
            Some((v, _, _)) => {
                assert(v.deep_view() == match *v {
                    Some(x) => Some(x@),
                    None => None,
                });
            },
            None => {},
        }
        match r {
            Some((v, _, _)) => {
                assert(v.deep_view() == match *v {
                    Some(x) => Some(x@),
                    None => None,
                });
            },
            None => {},
        }
        match d {
            Some((v, _, _)) => {
                assert(v.deep_view() =~= Seq::new(v@.len(), |k: int| v@[k]@));
            },
            None => {},
        }
        match t {
            Some((v, _, _)) => {
                assert(v.deep_view() =~= Seq::new(v@.len(), |k: int| v@[k]@));
            },
            None => {},
        }
        assert(note_views(notes@) =~= notes_of(f));
    }
    notes
}


/// The place of a frontmatter key in the order a task file writes its keys.
pub open spec fn key_place(key: Seq<char>) -> int {
    if key == "status"@ {
        0
    } else if key == "created"@ {
        1
    } else if key == "parent"@ {
        2
    } else if key == "rank"@ {
        3
    } else if key == "dependencies"@ {
        4
    } else if key == "tags"@ {
        5
    } else {
        6
    }
}

/// The keys of the entries come in the order a task file writes them, each at most once.
pub open spec fn keys_in_file_order(es: Seq<(Seq<char>, FileValueView)>) -> bool {
    forall|i: int, j: int| 0 <= i < j < es.len() ==> key_place((#[trigger] es[i]).0) < key_place((#[trigger] es[j]).0)
}

/// Each of the six keys sits at its own place.
proof fn lemma_key_places()
    ensures
        key_place("status"@) == 0,
        key_place("created"@) == 1,
        key_place("parent"@) == 2,
        key_place("rank"@) == 3,
        key_place("dependencies"@) == 4,
        key_place("tags"@) == 5,
{
    reveal_strlit("status");
    reveal_strlit("created");
    reveal_strlit("parent");
    reveal_strlit("rank");
    reveal_strlit("dependencies");
    reveal_strlit("tags");
    assert("status"@.len() == 6 && "status"@[0] == 's');
    assert("created"@.len() == 7);
    assert("parent"@.len() == 6 && "parent"@[0] == 'p');
    assert("rank"@.len() == 4 && "rank"@[0] == 'r');
    assert("dependencies"@.len() == 12);
    assert("tags"@.len() == 4 && "tags"@[0] == 't');
}

/// Appending the entry of the key at place `m` behind entries of earlier places keeps the file
/// order and holds the entry where there is a value.
proof fn lemma_append_entry(e: Seq<(Seq<char>, FileValueView)>, key: Seq<char>, v: Option<FileValueView>, m: int)
    requires
        key_place(key) == m,
        keys_in_file_order(e),
        forall|i: int| 0 <= i < e.len() ==> key_place((#[trigger] e[i]).0) < m,
    ensures
        keys_in_file_order(e + entry_if(key, v)),
        forall|i: int| 0 <= i < (e + entry_if(key, v)).len() ==> key_place((#[trigger] (e + entry_if(key, v))[i]).0) <= m,
        forall|x: FileValueView| v == Some(x) ==> (e + entry_if(key, v)).contains((key, x)),
        v is None ==> e + entry_if(key, v) == e,
        forall|i: int| 0 <= i < e.len() ==> (e + entry_if(key, v))[i] == e[i],
{
    let n = e + entry_if(key, v);
    match v {
        Some(x) => {
            assert(n[e.len() + 0int] == (key, x));
        },
        None => {
            assert(n =~= e);
        },
    }
}

/// A task file's frontmatter reads back to its metadata: it exists exactly where status and
/// created parse; it holds status and created, the parent where one is set, the rank where one is
/// set, the dependencies and the tags where there are any, each under its key and spelled for the
/// file; a key whose field is unset, empty or did not parse is absent; and the keys come in file
/// order, none twice.
#[verifier::rlimit(60)]
pub proof fn lemma_frontmatter_reads_back(f: FieldsView)
    ensures
        frontmatter_of(f) is Some <==> (view_value(f.status) is Some && view_value(f.created) is Some),
        frontmatter_of(f) matches Some(es) ==> {
            &&& keys_in_file_order(es)
            &&& forall|i: int| 0 <= i < es.len() ==> key_place((#[trigger] es[i]).0) < 6
            &&& es.contains(("status"@, FileValueView::Text(status_name(view_value(f.status)->0))))
            &&& es.contains(("created"@, FileValueView::Instant(view_value(f.created)->0)))
            &&& (forall|p: Seq<char>| view_value(f.parent) == Some(Some(p)) ==> es.contains(("parent"@, FileValueView::Ref(file_ref(p)))))
            &&& (!(view_value(f.parent) matches Some(Some(_))) ==> forall|i: int| 0 <= i < es.len() ==> key_place((#[trigger] es[i]).0) != 2)
            &&& (forall|r: Seq<char>| view_value(f.rank) == Some(Some(r)) ==> es.contains(("rank"@, FileValueView::Text(r))))
            &&& (!(view_value(f.rank) matches Some(Some(_))) ==> forall|i: int| 0 <= i < es.len() ==> key_place((#[trigger] es[i]).0) != 3)
            &&& (forall|d: Seq<Seq<char>>| view_value(f.dependencies) == Some(d) && d.len() > 0 ==> es.contains(("dependencies"@, FileValueView::Refs(file_refs(d)))))
            &&& (!(view_value(f.dependencies) matches Some(d) && d.len() > 0) ==> forall|i: int| 0 <= i < es.len() ==> key_place((#[trigger] es[i]).0) != 4)
            &&& (forall|t: Seq<Seq<char>>| view_value(f.tags) == Some(t) && t.len() > 0 ==> es.contains(("tags"@, FileValueView::Texts(t))))
            &&& (!(view_value(f.tags) matches Some(t) && t.len() > 0) ==> forall|i: int| 0 <= i < es.len() ==> key_place((#[trigger] es[i]).0) != 5)
        },
{
    lemma_key_places();
    match (view_value(f.status), view_value(f.created)) {
        (Some(status), Some(created)) => {
            let e0 = seq![("status"@, FileValueView::Text(status_name(status))), ("created"@, FileValueView::Instant(created))];
            assert(keys_in_file_order(e0));
            assert(e0.contains(("status"@, FileValueView::Text(status_name(status))))) by {
                assert(e0[0] == ("status"@, FileValueView::Text(status_name(status))));
            }
            assert(e0.contains(("created"@, FileValueView::Instant(created)))) by {
                assert(e0[1] == ("created"@, FileValueView::Instant(created)));
            }
            let pv = parent_value(read_or_none(f.parent));
            let rv = rank_value(read_or_none(f.rank));
            let dv = dependencies_value(list_or_empty(f.dependencies));
            let tv = tags_value(list_or_empty(f.tags));
            lemma_append_entry(e0, "parent"@, pv, 2);
            let e1 = e0 + entry_if("parent"@, pv);
            lemma_append_entry(e1, "rank"@, rv, 3);
            let e2 = e1 + entry_if("rank"@, rv);
            lemma_append_entry(e2, "dependencies"@, dv, 4);
            let e3 = e2 + entry_if("dependencies"@, dv);
            lemma_append_entry(e3, "tags"@, tv, 5);
            let e4 = e3 + entry_if("tags"@, tv);
            assert(frontmatter_of(f) == Some(e4));
            // What an earlier stage holds, the later ones hold at the same index.
            assert forall|x: (Seq<char>, FileValueView)| e0.contains(x) implies e4.contains(x) by {
                let i = choose|i: int| 0 <= i < e0.len() && e0[i] == x;
                assert(e1[i] == x);
                assert(e2[i] == x);
                assert(e3[i] == x);
                assert(e4[i] == x);
            }
            assert forall|x: (Seq<char>, FileValueView)| e1.contains(x) implies e4.contains(x) by {
                let i = choose|i: int| 0 <= i < e1.len() && e1[i] == x;
                assert(e2[i] == x);
                assert(e3[i] == x);
                assert(e4[i] == x);
            }
            assert forall|x: (Seq<char>, FileValueView)| e2.contains(x) implies e4.contains(x) by {
                let i = choose|i: int| 0 <= i < e2.len() && e2[i] == x;
                assert(e3[i] == x);
                assert(e4[i] == x);
            }
            assert forall|x: (Seq<char>, FileValueView)| e3.contains(x) implies e4.contains(x) by {
                let i = choose|i: int| 0 <= i < e3.len() && e3[i] == x;
                assert(e4[i] == x);
            }
            assert forall|p: Seq<char>| view_value(f.parent) == Some(Some(p)) implies e4.contains(("parent"@, FileValueView::Ref(file_ref(p)))) by {
                assert(pv == Some(FileValueView::Ref(file_ref(p))));
            }
            assert forall|r: Seq<char>| view_value(f.rank) == Some(Some(r)) implies e4.contains(("rank"@, FileValueView::Text(r))) by {
                assert(rv == Some(FileValueView::Text(r)));
            }
            assert forall|d: Seq<Seq<char>>| view_value(f.dependencies) == Some(d) && d.len() > 0 implies e4.contains(("dependencies"@, FileValueView::Refs(file_refs(d)))) by {
                assert(dv == Some(FileValueView::Refs(file_refs(d))));
            }
            assert forall|t: Seq<Seq<char>>| view_value(f.tags) == Some(t) && t.len() > 0 implies e4.contains(("tags"@, FileValueView::Texts(t))) by {
                assert(tv == Some(FileValueView::Texts(t)));
            }
            // A stage that adds nothing leaves its place empty: earlier entries sit before it,
            // later ones after.
            assert forall|i: int| 0 <= i < e4.len() implies {
                &&& (pv is None ==> key_place((#[trigger] e4[i]).0) != 2)
                &&& (rv is None ==> key_place(e4[i].0) != 3)
                &&& (dv is None ==> key_place(e4[i].0) != 4)
                &&& (tv is None ==> key_place(e4[i].0) != 5)
            } by {
                if i < e0.len() {
                    assert(e4[i] == e0[i]);
                } else if i < e1.len() {
                    assert(e4[i] == e1[i]);
                    assert(e1[i] == ("parent"@, pv->0));
                } else if i < e2.len() {
                    assert(e4[i] == e2[i]);
                    assert(e2[i] == ("rank"@, rv->0));
                } else if i < e3.len() {
                    assert(e4[i] == e3[i]);
                    assert(e3[i] == ("dependencies"@, dv->0));
                } else {
                    assert(e4[i] == ("tags"@, tv->0));
                }
            }
            if !(view_value(f.parent) matches Some(Some(_))) {
                assert(pv is None);
            }
            if !(view_value(f.rank) matches Some(Some(_))) {
                assert(rv is None);
            }
            if !(view_value(f.dependencies) matches Some(d) && d.len() > 0) {
                assert(dv is None);
            }
            if !(view_value(f.tags) matches Some(t) && t.len() > 0) {
                assert(tv is None);
            }
        },
        _ => {},
    }
}

/// The fields of the notes come in the order a task file writes its keys, each at most once.
pub open spec fn notes_in_file_order(ns: Seq<NoteView>) -> bool {
    forall|i: int, j: int| 0 <= i < j < ns.len() ==> key_place((#[trigger] ns[i]).field) < key_place((#[trigger] ns[j]).field)
}

/// Appending the note of the field at place `m` behind notes of earlier places keeps the file
/// order and holds the note where the field is in conflict.
proof fn lemma_append_note(ns: Seq<NoteView>, name: Seq<char>, sides: Option<(Seq<char>, Seq<char>)>, other: Option<FileValueView>, m: int)
    requires
        key_place(name) == m,
        notes_in_file_order(ns),
        forall|i: int| 0 <= i < ns.len() ==> key_place((#[trigger] ns[i]).field) < m,
    ensures
        notes_in_file_order(ns + note_with(name, sides, other)),
        forall|i: int| 0 <= i < (ns + note_with(name, sides, other)).len() ==> key_place((#[trigger] (ns + note_with(name, sides, other))[i]).field) <= m,
        forall|ol: Seq<char>, l: Seq<char>| sides == Some((ol, l)) ==> (ns + note_with(name, sides, other)).contains(NoteView { field: name, other, other_label: ol, label: l }),
        sides is None ==> ns + note_with(name, sides, other) == ns,
        forall|i: int| 0 <= i < ns.len() ==> (ns + note_with(name, sides, other))[i] == ns[i],
{
    let n = ns + note_with(name, sides, other);
    match sides {
        Some((ol, l)) => {
            assert(n[ns.len() + 0int] == NoteView { field: name, other, other_label: ol, label: l });
        },
        None => {
            assert(n =~= ns);
        },
    }
}

/// The conflict notes of a task file name each field that sync left in conflict, under its key,
/// with both sides' labels and the other side's value spelled for the file, and no other field;
/// they come in file order, none twice.
#[verifier::rlimit(60)]
pub proof fn lemma_notes_name_each_conflict(f: FieldsView)
    ensures
        notes_in_file_order(notes_of(f)),
        forall|i: int| 0 <= i < notes_of(f).len() ==> key_place((#[trigger] notes_of(f)[i]).field) < 6,
        forall|v: Status, ol: Seq<char>, l: Seq<char>| note_sides(f.status) == Some((v, ol, l)) ==> notes_of(f).contains(
            NoteView { field: "status"@, other: Some(FileValueView::Text(status_name(v))), other_label: ol, label: l },
        ),
        forall|v: Rfc3339, ol: Seq<char>, l: Seq<char>| note_sides(f.created) == Some((v, ol, l)) ==> notes_of(f).contains(
            NoteView { field: "created"@, other: Some(FileValueView::Instant(v)), other_label: ol, label: l },
        ),
        forall|v: Option<Seq<char>>, ol: Seq<char>, l: Seq<char>| note_sides(f.parent) == Some((v, ol, l)) ==> notes_of(f).contains(
            NoteView {
                field: "parent"@,
                other: match v {
                    Some(p) => Some(FileValueView::Ref(file_ref(p))),
                    None => None,
                },
                other_label: ol,
                label: l,
            },
        ),
        forall|v: Option<Seq<char>>, ol: Seq<char>, l: Seq<char>| note_sides(f.rank) == Some((v, ol, l)) ==> notes_of(f).contains(
            NoteView {
                field: "rank"@,
                other: match v {
                    Some(r) => Some(FileValueView::Text(r)),
                    None => None,
                },
                other_label: ol,
                label: l,
            },
        ),
        forall|v: Seq<Seq<char>>, ol: Seq<char>, l: Seq<char>| note_sides(f.dependencies) == Some((v, ol, l)) ==> notes_of(f).contains(
            NoteView {
                field: "dependencies"@,
                other: if v.len() > 0 { Some(FileValueView::Refs(file_refs(v))) } else { None },
                other_label: ol,
                label: l,
            },
        ),
        forall|v: Seq<Seq<char>>, ol: Seq<char>, l: Seq<char>| note_sides(f.tags) == Some((v, ol, l)) ==> notes_of(f).contains(
            NoteView {
                field: "tags"@,
                other: if v.len() > 0 { Some(FileValueView::Texts(v)) } else { None },
                other_label: ol,
                label: l,
            },
        ),
        note_sides(f.status) is None ==> forall|i: int| 0 <= i < notes_of(f).len() ==> key_place((#[trigger] notes_of(f)[i]).field) != 0,
        note_sides(f.created) is None ==> forall|i: int| 0 <= i < notes_of(f).len() ==> key_place((#[trigger] notes_of(f)[i]).field) != 1,
        note_sides(f.parent) is None ==> forall|i: int| 0 <= i < notes_of(f).len() ==> key_place((#[trigger] notes_of(f)[i]).field) != 2,
        note_sides(f.rank) is None ==> forall|i: int| 0 <= i < notes_of(f).len() ==> key_place((#[trigger] notes_of(f)[i]).field) != 3,
        note_sides(f.dependencies) is None ==> forall|i: int| 0 <= i < notes_of(f).len() ==> key_place((#[trigger] notes_of(f)[i]).field) != 4,
        note_sides(f.tags) is None ==> forall|i: int| 0 <= i < notes_of(f).len() ==> key_place((#[trigger] notes_of(f)[i]).field) != 5,
{
    lemma_key_places();
    let s0 = labels(f.status);
    let o0 = other_spelled(f.status, |s: Status| Some(FileValueView::Text(status_name(s))));
    let s1 = labels(f.created);
    let o1 = other_spelled(f.created, |c: Rfc3339| Some(FileValueView::Instant(c)));
    let s2 = labels(f.parent);
    let o2 = other_spelled(f.parent, |p: Option<Seq<char>>| parent_value(p));
    let s3 = labels(f.rank);
    let o3 = other_spelled(f.rank, |r: Option<Seq<char>>| rank_value(r));
    let s4 = labels(f.dependencies);
    let o4 = other_spelled(f.dependencies, |d: Seq<Seq<char>>| dependencies_value(d));
    let s5 = labels(f.tags);
    let o5 = other_spelled(f.tags, |t: Seq<Seq<char>>| tags_value(t));
    let n0 = Seq::<NoteView>::empty();
    lemma_append_note(n0, "status"@, s0, o0, 0);
    let n1 = n0 + note_with("status"@, s0, o0);
    lemma_append_note(n1, "created"@, s1, o1, 1);
    let n2 = n1 + note_with("created"@, s1, o1);
    lemma_append_note(n2, "parent"@, s2, o2, 2);
    let n3 = n2 + note_with("parent"@, s2, o2);
    lemma_append_note(n3, "rank"@, s3, o3, 3);
    let n4 = n3 + note_with("rank"@, s3, o3);
    lemma_append_note(n4, "dependencies"@, s4, o4, 4);
    let n5 = n4 + note_with("dependencies"@, s4, o4);
    lemma_append_note(n5, "tags"@, s5, o5, 5);
    let n6 = n5 + note_with("tags"@, s5, o5);
    assert(n1 =~= note_with("status"@, s0, o0));
    assert(notes_of(f) == n6);
    assert forall|x: NoteView| n1.contains(x) implies n6.contains(x) by {
        let i = choose|i: int| 0 <= i < n1.len() && n1[i] == x;
        assert(n2[i] == x && n3[i] == x && n4[i] == x && n5[i] == x && n6[i] == x);
    }
    assert forall|x: NoteView| n2.contains(x) implies n6.contains(x) by {
        let i = choose|i: int| 0 <= i < n2.len() && n2[i] == x;
        assert(n3[i] == x && n4[i] == x && n5[i] == x && n6[i] == x);
    }
    assert forall|x: NoteView| n3.contains(x) implies n6.contains(x) by {
        let i = choose|i: int| 0 <= i < n3.len() && n3[i] == x;
        assert(n4[i] == x && n5[i] == x && n6[i] == x);
    }
    assert forall|x: NoteView| n4.contains(x) implies n6.contains(x) by {
        let i = choose|i: int| 0 <= i < n4.len() && n4[i] == x;
        assert(n5[i] == x && n6[i] == x);
    }
    assert forall|x: NoteView| n5.contains(x) implies n6.contains(x) by {
        let i = choose|i: int| 0 <= i < n5.len() && n5[i] == x;
        assert(n6[i] == x);
    }
    assert forall|i: int| 0 <= i < n6.len() implies {
        &&& (s0 is None ==> key_place((#[trigger] n6[i]).field) != 0)
        &&& (s1 is None ==> key_place(n6[i].field) != 1)
        &&& (s2 is None ==> key_place(n6[i].field) != 2)
        &&& (s3 is None ==> key_place(n6[i].field) != 3)
        &&& (s4 is None ==> key_place(n6[i].field) != 4)
        &&& (s5 is None ==> key_place(n6[i].field) != 5)
    } by {
        if i < n1.len() {
            assert(n6[i] == n1[i]);
            assert(n1[i].field == "status"@);
        } else if i < n2.len() {
            assert(n6[i] == n2[i]);
            assert(n2[i].field == "created"@);
        } else if i < n3.len() {
            assert(n6[i] == n3[i]);
            assert(n3[i].field == "parent"@);
        } else if i < n4.len() {
            assert(n6[i] == n4[i]);
            assert(n4[i].field == "rank"@);
        } else if i < n5.len() {
            assert(n6[i] == n5[i]);
            assert(n5[i].field == "dependencies"@);
        } else {
            assert(n6[i].field == "tags"@);
        }
    }
}

} // verus!
