//! One frontmatter field on the read path: its parsed value, a per-field error, or a conflict that
//! a sync left for a person to settle.
use vstd::prelude::*;

use crate::status::{Status, Timestamp};

verus! {

/// An instant on the wire, which travels as RFC3339 text.
#[derive(Debug, Clone, Copy, PartialEq, Eq)]
pub struct Rfc3339(pub Timestamp);

impl DeepView for Rfc3339 {
    type V = Rfc3339;

    open spec fn deep_view(&self) -> Rfc3339 {
        *self
    }
}

/// Why a field has no value.
#[derive(Debug, PartialEq, Eq)]
pub enum FieldError {
    Missing,
    Invalid { message: String },
}

/// The field error as plain values.
pub enum FieldErrorView {
    Missing,
    Invalid(Seq<char>),
}

impl View for FieldError {
    type V = FieldErrorView;

    open spec fn view(&self) -> FieldErrorView {
        match self {
            FieldError::Missing => FieldErrorView::Missing,
            FieldError::Invalid { message } => FieldErrorView::Invalid(message@),
        }
    }
}

impl Clone for FieldError {
    fn clone(&self) -> (copy: Self)
        ensures
            copy@ == self@,
    {
        match self {
            FieldError::Missing => FieldError::Missing,
            FieldError::Invalid { message } => FieldError::Invalid { message: message.clone() },
        }
    }
}

/// Marks a conflict on the wire.
#[derive(Debug, Clone, Copy, PartialEq, Eq)]
pub enum ConflictTag {
    Conflict,
}

/// One version of a conflicting field, and the side that wrote it.
#[derive(Debug, PartialEq, Eq)]
pub struct ConflictSide<T> {
    pub label: String,
    pub value: T,
}

/// Two sides of a sync changed the field differently. `value` is the published version, in force
/// until someone sets the field; `sides` holds both versions, the published one last.
#[derive(Debug, PartialEq, Eq)]
pub struct FieldConflict<T> {
    pub kind: ConflictTag,
    pub value: T,
    pub sides: Vec<ConflictSide<T>>,
}

/// A frontmatter field on the read path.
#[derive(Debug, PartialEq, Eq)]
pub enum Field<T> {
    Value(T),
    Error(FieldError),
    Conflict(Box<FieldConflict<T>>),
}

/// A field as plain values: a conflict keeps its published value and each side's label and value.
pub enum FieldView<V> {
    Value(V),
    Error(FieldErrorView),
    Conflict(V, Seq<(Seq<char>, V)>),
}

impl<T: DeepView> View for Field<T> {
    type V = FieldView<T::V>;

    open spec fn view(&self) -> FieldView<T::V> {
        match self {
            Field::Value(value) => FieldView::Value(value.deep_view()),
            Field::Error(err) => FieldView::Error(err@),
            Field::Conflict(conflict) => FieldView::Conflict(
                conflict.value.deep_view(),
                Seq::new(
                    conflict.sides@.len(),
                    |i: int| (conflict.sides@[i].label@, conflict.sides@[i].value.deep_view()),
                ),
            ),
        }
    }
}

/// The value a field reads as: its own, or the published one of a conflict.
pub open spec fn value_of<T>(field: &Field<T>) -> Option<T> {
    match field {
        Field::Value(value) => Some(*value),
        Field::Conflict(conflict) => Some(conflict.value),
        Field::Error(_) => None,
    }
}

/// An optional value as plain values.
pub open spec fn read_view<T: DeepView>(value: Option<T>) -> Option<T::V> {
    match value {
        Some(v) => Some(v.deep_view()),
        None => None,
    }
}

/// A field and a copy of it read as the same value: what `as_value` lends of the one is, as plain
/// values, what `value` hands out of the other, and both read nothing where the field failed.
pub proof fn lemma_copy_reads_the_same<T: DeepView>(field: Field<T>, copy: Field<T>)
    requires
        copy@ == field@,
    ensures
        read_view(value_of(&copy)) == read_view(value_of(&field)),
        value_of(&copy) is None <==> value_of(&field) is None,
{
    match field {
        Field::Value(v) => {
            assert(copy@ == FieldView::<T::V>::Value(v.deep_view()));
        },
        Field::Error(e) => {
            assert(copy@ == FieldView::<T::V>::Error(e@));
        },
        Field::Conflict(c) => {
            assert(copy@ matches FieldView::Conflict(x, _) && x == c.value.deep_view());
        },
    }
}

/// What `f` may answer for each value of a field, read field by field.
pub open spec fn mapped<T, U, F: Fn(T) -> U>(field: Field<T>, f: F, out: Field<U>) -> bool {
    match field {
        Field::Value(value) => out matches Field::Value(u) && call_ensures(f, (value,), u),
        Field::Error(err) => out matches Field::Error(e) && e@ == err@,
        Field::Conflict(conflict) => out matches Field::Conflict(d) && {
            &&& d.kind == conflict.kind
            &&& call_ensures(f, (conflict.value,), d.value)
            &&& d.sides@.len() == conflict.sides@.len()
            &&& forall|i: int|
                0 <= i < d.sides@.len() ==> {
                    &&& (#[trigger] d.sides@[i]).label@ == conflict.sides@[i].label@
                    &&& call_ensures(f, (conflict.sides@[i].value,), d.sides@[i].value)
                }
        },
    }
}

impl<T> Field<T> {
    /// The value the field reads as. A conflict reads as its published value, so the board, the
    /// tree, and the sort treat the task as the team last saw it.
    pub fn value(self) -> (value: Option<T>)
        ensures
            value == value_of(&self),
    {
        match self {
            Field::Value(value) => Some(value),
            Field::Conflict(conflict) => Some(conflict.value),
            Field::Error(_) => None,
        }
    }

    /// Applies `f` to every value the field holds: its own, or every side of a conflict.
    pub fn map<U, F: Fn(T) -> U>(self, f: F) -> (out: Field<U>)
        requires
            forall|t: T| call_requires(f, (t,)),
        ensures
            mapped(self, f, out),
    {
        match self {
            Field::Value(value) => Field::Value(f(value)),
            Field::Error(err) => Field::Error(err),
            Field::Conflict(conflict) => {
                let FieldConflict { kind, value, sides } = *conflict;
                let ghost before = sides@;
                let mut rest = sides;
                let mut mapped_sides: Vec<ConflictSide<U>> = Vec::new();
                while rest.len() > 0
                    invariant
                        forall|t: T| call_requires(f, (t,)),
                        mapped_sides@.len() + rest@.len() == before.len(),
                        rest@ == before.skip(mapped_sides@.len() as int),
                        forall|i: int|
                            0 <= i < mapped_sides@.len() ==> {
                                &&& (#[trigger] mapped_sides@[i]).label@ == before[i].label@
                                &&& call_ensures(f, (before[i].value,), mapped_sides@[i].value)
                            },
                    decreases rest@.len(),
                {
                    let side = rest.remove(0);
                    let ghost at = mapped_sides@.len();
                    assert(side == before[at as int]);
                    let value = f(side.value);
                    mapped_sides.push(ConflictSide { label: side.label, value });
                    assert(rest@ =~= before.skip(mapped_sides@.len() as int));
                }
                let published = f(value);
                Field::Conflict(Box::new(FieldConflict { kind, value: published, sides: mapped_sides }))
            },
        }
    }

    /// The error, where the field failed.
    pub fn as_error(&self) -> (err: Option<&FieldError>)
        ensures
            err == match self {
                Field::Error(e) => Some(e),
                _ => None::<&FieldError>,
            },
    {
        match self {
            Field::Error(err) => Some(err),
            Field::Value(_) | Field::Conflict(_) => None,
        }
    }

    /// The value the field reads as, by reference.
    pub fn as_value(&self) -> (value: Option<&T>)
        ensures
            value matches Some(v) ==> value_of(self) == Some(*v),
            value is None ==> value_of(self) is None,
    {
        match self {
            Field::Value(value) => Some(value),
            Field::Conflict(conflict) => Some(&conflict.value),
            Field::Error(_) => None,
        }
    }

    /// A sync left this field in conflict.
    pub fn is_conflict(&self) -> (conflicted: bool)
        ensures
            conflicted == (self is Conflict),
    {
        match self {
            Field::Conflict(_) => true,
            _ => false,
        }
    }
}

/// Copies a field value by value, given a way to copy what it holds.
pub fn copy_field<T: DeepView, F: Fn(&T) -> T>(field: &Field<T>, copy: F) -> (out: Field<T>)
    requires
        forall|x: &T| call_requires(copy, (x,)),
        forall|x: &T, r: T| call_ensures(copy, (x,), r) ==> r.deep_view() == x.deep_view(),
    ensures
        out@ == field@,
{
    match field {
        Field::Value(value) => Field::Value(copy(value)),
        Field::Error(err) => Field::Error(err.clone()),
        Field::Conflict(conflict) => {
            let mut sides: Vec<ConflictSide<T>> = Vec::new();
            let mut i: usize = 0;
            while i < conflict.sides.len()
                invariant
                    forall|x: &T| call_requires(copy, (x,)),
                    forall|x: &T, r: T|
                        call_ensures(copy, (x,), r) ==> r.deep_view() == x.deep_view(),
                    i <= conflict.sides@.len(),
                    sides@.len() == i,
                    forall|j: int|
                        0 <= j < i ==> {
                            &&& (#[trigger] sides@[j]).label@ == conflict.sides@[j].label@
                            &&& sides@[j].value.deep_view() == conflict.sides@[j].value.deep_view()
                        },
                decreases conflict.sides@.len() - i,
            {
                let side = &conflict.sides[i];
                sides.push(ConflictSide { label: side.label.clone(), value: copy(&side.value) });
                i = i + 1;
            }
            let value = copy(&conflict.value);
            proof {
                let ours = Seq::new(
                    sides@.len(),
                    |j: int| (sides@[j].label@, sides@[j].value.deep_view()),
                );
                let theirs = Seq::new(
                    conflict.sides@.len(),
                    |j: int| (conflict.sides@[j].label@, conflict.sides@[j].value.deep_view()),
                );
                assert(ours =~= theirs);
            }
            let out = Field::Conflict(Box::new(FieldConflict { kind: conflict.kind, value, sides }));
            out
        },
    }
}

/// What a field reads as once a sync conflict on it is known: two parsed versions that differ make
/// a conflict whose sides hold the other version under `other_label`, then the published one under
/// `label`; otherwise the published field stands.
pub open spec fn conflict_of<V>(published: FieldView<V>, other: FieldView<V>, label: Seq<char>, other_label: Seq<char>) -> FieldView<V> {
    match published {
        FieldView::Value(v) => match other {
            FieldView::Value(o) => if v != o {
                FieldView::Conflict(v, seq![(other_label, o), (label, v)])
            } else {
                published
            },
            _ => published,
        },
        _ => published,
    }
}

impl<T: DeepView> Field<T> {
    /// The published version and the other one a sync conflict keeps, the conflict's two labels
    /// given as text. An other version that does not parse leaves the published one alone; the
    /// task still counts the conflict. `same` tells two values apart and `copy` copies one.
    pub fn in_conflict<E: Fn(&T, &T) -> bool, C: Fn(&T) -> T>(
        self,
        other: Field<T>,
        label: String,
        other_label: String,
        same: E,
        copy: C,
    ) -> (out: Field<T>)
        requires
            forall|a: &T, b: &T| call_requires(same, (a, b)),
            forall|a: &T, b: &T, r: bool| call_ensures(same, (a, b), r) ==> (r <==> a.deep_view() == b.deep_view()),
            forall|x: &T| call_requires(copy, (x,)),
            forall|x: &T, r: T| call_ensures(copy, (x,), r) ==> r.deep_view() == x.deep_view(),
        ensures
            out@ == conflict_of(self@, other@, label@, other_label@),
            out matches Field::Conflict(c) ==> c.kind == ConflictTag::Conflict,
    {
        match self {
            Field::Value(value) => match other {
                Field::Value(theirs) => {
                    if same(&value, &theirs) {
                        Field::Value(value)
                    } else {
                        let kept = copy(&value);
                        let mut sides: Vec<ConflictSide<T>> = Vec::new();
                        sides.push(ConflictSide { label: other_label, value: theirs });
                        sides.push(ConflictSide { label, value: kept });
                        let out = Field::Conflict(Box::new(FieldConflict { kind: ConflictTag::Conflict, value, sides }));
                        proof {
                            assert(Seq::new(
                                sides@.len(),
                                |i: int| (sides@[i].label@, sides@[i].value.deep_view()),
                            ) =~= seq![(other_label@, theirs.deep_view()), (label@, value.deep_view())]);
                        }
                        out
                    }
                },
                _ => Field::Value(value),
            },
            published => published,
        }
    }
}

/// Copies a list of strings.
pub fn copy_strings(strings: &Vec<String>) -> (out: Vec<String>)
    ensures
        out.deep_view() == strings.deep_view(),
{
    let mut out: Vec<String> = Vec::new();
    let mut i: usize = 0;
    while i < strings.len()
        invariant
            i <= strings@.len(),
            out@.len() == i,
            forall|j: int| 0 <= j < i ==> (#[trigger] out@[j])@ == strings@[j]@,
        decreases strings@.len() - i,
    {
        out.push(strings[i].clone());
        i = i + 1;
    }
    assert(out.deep_view() =~= strings.deep_view());
    out
}

/// Copies an optional string.
pub fn copy_text(text: &Option<String>) -> (out: Option<String>)
    ensures
        out.deep_view() == text.deep_view(),
{
    match text {
        Some(text) => Some(text.clone()),
        None => None,
    }
}

fn copy_status(x: &Status) -> (r: Status)
    ensures
        r == *x,
{
    *x
}

fn copy_instant(x: &Rfc3339) -> (r: Rfc3339)
    ensures
        r == *x,
{
    *x
}

impl Clone for Field<Status> {
    fn clone(&self) -> (copy: Self)
        ensures
            copy@ == self@,
    {
        copy_field(self, copy_status)
    }
}

impl Clone for Field<Rfc3339> {
    fn clone(&self) -> (copy: Self)
        ensures
            copy@ == self@,
    {
        copy_field(self, copy_instant)
    }
}

impl Clone for Field<Option<String>> {
    fn clone(&self) -> (copy: Self)
        ensures
            copy@ == self@,
    {
        copy_field(self, copy_text)
    }
}

impl Clone for Field<Vec<String>> {
    fn clone(&self) -> (copy: Self)
        ensures
            copy@ == self@,
    {
        copy_field(self, copy_strings)
    }
}

/// A three-state PATCH field: an absent key leaves the value untouched, a null clears it, and a
/// value sets it.
#[derive(Debug, Clone, PartialEq, Eq)]
pub enum FieldUpdate<T> {
    Keep,
    Clear,
    SetTo(T),
}

impl<T> FieldUpdate<T> {
    /// The update leaves the value untouched.
    pub fn is_keep(&self) -> (keep: bool)
        ensures
            keep == (self is Keep),
    {
        match self {
            FieldUpdate::Keep => true,
            _ => false,
        }
    }
}

impl<T> Default for FieldUpdate<T> {
    fn default() -> (update: Self)
        ensures
            update is Keep,
    {
        FieldUpdate::Keep
    }
}

/// Why a field read from a task file has no value: the file layer's answer for one field.
#[derive(Debug, PartialEq, Eq)]
pub enum ReadError {
    Missing,
    Invalid(String),
}

/// A field as the file layer reads it.
pub type FieldResult<T> = Result<T, ReadError>;

impl<T> Field<T> {
    /// The field a read of the file layer gives.
    pub fn from_result(result: FieldResult<T>) -> (field: Field<T>)
        ensures
            match result {
                Ok(v) => field == Field::Value(v),
                Err(ReadError::Missing) => field matches Field::Error(FieldError::Missing),
                Err(ReadError::Invalid(message)) => field matches Field::Error(
                    FieldError::Invalid { message: m },
                ) && m == message,
            },
    {
        match result {
            Ok(value) => Field::Value(value),
            Err(ReadError::Missing) => Field::Error(FieldError::Missing),
            Err(ReadError::Invalid(message)) => Field::Error(FieldError::Invalid { message }),
        }
    }

    /// The field as the file layer reads it: a conflict reads as its published value.
    pub fn into_result(self) -> (result: FieldResult<T>)
        ensures
            match self {
                Field::Value(v) => result matches Ok(x) && x == v,
                Field::Conflict(c) => result matches Ok(x) && x == c.value,
                Field::Error(FieldError::Missing) => result matches Err(ReadError::Missing),
                Field::Error(FieldError::Invalid { message }) => result matches Err(
                    ReadError::Invalid(m),
                ) && m == message,
            },
    {
        match self {
            Field::Value(value) => Ok(value),
            Field::Conflict(conflict) => Ok(conflict.value),
            Field::Error(FieldError::Missing) => Err(ReadError::Missing),
            Field::Error(FieldError::Invalid { message }) => Err(ReadError::Invalid(message)),
        }
    }
}

} // verus!
