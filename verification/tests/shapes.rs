use openplan::field::{ConflictSide, ConflictTag, Field, FieldConflict, FieldError, FieldUpdate, ReadError};
use openplan::project::{BackendKind, ProjectStatus};
use openplan::status::{Status, Timestamp};

#[test]
fn a_project_that_cannot_be_served_says_why() {
    assert_eq!(ProjectStatus::Serving.reason(), None);
    assert_eq!(ProjectStatus::Error { reason: "no repository".to_owned() }.reason(), Some("no repository"));
    assert_eq!(BackendKind::Git.as_str(), "git");
    assert_eq!(BackendKind::Local.as_str(), "local");
}

#[test]
fn a_status_spells_its_name_and_knows_when_it_is_finished() {
    assert_eq!(Status::InProgress.as_str(), "in_progress");
    assert_eq!(Status::Backlog.as_str(), "backlog");
    assert!(Status::Done.is_finished());
    assert!(Status::Cancelled.is_finished());
    assert!(!Status::InReview.is_finished());
}

#[test]
fn the_later_instant_wins() {
    let early = Timestamp::from_second(10);
    let late = Timestamp::from_second(20);
    assert_eq!(early.later(late), late);
    assert_eq!(late.later(early), late);
    assert_eq!(late.as_second(), 20);
}

fn conflicted() -> Field<Status> {
    Field::Conflict(Box::new(FieldConflict {
        kind: ConflictTag::Conflict,
        value: Status::Todo,
        sides: vec![
            ConflictSide { label: "Ben".to_owned(), value: Status::Done },
            ConflictSide { label: "Ann".to_owned(), value: Status::Todo },
        ],
    }))
}

#[test]
fn a_conflict_reads_as_its_published_value() {
    assert_eq!(conflicted().value(), Some(Status::Todo));
    assert!(conflicted().is_conflict());
    assert_eq!(conflicted().into_result(), Ok(Status::Todo));
    assert_eq!(Field::<Status>::Error(FieldError::Missing).value(), None);
    assert!(!Field::Value(Status::Todo).is_conflict());
}

#[test]
fn a_map_reaches_every_side_of_a_conflict() {
    let names = conflicted().map(|s: Status| s.is_finished());
    assert_eq!(
        names,
        Field::Conflict(Box::new(FieldConflict {
            kind: ConflictTag::Conflict,
            value: false,
            sides: vec![
                ConflictSide { label: "Ben".to_owned(), value: true },
                ConflictSide { label: "Ann".to_owned(), value: false },
            ],
        }))
    );
}

#[test]
fn a_field_and_a_read_carry_the_same_error() {
    assert_eq!(Field::<Status>::from_result(Err(ReadError::Missing)), Field::Error(FieldError::Missing));
    assert_eq!(
        Field::<Status>::from_result(Err(ReadError::Invalid("bad".to_owned()))),
        Field::Error(FieldError::Invalid { message: "bad".to_owned() })
    );
    assert_eq!(Field::from_result(Ok(Status::Todo)), Field::Value(Status::Todo));
    assert_eq!(
        Field::<Status>::Error(FieldError::Invalid { message: "bad".to_owned() }).into_result(),
        Err(ReadError::Invalid("bad".to_owned()))
    );
}

#[test]
fn an_absent_update_keeps_the_value() {
    assert!(FieldUpdate::<String>::Keep.is_keep());
    assert!(!FieldUpdate::<String>::Clear.is_keep());
    assert!(!FieldUpdate::SetTo("epic-1".to_owned()).is_keep());
}

fn same_text(a: &String, b: &String) -> bool {
    a == b
}

fn copy_text(x: &String) -> String {
    x.clone()
}

#[test]
fn two_differing_versions_make_a_conflict_with_the_published_one_last() {
    let published: Field<String> = Field::Value("2024-01-01".to_owned());
    let other: Field<String> = Field::Value("2024-02-02".to_owned());
    let out = published.in_conflict(other, "main".to_owned(), "laptop".to_owned(), same_text, copy_text);
    assert_eq!(
        out,
        Field::Conflict(Box::new(FieldConflict {
            kind: ConflictTag::Conflict,
            value: "2024-01-01".to_owned(),
            sides: vec![
                ConflictSide { label: "laptop".to_owned(), value: "2024-02-02".to_owned() },
                ConflictSide { label: "main".to_owned(), value: "2024-01-01".to_owned() },
            ],
        }))
    );
    assert!(out.is_conflict());
}

#[test]
fn equal_versions_or_an_unreadable_other_leave_the_published_field() {
    let same = Field::Value("OPP-1".to_owned()).in_conflict(
        Field::Value("OPP-1".to_owned()),
        "main".to_owned(),
        "laptop".to_owned(),
        same_text,
        copy_text,
    );
    assert_eq!(same, Field::Value("OPP-1".to_owned()));
    let broken = Field::Value("OPP-1".to_owned()).in_conflict(
        Field::Error(FieldError::Missing),
        "main".to_owned(),
        "laptop".to_owned(),
        same_text,
        copy_text,
    );
    assert_eq!(broken, Field::Value("OPP-1".to_owned()));
    let failed: Field<String> = Field::Error(FieldError::Missing);
    let kept = failed.in_conflict(Field::Value("OPP-2".to_owned()), "main".to_owned(), "laptop".to_owned(), same_text, copy_text);
    assert_eq!(kept, Field::Error(FieldError::Missing));
}

#[test]
fn a_copy_reads_as_what_the_field_lends() {
    let fields: Vec<Field<Status>> = vec![
        Field::Value(Status::InReview),
        Field::Error(FieldError::Missing),
        Field::Conflict(Box::new(FieldConflict {
            kind: ConflictTag::Conflict,
            value: Status::Done,
            sides: vec![
                ConflictSide { label: "laptop".to_owned(), value: Status::Todo },
                ConflictSide { label: "main".to_owned(), value: Status::Done },
            ],
        })),
    ];
    for field in &fields {
        assert_eq!(field.as_value().cloned(), field.clone().value());
    }
}
