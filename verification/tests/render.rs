use openplan::field::{ConflictSide, ConflictTag, Field, FieldConflict, FieldError, Rfc3339};
use openplan::metadata::{FrontmatterFields, Metadata, MetadataErrorTag};
use openplan::render::{
    conflicts_of, decimal_text, file_reference, frontmatter_entries, ConflictNote, FileEntry, FileRef, FileValue,
    RenderError,
};
use openplan::status::{Status, Timestamp};

// 2026-01-01T00:00:00Z
const CREATED: i64 = 1767225600;

fn fields(parent: Option<&str>, dependencies: &[&str], tags: &[&str]) -> FrontmatterFields {
    FrontmatterFields {
        status: Field::Value(Status::Todo),
        created: Field::Value(Rfc3339(Timestamp { second: CREATED })),
        parent: Field::Value(parent.map(str::to_owned)),
        rank: Field::Value(None),
        dependencies: Field::Value(dependencies.iter().map(|d| (*d).to_owned()).collect()),
        tags: Field::Value(tags.iter().map(|t| (*t).to_owned()).collect()),
    }
}

fn entry(key: &str, value: FileValue) -> FileEntry {
    FileEntry { key: key.to_owned(), value }
}

#[test]
fn a_key_reference_is_written_as_its_number() {
    assert_eq!(file_reference("OPP-42"), FileRef::Number(42));
    assert_eq!(file_reference("OPP-7#Design"), FileRef::Text("7#Design".to_owned()));
    assert_eq!(file_reference("notes"), FileRef::Text("notes".to_owned()));
    assert_eq!(file_reference("OPP-x#Design"), FileRef::Text("OPP-x#Design".to_owned()));
    assert_eq!(file_reference("12"), FileRef::Text("12".to_owned()));
}

#[test]
fn a_number_is_spelled_in_decimal() {
    assert_eq!(decimal_text(0), "0");
    assert_eq!(decimal_text(7), "7");
    assert_eq!(decimal_text(1040), "1040");
    assert_eq!(decimal_text(u64::MAX), "18446744073709551615");
}

#[test]
fn the_frontmatter_keeps_the_order_the_file_writes() {
    let metadata = Metadata::Fields(fields(Some("OPP-1"), &["OPP-2", "OPP-3#Notes"], &["wip", "backend"]));
    let entries = frontmatter_entries(&metadata).unwrap();
    assert_eq!(
        entries,
        vec![
            entry("status", FileValue::Text("todo".to_owned())),
            entry("created", FileValue::Instant(Rfc3339(Timestamp { second: CREATED }))),
            entry("parent", FileValue::Ref(FileRef::Number(1))),
            entry("dependencies", FileValue::Refs(vec![FileRef::Number(2), FileRef::Text("3#Notes".to_owned())])),
            entry("tags", FileValue::Texts(vec!["wip".to_owned(), "backend".to_owned()])),
        ]
    );
}

#[test]
fn a_task_with_no_tags_has_no_tags_entry() {
    let metadata = Metadata::Fields(fields(None, &[], &[]));
    let entries = frontmatter_entries(&metadata).unwrap();
    assert_eq!(entries.iter().map(|e| e.key.as_str()).collect::<Vec<_>>(), ["status", "created"]);
}

#[test]
fn a_task_without_status_or_created_cannot_be_written_back() {
    let mut broken = fields(None, &[], &[]);
    broken.status = Field::Error(FieldError::Missing);
    assert_eq!(frontmatter_entries(&Metadata::Fields(broken)), Err(RenderError));
    let mut undated = fields(None, &[], &[]);
    undated.created = Field::Error(FieldError::Invalid { message: "not a time".to_owned() });
    assert_eq!(frontmatter_entries(&Metadata::Fields(undated)), Err(RenderError));
    let unparsed = Metadata::Error { kind: MetadataErrorTag::Error, message: "no fence".to_owned() };
    assert_eq!(frontmatter_entries(&unparsed), Err(RenderError));
    assert_eq!(
        RenderError.message(),
        "the task cannot be rendered as a task file: its frontmatter is missing `status`, `created`, or both. Read the file itself to repair it."
    );
}

#[test]
fn a_field_in_conflict_leaves_a_note_with_both_labels() {
    let mut conflicted = fields(None, &[], &[]);
    conflicted.status = Field::Conflict(Box::new(FieldConflict {
        kind: ConflictTag::Conflict,
        value: Status::Todo,
        sides: vec![
            ConflictSide { label: "Ben (2222222)".to_owned(), value: Status::Done },
            ConflictSide { label: "Ann (1111111)".to_owned(), value: Status::Todo },
        ],
    }));
    conflicted.parent = Field::Conflict(Box::new(FieldConflict {
        kind: ConflictTag::Conflict,
        value: Some("OPP-1".to_owned()),
        sides: vec![
            ConflictSide { label: "Ben".to_owned(), value: Some("OPP-9#Plan".to_owned()) },
            ConflictSide { label: "Ann".to_owned(), value: Some("OPP-1".to_owned()) },
        ],
    }));
    assert_eq!(
        conflicts_of(&conflicted),
        vec![
            ConflictNote {
                field: "status".to_owned(),
                other: Some(FileValue::Text("done".to_owned())),
                other_label: "Ben (2222222)".to_owned(),
                label: "Ann (1111111)".to_owned(),
            },
            ConflictNote {
                field: "parent".to_owned(),
                other: Some(FileValue::Ref(FileRef::Text("9#Plan".to_owned()))),
                other_label: "Ben".to_owned(),
                label: "Ann".to_owned(),
            },
        ]
    );
    // The published value is what the frontmatter itself carries.
    let entries = frontmatter_entries(&Metadata::Fields(conflicted)).unwrap();
    assert_eq!(entries[0], entry("status", FileValue::Text("todo".to_owned())));
    assert_eq!(entries[2], entry("parent", FileValue::Ref(FileRef::Number(1))));
}

#[test]
fn a_field_without_conflict_leaves_no_note() {
    assert!(conflicts_of(&fields(Some("OPP-1"), &["OPP-2"], &["wip"])).is_empty());
}
