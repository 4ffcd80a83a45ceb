use openplan::history::DocumentChangeKind;
use openplan::local::{apply_outcome, catch_up_plan, plan_writes, Applied, CatchUp, HeadFile, Planned, Write};
use openplan::store::{hash, Stored};

fn put(path: &str, bytes: &[u8]) -> Write {
    Write { path: path.to_owned(), content: Some(bytes.to_vec()) }
}

fn remove(path: &str) -> Write {
    Write { path: path.to_owned(), content: None }
}

fn head() -> Vec<HeadFile> {
    vec![
        HeadFile { path: "tasks/OPP-1.md".to_owned(), stored: Stored::Held(b"one".to_vec()) },
        HeadFile { path: "docs/big.png".to_owned(), stored: Stored::InHistory { hash: hash(&b"big".to_vec()) } },
        HeadFile { path: "tasks/OPP-2.md".to_owned(), stored: Stored::Held(b"two".to_vec()) },
    ]
}

#[test]
fn each_path_takes_its_last_write_and_comes_in_path_order() {
    let planned = plan_writes(
        &head(),
        &vec![
            put("tasks/OPP-3.md", b"draft"),
            put("tasks/OPP-1.md", b"changed"),
            put("tasks/OPP-3.md", b"three"),
            remove("tasks/OPP-2.md"),
        ],
    );
    assert_eq!(
        planned,
        vec![
            Planned {
                path: "tasks/OPP-1.md".to_owned(),
                content: Some(b"changed".to_vec()),
                kind: DocumentChangeKind::Modified,
            },
            Planned { path: "tasks/OPP-2.md".to_owned(), content: None, kind: DocumentChangeKind::Removed },
            Planned {
                path: "tasks/OPP-3.md".to_owned(),
                content: Some(b"three".to_vec()),
                kind: DocumentChangeKind::Added,
            },
        ]
    );
}

#[test]
fn a_write_that_leaves_a_document_as_it_is_changes_nothing() {
    let planned = plan_writes(
        &head(),
        &vec![put("tasks/OPP-1.md", b"one"), put("docs/big.png", b"big"), remove("tasks/OPP-9.md")],
    );
    assert!(planned.is_empty());
}

#[test]
fn a_document_kept_in_the_history_is_compared_by_its_digest() {
    let planned = plan_writes(&head(), &vec![put("docs/big.png", b"bigger")]);
    assert_eq!(
        planned,
        vec![Planned {
            path: "docs/big.png".to_owned(),
            content: Some(b"bigger".to_vec()),
            kind: DocumentChangeKind::Modified,
        }]
    );
}

#[test]
fn a_write_undone_within_one_call_leaves_what_the_last_one_says() {
    let planned = plan_writes(&head(), &vec![remove("tasks/OPP-1.md"), put("tasks/OPP-1.md", b"one")]);
    assert!(planned.is_empty());
}

use openplan::history::{kind_name, parse_kind, UnknownKind};

#[test]
fn each_kind_of_change_reads_back_from_its_stored_name() {
    for kind in [DocumentChangeKind::Added, DocumentChangeKind::Modified, DocumentChangeKind::Removed] {
        assert_eq!(parse_kind(kind_name(kind)), Ok(kind));
    }
    assert_eq!(kind_name(DocumentChangeKind::Removed), "removed");
}

#[test]
fn a_name_that_names_no_kind_is_refused_with_the_name() {
    assert_eq!(parse_kind("renamed"), Err(UnknownKind { name: "renamed".to_owned() }));
    assert_eq!(parse_kind("Added"), Err(UnknownKind { name: "Added".to_owned() }));
}

#[test]
fn a_head_at_the_latest_revision_has_nothing_to_catch_up() {
    assert_eq!(catch_up_plan(Some(3), Some(3)), CatchUp::Current);
    assert_eq!(catch_up_plan(None, None), CatchUp::Current);
}

#[test]
fn a_history_that_moved_on_is_replayed_forward() {
    assert_eq!(catch_up_plan(Some(3), Some(5)), CatchUp::Forward { to: 5 });
    assert_eq!(catch_up_plan(None, Some(1)), CatchUp::Forward { to: 1 });
}

#[test]
fn a_history_that_went_back_is_read_whole() {
    assert_eq!(catch_up_plan(Some(5), Some(3)), CatchUp::Reread);
    assert_eq!(catch_up_plan(Some(2), None), CatchUp::Reread);
}

#[test]
fn a_write_that_changes_nothing_records_no_revision() {
    let planned = plan_writes(&head(), &vec![put("tasks/OPP-1.md", b"one")]);
    assert!(planned.is_empty());
    assert_eq!(apply_outcome(&planned, Some(3), Some(3)), Applied::Nothing);
    let planned = plan_writes(&head(), &vec![put("tasks/OPP-1.md", b"uno")]);
    assert_eq!(apply_outcome(&planned, Some(3), Some(4)), Applied::Moved);
    assert_eq!(apply_outcome(&planned, Some(3), Some(3)), Applied::Done);
    assert_eq!(apply_outcome(&planned, None, None), Applied::Done);
}
