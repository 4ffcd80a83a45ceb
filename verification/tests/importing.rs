use openplan::importing::{import_refusal, replayed, uncommitted_edits, FileBytes};
use openplan::local::Write;

fn file(path: &str, bytes: &[u8]) -> FileBytes {
    FileBytes { path: path.to_owned(), bytes: bytes.to_vec() }
}

#[test]
fn only_commits_that_changed_the_directory_become_revisions() {
    let trees = vec![None, Some(vec![1]), Some(vec![1]), None, Some(vec![2]), Some(vec![1]), Some(vec![1])];
    assert_eq!(replayed(&trees), vec![1, 4, 5]);
}

#[test]
fn a_branch_without_the_directory_replays_nothing() {
    assert_eq!(replayed(&vec![None, None]), Vec::<usize>::new());
    assert_eq!(replayed(&Vec::new()), Vec::<usize>::new());
}

#[test]
fn edits_no_commit_holds_follow_as_puts_and_removals() {
    let working = vec![file("OPP-1.md", b"one"), file("OPP-2.md", b"two!"), file("OPP-4.md", b"four")];
    let head = vec![file("OPP-1.md", b"one"), file("OPP-2.md", b"two"), file("OPP-3.md", b"three")];
    assert_eq!(
        uncommitted_edits(&working, &head),
        vec![
            Write { path: "OPP-2.md".to_owned(), content: Some(b"two!".to_vec()) },
            Write { path: "OPP-4.md".to_owned(), content: Some(b"four".to_vec()) },
            Write { path: "OPP-3.md".to_owned(), content: None },
        ]
    );
}

#[test]
fn a_checkout_that_matches_the_head_has_no_uncommitted_edits() {
    let files = vec![file("OPP-1.md", b"one")];
    assert!(uncommitted_edits(&files, &vec![file("OPP-1.md", b"one")]).is_empty());
}

#[test]
fn an_import_is_refused_where_the_tasks_branch_exists() {
    assert_eq!(
        import_refusal(true),
        Some("openplan/tasks already exists, so there is nothing to import into".to_owned())
    );
    assert_eq!(import_refusal(false), None);
}
