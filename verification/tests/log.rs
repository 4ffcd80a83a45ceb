use openplan::history::DocumentChangeKind;
use openplan::log::{log_starts, log_step, merge_changes, starts_with, LogStep};
use openplan::tree_diff::Change;

fn change(path: &str, kind: DocumentChangeKind) -> Change {
    Change { path: path.to_string(), kind }
}

#[test]
fn a_merge_keeps_only_what_differs_from_every_side() {
    let changes = vec![
        change("tasks/OPP-1.md", DocumentChangeKind::Modified),
        change("tasks/OPP-2.md", DocumentChangeKind::Added),
        change("tasks/OPP-3.md", DocumentChangeKind::Removed),
    ];
    let ours = vec![Some(vec![1]), Some(vec![2]), None];
    let others = vec![vec![Some(vec![9])], vec![Some(vec![2])], vec![Some(vec![3])]];
    assert_eq!(
        merge_changes(&changes, &ours, &others),
        vec![
            change("tasks/OPP-1.md", DocumentChangeKind::Modified),
            change("tasks/OPP-3.md", DocumentChangeKind::Removed),
        ]
    );
}

#[test]
fn a_revision_with_one_parent_keeps_every_change() {
    let changes = vec![change("a", DocumentChangeKind::Added), change("b", DocumentChangeKind::Removed)];
    let kept = merge_changes(&changes, &vec![Some(vec![1]), None], &vec![Vec::new(), Vec::new()]);
    assert_eq!(kept, changes);
}

#[test]
fn the_log_keeps_the_changes_under_the_prefix() {
    let changes = vec![
        change("docs/guide.md", DocumentChangeKind::Modified),
        change("tasks/OPP-1.md", DocumentChangeKind::Added),
    ];
    assert_eq!(
        log_step(0, None, &changes, "tasks/"),
        LogStep::Take(vec![change("tasks/OPP-1.md", DocumentChangeKind::Added)])
    );
    assert_eq!(log_step(0, Some(5), &changes, "tags/"), LogStep::Skip);
    assert_eq!(log_step(2, Some(2), &changes, ""), LogStep::Stop);
    assert_eq!(log_step(1, Some(2), &changes, ""), LogStep::Take(changes_copy()));
}

fn changes_copy() -> Vec<Change> {
    vec![
        change("docs/guide.md", DocumentChangeKind::Modified),
        change("tasks/OPP-1.md", DocumentChangeKind::Added),
    ]
}

#[test]
fn a_prefix_is_read_from_the_start() {
    assert!(starts_with("tasks/OPP-1.md", "tasks/"));
    assert!(starts_with("tasks", ""));
    assert!(!starts_with("docs/tasks/x", "tasks/"));
    assert!(!starts_with("task", "tasks"));
}

#[test]
fn a_page_before_a_revision_walks_from_its_parents() {
    let starts = log_starts(Some("c3".to_owned()), Some(vec!["c1".to_owned(), "c2".to_owned()]), Some("c9".to_owned()));
    assert_eq!(starts, Ok(vec!["c1".to_owned(), "c2".to_owned()]));
}

#[test]
fn a_page_before_an_unknown_revision_fails_on_that_id() {
    let starts = log_starts(Some("nope".to_owned()), None, Some("c9".to_owned()));
    assert_eq!(starts, Err("nope".to_owned()));
}

#[test]
fn the_first_page_walks_from_the_tip_or_from_nothing() {
    assert_eq!(log_starts(None, None, Some("c9".to_owned())), Ok(vec!["c9".to_owned()]));
    assert_eq!(log_starts(None, None, None), Ok(Vec::new()));
}
