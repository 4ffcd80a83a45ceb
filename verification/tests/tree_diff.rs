use openplan::history::DocumentChangeKind;
use openplan::tree_diff::{changes, Change, TreeEntry};

fn entry(path: &str, id: &[u8]) -> TreeEntry {
    TreeEntry { path: path.to_string(), id: id.to_vec() }
}

fn change(path: &str, kind: DocumentChangeKind) -> Change {
    Change { path: path.to_string(), kind }
}

#[test]
fn changes_list_added_removed_and_modified_in_path_order() {
    let from = vec![entry("a.md", &[1]), entry("b.md", &[2]), entry("c.md", &[3])];
    let to = vec![entry("b.md", &[2]), entry("c.md", &[4]), entry("d.md", &[5])];
    assert_eq!(
        changes(&from, &to),
        vec![
            change("a.md", DocumentChangeKind::Removed),
            change("c.md", DocumentChangeKind::Modified),
            change("d.md", DocumentChangeKind::Added),
        ]
    );
}

#[test]
fn changes_read_back_the_other_way_swap_added_and_removed() {
    let from = vec![entry("a.md", &[1]), entry("b.md", &[2]), entry("c.md", &[3])];
    let to = vec![entry("b.md", &[2]), entry("c.md", &[4]), entry("d.md", &[5])];
    assert_eq!(
        changes(&to, &from),
        vec![
            change("a.md", DocumentChangeKind::Added),
            change("c.md", DocumentChangeKind::Modified),
            change("d.md", DocumentChangeKind::Removed),
        ]
    );
}

#[test]
fn a_document_back_to_its_old_bytes_is_no_change() {
    let from = vec![entry("tasks/x.md", &[7, 7]), entry("tasks/y.md", &[8])];
    let to = vec![entry("tasks/x.md", &[7, 7]), entry("tasks/y.md", &[8])];
    assert!(changes(&from, &to).is_empty());
}

#[test]
fn everything_is_added_to_an_empty_tree() {
    let to = vec![entry("a", &[1]), entry("a/b", &[2])];
    assert_eq!(
        changes(&Vec::new(), &to),
        vec![change("a", DocumentChangeKind::Added), change("a/b", DocumentChangeKind::Added)]
    );
    assert_eq!(
        changes(&to, &Vec::new()),
        vec![change("a", DocumentChangeKind::Removed), change("a/b", DocumentChangeKind::Removed)]
    );
}
