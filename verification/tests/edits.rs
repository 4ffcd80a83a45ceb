use openplan::edits::{hand_edits, stale_files, still_listed, Listed, ReadFile};
use openplan::local::{HeadFile, Write};
use openplan::store::{Stamp, Stored};

const SECOND: i128 = 1_000_000_000;

fn stamp(len: u64, modified_seconds: i128) -> Stamp {
    Stamp { len, modified: Some(modified_seconds * SECOND), changed: (-1, 0), inode: 7 }
}

fn listed(path: &str, stamp: Stamp) -> Listed {
    Listed { path: path.to_owned(), stamp }
}

fn head() -> Vec<HeadFile> {
    vec![
        HeadFile { path: "tasks/OPP-1.md".to_owned(), stored: Stored::Held(b"one".to_vec()) },
        HeadFile { path: "tasks/OPP-2.md".to_owned(), stored: Stored::Held(b"two".to_vec()) },
        HeadFile { path: "tasks/OPP-3.md".to_owned(), stored: Stored::Held(b"three".to_vec()) },
    ]
}

#[test]
fn only_files_whose_stamp_moved_are_read_again() {
    let on_disk = vec![
        listed("tasks/OPP-1.md", stamp(3, 10)),
        listed("tasks/OPP-2.md", stamp(4, 20)),
        listed("tasks/OPP-4.md", stamp(4, 30)),
        listed("tasks/bad\u{0}.md", stamp(1, 40)),
    ];
    let valid = vec![true, true, true, false];
    let known = vec![listed("tasks/OPP-1.md", stamp(3, 10)), listed("tasks/OPP-2.md", stamp(3, 15))];
    assert_eq!(stale_files(&on_disk, &valid, &known), vec![1, 2]);
}

#[test]
fn stamps_of_files_gone_from_disk_are_forgotten() {
    let known = vec![listed("tasks/OPP-1.md", stamp(3, 10)), listed("tasks/OPP-9.md", stamp(3, 15))];
    let on_disk = vec![listed("tasks/OPP-1.md", stamp(3, 11))];
    assert_eq!(still_listed(&known, &on_disk), vec![listed("tasks/OPP-1.md", stamp(3, 10))]);
}

#[test]
fn hand_edits_put_changed_files_and_remove_vanished_ones() {
    let on_disk = vec![
        listed("tasks/OPP-1.md", stamp(3, 10)),
        listed("tasks/OPP-2.md", stamp(4, 99)),
        listed("tasks/OPP-4.md", stamp(4, 100)),
    ];
    let read = vec![
        ReadFile { path: "tasks/OPP-2.md".to_owned(), stamp: stamp(4, 99), bytes: b"two!".to_vec() },
        ReadFile { path: "tasks/OPP-4.md".to_owned(), stamp: stamp(4, 100), bytes: b"four".to_vec() },
    ];
    let edits = hand_edits(&read, &on_disk, &head(), 101 * SECOND);
    assert_eq!(
        edits.writes,
        vec![
            Write { path: "tasks/OPP-2.md".to_owned(), content: Some(b"two!".to_vec()) },
            Write { path: "tasks/OPP-4.md".to_owned(), content: Some(b"four".to_vec()) },
            Write { path: "tasks/OPP-3.md".to_owned(), content: None },
        ]
    );
    assert_eq!(edits.settled, vec![listed("tasks/OPP-2.md", stamp(4, 99))]);
}

#[test]
fn a_file_that_holds_what_the_head_holds_changes_nothing() {
    let on_disk = vec![
        listed("tasks/OPP-1.md", stamp(3, 10)),
        listed("tasks/OPP-2.md", stamp(3, 20)),
        listed("tasks/OPP-3.md", stamp(5, 30)),
    ];
    let read = vec![ReadFile { path: "tasks/OPP-1.md".to_owned(), stamp: stamp(3, 10), bytes: b"one".to_vec() }];
    let edits = hand_edits(&read, &on_disk, &head(), 100 * SECOND);
    assert!(edits.writes.is_empty());
    assert_eq!(edits.settled, vec![listed("tasks/OPP-1.md", stamp(3, 10))]);
}
