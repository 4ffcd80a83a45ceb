use openplan::local::{plan_writes, HeadFile, Write};
use openplan::snapshot::{head_after, record_planned};
use openplan::store::{hash, Stored, HELD_BYTES};

fn held(path: &str, bytes: &[u8]) -> HeadFile {
    HeadFile { path: path.to_owned(), stored: Stored::Held(bytes.to_vec()) }
}

fn paths_and_bytes(head: &[HeadFile]) -> Vec<(String, Option<Vec<u8>>)> {
    head.iter()
        .map(|f| {
            let bytes = match &f.stored {
                Stored::Held(b) => Some(b.clone()),
                Stored::InHistory { .. } => None,
            };
            (f.path.clone(), bytes)
        })
        .collect()
}

#[test]
fn a_revision_puts_replaces_and_removes_in_path_order() {
    let head = vec![held("a.md", b"a"), held("c.md", b"c"), held("e.md", b"e")];
    let after = head_after(
        head,
        vec![
            ("d.md".to_owned(), Some(Stored::Held(b"d".to_vec()))),
            ("a.md".to_owned(), Some(Stored::Held(b"a2".to_vec()))),
            ("e.md".to_owned(), None),
            ("b.md".to_owned(), Some(Stored::Held(b"b".to_vec()))),
            ("zz.md".to_owned(), None),
        ],
    );
    assert_eq!(
        paths_and_bytes(&after),
        vec![
            ("a.md".to_owned(), Some(b"a2".to_vec())),
            ("b.md".to_owned(), Some(b"b".to_vec())),
            ("c.md".to_owned(), Some(b"c".to_vec())),
            ("d.md".to_owned(), Some(b"d".to_vec())),
        ]
    );
}

#[test]
fn the_last_write_to_a_path_is_the_one_that_stays() {
    let after = head_after(
        Vec::new(),
        vec![
            ("a.md".to_owned(), Some(Stored::Held(b"1".to_vec()))),
            ("a.md".to_owned(), None),
            ("a.md".to_owned(), Some(Stored::Held(b"3".to_vec()))),
        ],
    );
    assert_eq!(paths_and_bytes(&after), vec![("a.md".to_owned(), Some(b"3".to_vec()))]);
}

#[test]
fn a_read_gives_back_what_a_write_wrote() {
    let head = vec![held("tasks/OPP-1.md", b"one"), held("tasks/OPP-2.md", b"two")];
    let big = vec![7u8; HELD_BYTES + 1];
    let writes = vec![
        Write { path: "tasks/OPP-2.md".to_owned(), content: None },
        Write { path: "tasks/OPP-3.md".to_owned(), content: Some(b"three".to_vec()) },
        Write { path: "docs/big.png".to_owned(), content: Some(big.clone()) },
        Write { path: "tasks/OPP-1.md".to_owned(), content: Some(b"one".to_vec()) },
    ];
    let planned = plan_writes(&head, &writes);
    let after = record_planned(head, planned);
    let paths: Vec<&str> = after.iter().map(|f| f.path.as_str()).collect();
    assert_eq!(paths, vec!["docs/big.png", "tasks/OPP-1.md", "tasks/OPP-3.md"]);
    assert!(matches!(&after[0].stored, Stored::InHistory { hash: h } if *h == hash(&big)));
    assert!(matches!(&after[1].stored, Stored::Held(b) if b.as_slice() == b"one"));
    assert!(matches!(&after[2].stored, Stored::Held(b) if b.as_slice() == b"three"));
}
