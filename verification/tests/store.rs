use openplan::store::{
    first_line, hash, hex_digest, identity_of, is_hidden, is_rejection, tracking_reference, Identity, Imported, Stamp, Stored, HELD_BYTES,
};

#[test]
fn a_remote_is_tracked_outside_refs_remotes() {
    assert_eq!(tracking_reference("origin"), "refs/openplan/remotes/origin/tasks");
    assert_eq!(tracking_reference(""), "refs/openplan/remotes//tasks");
}

#[test]
fn a_dot_name_is_hidden_and_no_other_is() {
    assert!(is_hidden(".git"));
    assert!(is_hidden(".openplan-history"));
    assert!(!is_hidden("OPP-1.md"));
    assert!(!is_hidden(""));
    assert!(!is_hidden("a.b"));
}

const SECOND: i128 = 1_000_000_000;

fn stamp(modified: Option<i128>, changed: (i64, i64)) -> Stamp {
    Stamp { len: 10, modified, changed, inode: 7 }
}

#[test]
fn a_stamp_two_seconds_old_is_settled() {
    let written = 1_700_000_000 * SECOND;
    let file = stamp(Some(written), (1_700_000_000, 0));
    assert!(file.is_settled(written + 2 * SECOND));
    assert!(!file.is_settled(written + 2 * SECOND - 1));
    assert!(!file.is_settled(written));
    assert!(!file.is_settled(written - SECOND), "a time after now proves nothing");
}

#[test]
fn the_later_of_the_two_times_decides() {
    let modified = 1_700_000_000 * SECOND;
    // The status changed five seconds after the content did.
    let file = stamp(Some(modified), (1_700_000_005, 0));
    assert!(!file.is_settled(modified + 3 * SECOND));
    assert!(file.is_settled(modified + 7 * SECOND));
}

#[test]
fn a_status_change_that_names_no_instant_is_ignored() {
    let modified = 1_700_000_000 * SECOND;
    assert!(stamp(Some(modified), (-1, 0)).is_settled(modified + 2 * SECOND));
    assert!(stamp(Some(modified), (1_800_000_000, -5)).is_settled(modified + 2 * SECOND));
    assert!(stamp(Some(modified), (1_800_000_000, 5_000_000_000)).is_settled(modified + 2 * SECOND));
    assert!(!stamp(None, (-1, 0)).is_settled(modified), "a stamp with no time proves nothing");
}

#[test]
fn nanoseconds_past_a_second_carry_into_the_seconds() {
    // Two and a half billion nanoseconds past second ten is second twelve and a half.
    let file = stamp(None, (10, 2_500_000_000));
    let changed = 12 * SECOND + SECOND / 2;
    assert!(file.is_settled(changed + 2 * SECOND));
    assert!(!file.is_settled(changed + 2 * SECOND - 1));
}

#[test]
fn a_small_document_stays_in_memory() {
    let bytes = vec![1u8; HELD_BYTES];
    match Stored::of(bytes.clone()) {
        Stored::Held(held) => assert_eq!(held, bytes),
        Stored::InHistory { .. } => panic!("a document of {HELD_BYTES} bytes is held"),
    }
}

#[test]
fn a_large_document_goes_to_the_history_under_its_digest() {
    match Stored::of(vec![0u8; HELD_BYTES + 1]) {
        Stored::InHistory { hash } => {
            assert_eq!(hash, "3266304f31be278d06c3bd3eb9aa3e00c59bedec0a890de466568b0b90b0e01f")
        }
        Stored::Held(_) => panic!("a document over {HELD_BYTES} bytes goes to the history"),
    }
    match Stored::of(vec![7u8; 70000]) {
        Stored::InHistory { hash } => {
            assert_eq!(hash, "4f772cad45a568461aeb93ed8e3451422e5ba92d94c01a3355cb02e75c4b387e")
        }
        Stored::Held(_) => panic!("a document over {HELD_BYTES} bytes goes to the history"),
    }
}

#[test]
fn a_hash_is_the_hexadecimal_sha256_digest() {
    assert_eq!(hash(&b"hello world".to_vec()), "b94d27b9934d3e08a52e52d7da7dabfac484efe37a5380ee9088f7ace2efcde9");
    assert_eq!(hex_digest(&vec![0x00, 0x0f, 0xa0, 0xff]), "000fa0ff");
    assert_eq!(hex_digest(&Vec::new()), "");
}

#[test]
fn a_push_that_lost_a_race_reads_as_a_rejection() {
    assert!(is_rejection(" ! [rejected]        tasks -> tasks (fetch first)"));
    assert!(is_rejection("error: failed to push some refs\nhint: non-fast-forward"));
    assert!(is_rejection("! [remote rejected] (stale info)"));
    assert!(is_rejection("fetch first"));
    assert!(!is_rejection("fatal: could not read from remote repository"));
    assert!(!is_rejection(""));
}

#[test]
fn the_first_line_stops_at_the_first_break() {
    assert_eq!(first_line("Close OPP-3\n\nBody"), "Close OPP-3");
    assert_eq!(first_line("Close OPP-3\r\nBody"), "Close OPP-3");
    assert_eq!(first_line("one line"), "one line");
    assert_eq!(first_line("ends in return\r"), "ends in return\r");
    assert_eq!(first_line(""), "");
    assert_eq!(first_line("\nsecond"), "");
}

#[test]
fn an_import_starts_empty() {
    assert_eq!(Imported::default(), Imported { revisions: 0, uncommitted: false });
}

use openplan::store::{full_message, split_via, trim, trim_end};

#[test]
fn a_commit_names_its_agent_in_a_trailer() {
    assert_eq!(full_message("Close OPP-3\n\n", Some("helper")), "Close OPP-3\n\nVia: helper\n");
    assert_eq!(full_message("Close OPP-3  ", None), "Close OPP-3\n");
}

#[test]
fn a_commit_with_an_agent_reads_back_with_it() {
    for (message, agent) in [("Close OPP-3", "helper"), ("Line one\n\nLine two\n", " planner "), ("", "a b")] {
        let text = full_message(message, Some(agent));
        let (read, via) = split_via(trim_end(&text));
        assert_eq!(read, trim_end(message));
        assert_eq!(via.as_deref(), Some(trim(agent)));
    }
}

#[test]
fn a_message_without_a_trailer_reads_back_whole() {
    assert_eq!(split_via("Close OPP-3"), ("Close OPP-3".to_owned(), None));
    assert_eq!(split_via("Close\n\nBody\nmore"), ("Close\n\nBody\nmore".to_owned(), None));
    assert_eq!(split_via("Close\n\nVia: a\nb"), ("Close\n\nVia: a\nb".to_owned(), None));
    assert_eq!(split_via("Close\n\nVia:x"), ("Close\n\nVia:x".to_owned(), None));
}

#[test]
fn an_agent_of_only_white_space_does_not_survive_the_trailer() {
    let text = full_message("Close OPP-3", Some("   "));
    assert_eq!(split_via(trim_end(&text)), ("Close OPP-3\n\nVia:".to_owned(), None));
}

#[test]
fn trimming_takes_unicode_white_space() {
    assert_eq!(trim("\u{3000} a b \t\n"), "a b");
    assert_eq!(trim_end(" a \u{a0}"), " a");
    assert_eq!(trim("  "), "");
}

#[test]
fn an_identity_needs_a_name_and_trims_what_it_holds() {
    assert_eq!(
        identity_of(Some("  Ada Lovelace "), Some(" ada@example.org\n")),
        Some(Identity { name: "Ada Lovelace".to_owned(), email: Some("ada@example.org".to_owned()) })
    );
    assert_eq!(
        identity_of(Some("Ada"), Some("   ")),
        Some(Identity { name: "Ada".to_owned(), email: None })
    );
    assert_eq!(identity_of(Some("Ada"), None), Some(Identity { name: "Ada".to_owned(), email: None }));
    assert_eq!(identity_of(Some(" \t"), Some("ada@example.org")), None);
    assert_eq!(identity_of(None, Some("ada@example.org")), None);
}

#[test]
fn a_path_with_a_hidden_part_names_no_document() {
    let parts = |p: &[&str]| p.iter().map(|s| s.to_string()).collect::<Vec<_>>();
    assert!(openplan::store::is_document(&parts(&["tasks", "OPP-1.md"])));
    assert!(!openplan::store::is_document(&parts(&[".history", "db"])));
    assert!(!openplan::store::is_document(&parts(&["tasks", ".OPP-1.md.swp"])));
}

#[test]
fn a_message_written_without_an_agent_reads_back_as_written() {
    assert_reads_back_plain("Fix the board order  \n\n");
    assert_reads_back_plain("Two paragraphs\n\nthe second one");
}

fn assert_reads_back_plain(message: &str) {
    let full = openplan::store::full_message(message, None);
    let (text, via) = openplan::store::split_via(openplan::store::trim_end(&full));
    assert_eq!(text, openplan::store::trim_end(message));
    assert_eq!(via, None);
}
