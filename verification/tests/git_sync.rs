use openplan::git_sync::{integration_of, merge_message, Integration};

fn id(byte: u8) -> Vec<u8> {
    vec![byte; 20]
}

#[test]
fn a_local_tip_that_holds_the_remote_one_needs_nothing() {
    assert_eq!(integration_of(&Some(id(1)), &id(1), &Some(id(1))), Integration::UpToDate);
    assert_eq!(integration_of(&Some(id(2)), &id(1), &Some(id(1))), Integration::UpToDate);
}

#[test]
fn a_local_tip_behind_the_remote_one_fast_forwards() {
    assert_eq!(integration_of(&None, &id(1), &None), Integration::FastForward);
    assert_eq!(integration_of(&Some(id(1)), &id(2), &Some(id(1))), Integration::FastForward);
}

#[test]
fn tips_that_both_moved_merge() {
    assert_eq!(integration_of(&Some(id(2)), &id(3), &Some(id(1))), Integration::Merge);
    assert_eq!(integration_of(&Some(id(2)), &id(3), &None), Integration::Merge);
}

#[test]
fn a_merge_message_names_the_remote_and_lists_its_notes() {
    assert_eq!(merge_message("origin", &Vec::new()), "Merge origin openplan/tasks");
    assert_eq!(
        merge_message("origin", &vec!["OPP-3: kept both titles".to_string(), "OPP-4 renumbered".to_string()]),
        "Merge origin openplan/tasks\n\nOPP-3: kept both titles\nOPP-4 renumbered"
    );
}
