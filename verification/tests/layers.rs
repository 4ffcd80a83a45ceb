use openplan::flow::{cycle_ids, format_cycles};
use openplan::layering::{blocks_counts, layer};

fn ids(names: &[&str]) -> Vec<String> {
    names.iter().map(|n| (*n).to_owned()).collect()
}

#[test]
fn a_leaf_lands_one_wave_behind_the_last_thing_it_waits_for() {
    // 0 -> 1 -> 3, 2 -> 3, and 4 waits for nothing.
    let successors = vec![vec![1], vec![3], vec![3], vec![], vec![]];
    assert_eq!(layer(&successors), Ok(vec![0, 1, 0, 2, 0]));
}

#[test]
fn a_graph_without_edges_is_one_wave() {
    assert_eq!(layer(&vec![vec![], vec![], vec![]]), Ok(vec![0, 0, 0]));
    assert_eq!(layer(&Vec::new()), Ok(Vec::new()));
}

#[test]
fn a_cycle_fails_the_layering_with_its_members() {
    // 0 -> 1 -> 2 -> 0, and 3 waits behind the cycle.
    let successors = vec![vec![1], vec![2], vec![0, 3], vec![]];
    let cycles = layer(&successors).unwrap_err();
    assert_eq!(cycles.len(), 1);
    let mut members = cycles[0].clone();
    members.sort();
    assert_eq!(members, vec![0, 1, 2]);
}

#[test]
fn a_self_loop_is_a_cycle_of_one() {
    assert_eq!(layer(&vec![vec![0]]), Err(vec![vec![0]]));
}

#[test]
fn blocks_count_everything_that_waits_directly_or_through_another() {
    // 0 -> 1 -> 3, 0 -> 2 -> 3: three leaves wait for 0, one for each of 1 and 2.
    let successors = vec![vec![1, 2], vec![3], vec![3], vec![]];
    let waves = layer(&successors).unwrap();
    assert_eq!(waves, vec![0, 1, 1, 2]);
    assert_eq!(blocks_counts(&successors, &waves), vec![3, 1, 1, 0]);
}

#[test]
fn a_cycle_report_opens_on_its_lowest_key() {
    let names = ids(&["OPP-31", "OPP-12", "OPP-19"]);
    // The walk met the cycle at OPP-19; the report still opens on OPP-12.
    let reports = cycle_ids(vec![vec![2, 0, 1]], &names);
    assert_eq!(reports, vec![ids(&["OPP-12", "OPP-19", "OPP-31"])]);
}

#[test]
fn cycle_reports_come_in_the_order_of_their_first_key() {
    let names = ids(&["OPP-9", "OPP-10", "OPP-2", "OPP-3"]);
    let reports = cycle_ids(vec![vec![1, 0], vec![3, 2]], &names);
    assert_eq!(reports, vec![ids(&["OPP-2", "OPP-3"]), ids(&["OPP-9", "OPP-10"])]);
}

#[test]
fn cycles_read_as_rounds_back_to_their_first_member() {
    let cycles = vec![ids(&["OPP-1", "OPP-2"]), ids(&["OPP-7"])];
    assert_eq!(format_cycles(&cycles), "OPP-1 -> OPP-2 -> OPP-1; OPP-7 -> OPP-7");
    assert_eq!(format_cycles(&Vec::new()), "");
}

#[test]
fn the_cycle_is_reported_from_where_the_walk_met_it_and_what_waits_behind_it_is_not() {
    let successors = vec![vec![1], vec![0, 2], vec![]];
    assert_eq!(layer(&successors), Err(vec![vec![0, 1]]));
}

#[test]
fn a_second_cycle_through_a_member_of_the_first_gets_its_own_report() {
    let successors = vec![vec![1], vec![2], vec![0, 3], vec![2]];
    assert_eq!(layer(&successors), Err(vec![vec![0, 1, 2], vec![2, 3]]));
}
