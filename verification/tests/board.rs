use openplan::board::Board;
use openplan::field::{Field, FieldError, Rfc3339};
use openplan::metadata::{FrontmatterFields, Metadata};
use openplan::status::{Status, Timestamp};
use openplan::task::TaskListItem;

// The instants the rows are dated with, in seconds from the Unix epoch.
const JAN_1_2020: i64 = 1577836800; // 2020-01-01T00:00:00Z
const JAN_1: i64 = 1767225600; // 2026-01-01T00:00:00Z
const JAN_2: i64 = 1767312000; // 2026-01-02T00:00:00Z
const FEB_1: i64 = 1769904000; // 2026-02-01T00:00:00Z
const FEB_2: i64 = 1769990400; // 2026-02-02T00:00:00Z
const MAR_1: i64 = 1772323200; // 2026-03-01T00:00:00Z
const JUN_1: i64 = 1780272000; // 2026-06-01T00:00:00Z

fn item(id: &str, status: Status, parent: Option<&str>, rank: Option<&str>) -> TaskListItem {
    with_metadata(id, fields(Field::Value(status), parent, rank))
}

fn fields(status: Field<Status>, parent: Option<&str>, rank: Option<&str>) -> Metadata {
    Metadata::Fields(FrontmatterFields {
        status,
        created: Field::Value(Rfc3339(Timestamp { second: JAN_1 })),
        parent: Field::Value(parent.map(str::to_owned)),
        rank: Field::Value(rank.map(str::to_owned)),
        dependencies: Field::Value(Vec::new()),
        tags: Field::Value(Vec::new()),
    })
}

fn with_metadata(id: &str, metadata: Metadata) -> TaskListItem {
    TaskListItem {
        project: "one".to_owned(),
        id: id.to_owned(),
        title: id.to_uppercase(),
        metadata,
        comment_count: 0,
        conflicts: 0,
        problems: Vec::new(),
        updated: Field::Error(FieldError::Missing),
        author: None,
    }
}

fn of(project: &str, task: TaskListItem) -> TaskListItem {
    TaskListItem { project: project.to_owned(), title: format!("{project} {}", task.title), ..task }
}

fn rows(board: &Board, status: Status) -> Vec<(&str, &str, usize)> {
    board
        .groups
        .iter()
        .find(|g| g.status == Some(status))
        .map(|g| g.rows.iter().map(|r| (r.task.project.as_str(), r.task.id.as_str(), r.depth)).collect())
        .unwrap_or_default()
}

fn dated(id: &str, status: Status, parent: Option<&str>, at: i64) -> TaskListItem {
    TaskListItem { updated: Field::Value(Rfc3339(Timestamp { second: at })), ..item(id, status, parent, None) }
}

fn row_ids(board: &Board, status: Status) -> Vec<&str> {
    board
        .groups
        .iter()
        .find(|g| g.status == Some(status))
        .map(|g| g.rows.iter().map(|r| r.task.id.as_str()).collect())
        .unwrap_or_default()
}

#[test]
fn groups_appear_in_board_order_skipping_empties() {
    let board = Board::build(&vec![
        item("d", Status::Done, None, None),
        item("p", Status::InProgress, None, None),
        item("r", Status::InReview, None, None),
        item("t", Status::Todo, None, None),
    ]);
    let order: Vec<Status> = board.groups.iter().filter_map(|g| g.status).collect();
    assert_eq!(order, vec![Status::InReview, Status::InProgress, Status::Todo, Status::Done]);
}

#[test]
fn a_task_lands_in_its_own_status_group() {
    // Child shares no status with its parent, so it surfaces in its OWN group, not the parent's.
    let board = Board::build(&vec![
        item("epic", Status::Todo, None, None),
        item("sub", Status::InProgress, Some("epic"), None),
    ]);
    assert_eq!(row_ids(&board, Status::Todo), vec!["epic"]);
    assert_eq!(row_ids(&board, Status::InProgress), vec!["sub"]);
}

#[test]
fn same_status_child_nests_under_parent_with_depth() {
    let board = Board::build(&vec![
        item("epic", Status::InProgress, None, None),
        item("sub", Status::InProgress, Some("epic"), None),
    ]);
    let group = board.groups.iter().find(|g| g.status == Some(Status::InProgress)).unwrap();
    assert_eq!(
        group.rows.iter().map(|r| (r.task.id.as_str(), r.depth)).collect::<Vec<_>>(),
        vec![("epic", 0), ("sub", 1)],
    );
    assert!(group.rows[0].has_children);
    assert!(!group.rows[1].has_children);
}

#[test]
fn cross_status_child_is_a_root_with_a_parent_hint() {
    let board = Board::build(&vec![
        item("epic", Status::Todo, None, None),
        item("sub", Status::InProgress, Some("epic"), None),
    ]);
    let group = board.groups.iter().find(|g| g.status == Some(Status::InProgress)).unwrap();
    let row = &group.rows[0];
    assert_eq!(row.task.id, "sub");
    assert_eq!(row.depth, 0);
    // The cut cross-status edge carries the parent's title so the client can show "under EPIC".
    assert_eq!(row.parent_title.as_deref(), Some("EPIC"));
}

#[test]
fn a_dangling_parent_yields_no_hint() {
    let board = Board::build(&vec![item("orphan", Status::Todo, Some("missing"), None)]);
    let row = &board.groups[0].rows[0];
    assert_eq!(row.task.id, "orphan");
    assert_eq!(row.parent_title, None);
}

#[test]
fn siblings_order_by_rank_then_unranked_by_id() {
    let board = Board::build(&vec![
        item("root", Status::Todo, None, None),
        item("b", Status::Todo, Some("root"), Some("m")),
        item("a", Status::Todo, Some("root"), Some("t")),
        item("z", Status::Todo, Some("root"), None),
        item("y", Status::Todo, Some("root"), None),
    ]);
    assert_eq!(row_ids(&board, Status::Todo), vec!["root", "b", "a", "y", "z"]);
}

#[test]
fn unranked_rows_lead_with_the_most_recently_updated() {
    let board = Board::build(&vec![
        dated("old", Status::Todo, None, JAN_1),
        dated("newest", Status::Todo, None, MAR_1),
        dated("middle", Status::Todo, None, FEB_1),
    ]);
    assert_eq!(row_ids(&board, Status::Todo), vec!["newest", "middle", "old"]);
}

#[test]
fn nested_children_lead_with_the_most_recently_updated() {
    let board = Board::build(&vec![
        dated("root", Status::Todo, None, JAN_1),
        dated("old", Status::Todo, Some("root"), JAN_2),
        dated("new", Status::Todo, Some("root"), FEB_2),
    ]);
    assert_eq!(row_ids(&board, Status::Todo), vec!["root", "new", "old"]);
}

#[test]
fn an_undated_task_sorts_after_every_dated_one() {
    let board =
        Board::build(&vec![item("undated", Status::Todo, None, None), dated("ancient", Status::Todo, None, JAN_1_2020)]);
    assert_eq!(row_ids(&board, Status::Todo), vec!["ancient", "undated"]);
}

#[test]
fn a_rank_outranks_a_newer_update() {
    let board = Board::build(&vec![
        TaskListItem {
            metadata: fields(Field::Value(Status::Todo), None, Some("m")),
            ..dated("ranked", Status::Todo, None, JAN_1_2020)
        },
        dated("fresh", Status::Todo, None, JUN_1),
    ]);
    assert_eq!(row_ids(&board, Status::Todo), vec!["ranked", "fresh"]);
}

// Two stores can commit the same abbreviation, so the same key names a different task in each.
#[test]
fn one_key_in_two_projects_is_two_rows() {
    let board = Board::build(&vec![
        of("alpha", item("APP-3", Status::Todo, None, None)),
        of("beta", item("APP-3", Status::Todo, None, None)),
    ]);
    assert_eq!(rows(&board, Status::Todo), vec![("alpha", "APP-3", 0), ("beta", "APP-3", 0)]);
}

#[test]
fn a_parent_resolves_only_inside_its_own_project() {
    let board = Board::build(&vec![
        of("alpha", item("APP-1", Status::Todo, None, None)),
        of("beta", item("APP-2", Status::Todo, Some("APP-1"), None)),
    ]);
    // beta's APP-1 does not exist, so its child is a group-local root with no hint — never a row
    // nested under alpha's task of the same key.
    assert_eq!(rows(&board, Status::Todo), vec![("alpha", "APP-1", 0), ("beta", "APP-2", 0)]);
    let group = &board.groups[0];
    assert_eq!(group.rows[1].parent_title, None);
    assert!(!group.rows[0].has_children);
}

#[test]
fn a_child_nests_under_the_parent_in_its_own_project() {
    let board = Board::build(&vec![
        of("alpha", item("APP-1", Status::Todo, None, None)),
        of("beta", item("APP-1", Status::Todo, None, None)),
        of("beta", item("APP-2", Status::Todo, Some("APP-1"), None)),
    ]);
    assert_eq!(
        rows(&board, Status::Todo),
        vec![("alpha", "APP-1", 0), ("beta", "APP-1", 0), ("beta", "APP-2", 1)]
    );
}

// Rank and update time decide first; the project name only breaks what is left, which keeps a
// merged board deterministic rather than ordered by whichever project was read first.
#[test]
fn the_project_name_breaks_a_tie_before_the_id_does() {
    let board = Board::build(&vec![
        of("beta", item("APP-1", Status::Todo, None, None)),
        of("alpha", item("APP-2", Status::Todo, None, None)),
        of("alpha", item("APP-1", Status::Todo, None, None)),
    ]);
    assert_eq!(
        rows(&board, Status::Todo),
        vec![("alpha", "APP-1", 0), ("alpha", "APP-2", 0), ("beta", "APP-1", 0)]
    );
}

#[test]
fn a_newer_update_still_outranks_the_project_name() {
    let board = Board::build(&vec![
        of("alpha", dated("APP-1", Status::Todo, None, JAN_1)),
        of("beta", dated("APP-1", Status::Todo, None, MAR_1)),
    ]);
    assert_eq!(rows(&board, Status::Todo), vec![("beta", "APP-1", 0), ("alpha", "APP-1", 0)]);
}

#[test]
fn a_parent_cycle_still_shows_every_member_once() {
    let board =
        Board::build(&vec![item("x", Status::Todo, Some("y"), None), item("y", Status::Todo, Some("x"), None)]);
    let ids = row_ids(&board, Status::Todo);
    assert_eq!(ids.len(), 2);
    assert!(ids.contains(&"x") && ids.contains(&"y"));
}

#[test]
fn members_of_a_parent_cycle_follow_the_roots() {
    let board = Board::build(&vec![
        item("x", Status::Todo, Some("y"), None),
        dated("b", Status::Todo, None, FEB_1),
        item("y", Status::Todo, Some("x"), None),
        dated("a", Status::Todo, None, MAR_1),
    ]);
    assert_eq!(
        rows(&board, Status::Todo),
        vec![("one", "a", 0), ("one", "b", 0), ("one", "x", 0), ("one", "y", 1)]
    );
}

#[test]
fn a_root_of_a_parent_cycle_shows_no_parent_title() {
    let board =
        Board::build(&vec![item("x", Status::Todo, Some("y"), None), item("y", Status::Todo, Some("x"), None)]);
    let group = board.groups.iter().find(|g| g.status == Some(Status::Todo)).unwrap();
    assert_eq!(group.rows[0].depth, 0);
    assert_eq!(group.rows[0].parent_title, None);
}
