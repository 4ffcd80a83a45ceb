//! The whole task set arranged for the list view: one group per status that has tasks, each
//! flattened into rows in the order a client renders them.
use std::cmp::Ordering;

use vstd::prelude::*;

use crate::metadata::{lemma_metadata_view, view_parent, view_rank, view_status, view_value};
use crate::order::{
    board_cmp, board_order, id_order, lemma_id_order_keyed, lemma_newest_preorder, lemma_rank_part_preorder,
    lemma_text_lex_preorder, newest_order, rank_order, rank_part, text_lex, updated_second,
};
use crate::keys::number_of_key;
use crate::sort::{is_permutation, preorder_on, sort_positions, sorted_by, stable_by};
use crate::status::Status;
use crate::task::{coordinate_of, ItemView, TaskListItem};
use crate::layering::falses;
use crate::graph::{count_true, lemma_permutation_covers, lemma_count_none_true, lemma_count_true_bound, lemma_count_true_grow, seqs_of};
use crate::text::{chain, flip, lemma_chain_total_on, lemma_total_on_everywhere, same_chars, total_on};

verus! {

/// The task set arranged by status. The client renders it verbatim: no grouping, sorting, or
/// tree-walking of its own.
#[derive(Debug, PartialEq, Eq)]
pub struct Board {
    pub groups: Vec<BoardGroup>,
}

/// The tasks of one status. `status` is absent for the group of tasks whose own status could not
/// be read: a broken file is the first thing seen rather than a row buried among real ones.
#[derive(Debug, PartialEq, Eq)]
pub struct BoardGroup {
    pub status: Option<Status>,
    pub rows: Vec<BoardRow>,
}

/// One rendered line: the task, its indentation within the group, whether rows nest under it, and
/// for a group-local root whose parent sits elsewhere, the parent's title.
#[derive(Debug, PartialEq, Eq)]
pub struct BoardRow {
    pub task: TaskListItem,
    pub depth: usize,
    pub has_children: bool,
    pub parent_title: Option<String>,
}

/// A row as plain values.
pub struct RowView {
    pub task: ItemView,
    pub depth: usize,
    pub has_children: bool,
    pub parent_title: Option<Seq<char>>,
}

impl View for BoardRow {
    type V = RowView;

    open spec fn view(&self) -> RowView {
        RowView {
            task: self.task@,
            depth: self.depth,
            has_children: self.has_children,
            parent_title: match self.parent_title {
                Some(t) => Some(t@),
                None => None,
            },
        }
    }
}

/// The tasks as plain values.
pub open spec fn items_of(tasks: &Vec<TaskListItem>) -> Seq<ItemView> {
    Seq::new(tasks@.len(), |i: int| tasks@[i]@)
}

/// The rows as plain values.
pub open spec fn rows_of(rows: &Vec<BoardRow>) -> Seq<RowView> {
    Seq::new(rows@.len(), |i: int| rows@[i]@)
}

/// The coordinate of the task a task names as its parent.
pub open spec fn parent_coordinate_of(task: ItemView) -> Option<(Seq<char>, Seq<char>)> {
    match view_parent(task.metadata) {
        Some(parent) => Some((task.project, parent)),
        None => None,
    }
}

/// The second a row reports as updated, where it reports one, from its plain values.
pub open spec fn updated_view(t: ItemView) -> Option<i64> {
    match view_value(t.updated) {
        Some(at) => Some(at.0.second),
        None => None,
    }
}

/// The board order of two rows' tasks, from their plain values: ranked first, by rank; then the
/// newest update first, then by project, then by id.
pub open spec fn board_item_order(a: ItemView, b: ItemView) -> Ordering {
    rank_order(
        view_rank(a.metadata),
        view_rank(b.metadata),
        chain(newest_order(updated_view(a), updated_view(b)), chain(text_lex(a.project, b.project), id_order(a.id, b.id))),
    )
}

/// The board order of two tasks is the board order of their plain values.
pub proof fn lemma_board_order_view(a: TaskListItem, b: TaskListItem)
    ensures
        board_order(a, b) == board_item_order(a@, b@),
{
    lemma_metadata_view(&a.metadata);
    lemma_metadata_view(&b.metadata);
    assert(updated_second(a) == updated_view(a@));
    assert(updated_second(b) == updated_view(b@));
}

/// The board order is a total preorder on the tasks of the group of `status`.
pub open spec fn group_preorder(tasks: Seq<ItemView>, status: Option<Status>) -> bool {
    &&& forall|i: int, j: int|
        member_of(tasks, status, i) && member_of(tasks, status, j) ==> #[trigger] board_item_order(tasks[i], tasks[j])
            == flip(board_item_order(tasks[j], tasks[i]))
    &&& forall|i: int, j: int, k: int|
        member_of(tasks, status, i) && member_of(tasks, status, j) && member_of(tasks, status, k)
            && #[trigger] board_item_order(tasks[i], tasks[j]) != Ordering::Greater && #[trigger] board_item_order(
            tasks[j],
            tasks[k],
        ) != Ordering::Greater ==> board_item_order(tasks[i], tasks[k]) != Ordering::Greater
}

/// The task's id is a key, as the id of every task a store lists is.
pub open spec fn keyed(task: ItemView) -> bool {
    number_of_key(task.id) is Some
}

/// Where every task of the group of `status` has a key as its id, the board order is a total
/// preorder on the group, so the rows of the board come in board order.
pub proof fn lemma_board_preorder(tasks: Seq<ItemView>, status: Option<Status>)
    requires
        forall|i: int| #[trigger] member_of(tasks, status, i) ==> keyed(tasks[i]),
    ensures
        group_preorder(tasks, status),
{
    let dom = |t: ItemView| keyed(t);
    let by_rank = |a: ItemView, b: ItemView| rank_part(view_rank(a.metadata), view_rank(b.metadata));
    let by_update = |a: ItemView, b: ItemView| newest_order(updated_view(a), updated_view(b));
    let by_project = |a: ItemView, b: ItemView| text_lex(a.project, b.project);
    let by_id = |a: ItemView, b: ItemView| id_order(a.id, b.id);
    lemma_rank_part_preorder();
    lemma_newest_preorder();
    lemma_text_lex_preorder();
    lemma_id_order_keyed();
    let rank_ord = |a: Option<Seq<char>>, b: Option<Seq<char>>| rank_part(a, b);
    let update_ord = |a: Option<i64>, b: Option<i64>| newest_order(a, b);
    let text_ord = |a: Seq<char>, b: Seq<char>| text_lex(a, b);
    let id_ord = |a: Seq<char>, b: Seq<char>| id_order(a, b);
    let key_dom = |a: Seq<char>| number_of_key(a) is Some;
    assert(total_on(by_rank, dom)) by {
        assert forall|a: ItemView, b: ItemView, c: ItemView|
            #[trigger] by_rank(a, b) != Ordering::Greater && #[trigger] by_rank(b, c) != Ordering::Greater implies by_rank(
            a,
            c,
        ) != Ordering::Greater by {
            assert(rank_ord(view_rank(a.metadata), view_rank(b.metadata)) != Ordering::Greater);
            assert(rank_ord(view_rank(b.metadata), view_rank(c.metadata)) != Ordering::Greater);
        }
        assert forall|a: ItemView, b: ItemView| #[trigger] by_rank(a, b) == flip(by_rank(b, a)) by {
            assert(rank_ord(view_rank(a.metadata), view_rank(b.metadata)) == flip(rank_ord(view_rank(b.metadata), view_rank(a.metadata))));
        }
    }
    assert(total_on(by_update, dom)) by {
        assert forall|a: ItemView, b: ItemView, c: ItemView|
            #[trigger] by_update(a, b) != Ordering::Greater && #[trigger] by_update(b, c) != Ordering::Greater implies by_update(
            a,
            c,
        ) != Ordering::Greater by {
            assert(update_ord(updated_view(a), updated_view(b)) != Ordering::Greater);
            assert(update_ord(updated_view(b), updated_view(c)) != Ordering::Greater);
        }
        assert forall|a: ItemView, b: ItemView| #[trigger] by_update(a, b) == flip(by_update(b, a)) by {
            assert(update_ord(updated_view(a), updated_view(b)) == flip(update_ord(updated_view(b), updated_view(a))));
        }
    }
    assert(total_on(by_project, dom)) by {
        assert forall|a: ItemView, b: ItemView, c: ItemView|
            #[trigger] by_project(a, b) != Ordering::Greater && #[trigger] by_project(b, c) != Ordering::Greater implies by_project(
            a,
            c,
        ) != Ordering::Greater by {
            assert(text_ord(a.project, b.project) != Ordering::Greater);
            assert(text_ord(b.project, c.project) != Ordering::Greater);
        }
        assert forall|a: ItemView, b: ItemView| #[trigger] by_project(a, b) == flip(by_project(b, a)) by {
            assert(text_ord(a.project, b.project) == flip(text_ord(b.project, a.project)));
        }
    }
    assert(total_on(by_id, dom)) by {
        assert forall|a: ItemView, b: ItemView, c: ItemView|
            dom(a) && dom(b) && dom(c) && #[trigger] by_id(a, b) != Ordering::Greater && #[trigger] by_id(b, c)
                != Ordering::Greater implies by_id(a, c) != Ordering::Greater by {
            assert(key_dom(a.id) && key_dom(b.id) && key_dom(c.id));
            assert(id_ord(a.id, b.id) != Ordering::Greater);
            assert(id_ord(b.id, c.id) != Ordering::Greater);
        }
        assert forall|a: ItemView, b: ItemView| dom(a) && dom(b) implies #[trigger] by_id(a, b) == flip(by_id(b, a)) by {
            assert(key_dom(a.id) && key_dom(b.id));
            assert(id_ord(a.id, b.id) == flip(id_ord(b.id, a.id)));
        }
    }
    lemma_chain_total_on(by_project, by_id, dom);
    let tie_project = |a: ItemView, b: ItemView| chain(by_project(a, b), by_id(a, b));
    lemma_chain_total_on(by_update, tie_project, dom);
    let tie = |a: ItemView, b: ItemView| chain(by_update(a, b), tie_project(a, b));
    lemma_chain_total_on(by_rank, tie, dom);
    let ord = |a: ItemView, b: ItemView| chain(by_rank(a, b), tie(a, b));
    assert forall|a: ItemView, b: ItemView| #[trigger] board_item_order(a, b) == ord(a, b) by {}
    assert forall|i: int, j: int|
        member_of(tasks, status, i) && member_of(tasks, status, j) implies #[trigger] board_item_order(tasks[i], tasks[j])
        == flip(board_item_order(tasks[j], tasks[i])) by {
        assert(dom(tasks[i]) && dom(tasks[j]));
        assert(ord(tasks[i], tasks[j]) == flip(ord(tasks[j], tasks[i])));
    }
    assert forall|i: int, j: int, k: int|
        member_of(tasks, status, i) && member_of(tasks, status, j) && member_of(tasks, status, k)
            && #[trigger] board_item_order(tasks[i], tasks[j]) != Ordering::Greater && #[trigger] board_item_order(
            tasks[j],
            tasks[k],
        ) != Ordering::Greater implies board_item_order(tasks[i], tasks[k]) != Ordering::Greater by {
        assert(dom(tasks[i]) && dom(tasks[j]) && dom(tasks[k]));
        assert(ord(tasks[i], tasks[j]) != Ordering::Greater);
        assert(ord(tasks[j], tasks[k]) != Ordering::Greater);
    }
}

/// Rows that nest under one row come in board order.
#[verifier::opaque]
pub open spec fn siblings_from(rows: Seq<RowView>, lo: int) -> bool {
    forall|j: int, r1: int, r2: int|
        lo <= j && r1 < r2 && #[trigger] nests_under(rows, r1, j) && #[trigger] nests_under(rows, r2, j)
            ==> board_item_order(rows[r1].task, rows[r2].task) != Ordering::Greater
}

/// Task `i` belongs to the group of `status`.
pub open spec fn member_of(tasks: Seq<ItemView>, status: Option<Status>, i: int) -> bool {
    0 <= i < tasks.len() && view_status(tasks[i].metadata) == status
}

/// Some task of the group of `status` names the task at `c` as its parent.
pub open spec fn holds_children(
    tasks: Seq<ItemView>,
    status: Option<Status>,
    c: (Seq<char>, Seq<char>),
) -> bool {
    exists|i: int| #[trigger] member_of(tasks, status, i) && parent_coordinate_of(tasks[i]) == Some(c)
}

/// The title of the task at `c`; where several tasks sit there, the last one's.
pub open spec fn title_at(tasks: Seq<ItemView>, c: (Seq<char>, Seq<char>)) -> Option<Seq<char>>
    decreases tasks.len(),
{
    if tasks.len() == 0 {
        None
    } else if coordinate_of(tasks.last()) == c {
        Some(tasks.last().title)
    } else {
        title_at(tasks.drop_last(), c)
    }
}

/// The statuses in the order their groups appear: an unreadable status first, then active work,
/// terminal states last.
pub open spec fn board_statuses() -> Seq<Option<Status>> {
    seq![
        None,
        Some(Status::InReview),
        Some(Status::InProgress),
        Some(Status::Todo),
        Some(Status::Backlog),
        Some(Status::Done),
        Some(Status::Cancelled),
    ]
}

/// Some task has `status`.
pub open spec fn has_members(tasks: Seq<ItemView>, status: Option<Status>) -> bool {
    exists|i: int| #[trigger] member_of(tasks, status, i)
}

/// The statuses among the first `k` of the board order that some task has.
pub open spec fn shown_statuses(tasks: Seq<ItemView>, k: int) -> Seq<Option<Status>>
    decreases k,
{
    if k <= 0 {
        Seq::empty()
    } else if has_members(tasks, board_statuses()[k - 1]) {
        shown_statuses(tasks, k - 1).push(board_statuses()[k - 1])
    } else {
        shown_statuses(tasks, k - 1)
    }
}

/// Row `j` is the row that row `i` nests under: one level up, with nothing shallower between.
pub open spec fn nests_under(rows: Seq<RowView>, i: int, j: int) -> bool {
    &&& 0 <= j < i < rows.len()
    &&& rows[j].depth + 1 == rows[i].depth
    &&& forall|k: int| j < k < i ==> #[trigger] rows[k].depth >= rows[i].depth
}

/// The parent title a row shows: only a group-local root whose parent is not a task of its
/// group shows one, the title of the task its metadata names as parent.
pub open spec fn shown_parent_title(tasks: Seq<ItemView>, status: Option<Status>, task: ItemView, depth: usize) -> Option<
    Seq<char>,
> {
    if depth == 0 && !has_group_parent(tasks, status, task) {
        match parent_coordinate_of(task) {
            Some(c) => title_at(tasks, c),
            None => None,
        }
    } else {
        None
    }
}

/// Row `r` of the group of `status` is right: its task belongs to the group, it shows whether
/// rows nest under it and the parent title, and a nested row sits under its parent.
pub open spec fn row_fits(tasks: Seq<ItemView>, status: Option<Status>, rows: Seq<RowView>, r: int) -> bool {
    &&& exists|i: int| #[trigger] member_of(tasks, status, i) && rows[r].task == tasks[i]
    &&& rows[r].has_children == holds_children(tasks, status, coordinate_of(rows[r].task))
    &&& rows[r].parent_title == shown_parent_title(tasks, status, rows[r].task, rows[r].depth)
    &&& rows[r].depth > 0 ==> exists|j: int|
        #[trigger] nests_under(rows, r, j) && parent_coordinate_of(rows[r].task) == Some(
            coordinate_of(rows[j].task),
        )
}

/// The task names as its parent a task of the group of `status`.
pub open spec fn has_group_parent(tasks: Seq<ItemView>, status: Option<Status>, task: ItemView) -> bool {
    exists|i: int| #[trigger] member_of(tasks, status, i) && parent_coordinate_of(task) == Some(coordinate_of(tasks[i]))
}

/// A depth-0 row for `later` may follow one for `earlier`: a member trapped in a parent cycle is
/// followed by no group-local root, and group-local roots come in board order as far as the
/// group's order is a total preorder.
pub open spec fn may_follow(tasks: Seq<ItemView>, status: Option<Status>, earlier: ItemView, later: ItemView) -> bool {
    &&& has_group_parent(tasks, status, earlier) ==> has_group_parent(tasks, status, later)
    &&& group_preorder(tasks, status) && !has_group_parent(tasks, status, later) ==> board_item_order(earlier, later)
        != Ordering::Greater
}

/// The rows at depth 0: first the group-local roots, whose parent is not in the group, in board
/// order; after them the members trapped in a parent cycle.
pub open spec fn roots_ordered(tasks: Seq<ItemView>, status: Option<Status>, rows: Seq<RowView>) -> bool {
    forall|r1: int, r2: int|
        0 <= r1 < r2 < rows.len() && (#[trigger] rows[r1]).depth == 0 && (#[trigger] rows[r2]).depth == 0
            ==> may_follow(tasks, status, rows[r1].task, rows[r2].task)
}

/// The rows of the group of `status`: every row right, and every task of the group present at
/// its coordinate exactly once.
pub open spec fn group_fits(tasks: Seq<ItemView>, status: Option<Status>, rows: Seq<RowView>) -> bool {
    &&& forall|r: int| 0 <= r < rows.len() ==> #[trigger] row_fits(tasks, status, rows, r)
    &&& forall|r1: int, r2: int|
        0 <= r1 < r2 < rows.len() ==> coordinate_of((#[trigger] rows[r1]).task) != coordinate_of(
            (#[trigger] rows[r2]).task,
        )
    &&& forall|i: int|
        #[trigger] member_of(tasks, status, i) ==> exists|r: int|
            0 <= r < rows.len() && coordinate_of(rows[r].task) == coordinate_of(tasks[i])
}

/// Whether two tasks sit at one coordinate.
fn same_coordinate(a: &TaskListItem, b: &TaskListItem) -> (same: bool)
    ensures
        same == (coordinate_of(a@) == coordinate_of(b@)),
{
    same_chars(a.project.as_str(), b.project.as_str()) && same_chars(a.id.as_str(), b.id.as_str())
}

/// Whether `child` names the task at the coordinate of `parent` as its parent.
fn names_as_parent(child: &TaskListItem, parent: &TaskListItem) -> (named: bool)
    ensures
        named == (parent_coordinate_of(child@) == Some(coordinate_of(parent@))),
{
    proof {
        lemma_metadata_view(&child.metadata);
    }
    match child.metadata.parent() {
        Some(p) => same_chars(child.project.as_str(), parent.project.as_str()) && same_chars(
            p,
            parent.id.as_str(),
        ),
        None => false,
    }
}

/// The title of the last task at the coordinate `child` names as its parent.
fn parent_title_of(tasks: &Vec<TaskListItem>, child: &TaskListItem) -> (title: Option<String>)
    ensures
        match title {
            Some(t) => match parent_coordinate_of(child@) {
                Some(c) => title_at(items_of(tasks), c) == Some(t@),
                None => false,
            },
            None => match parent_coordinate_of(child@) {
                Some(c) => title_at(items_of(tasks), c) is None,
                None => true,
            },
        },
{
    proof {
        lemma_metadata_view(&child.metadata);
    }
    let parent = match child.metadata.parent() {
        Some(p) => p,
        None => {
            return None;
        },
    };
    let ghost ts = items_of(tasks);
    let ghost c = (child@.project, parent@);
    let mut i: usize = tasks.len();
    proof {
        assert(ts.take(i as int) =~= ts);
    }
    while i > 0
        invariant
            i <= tasks.len(),
            ts == items_of(tasks),
            ts.len() == tasks.len(),
            c == (child@.project, parent@),
            parent_coordinate_of(child@) == Some(c),
            title_at(ts, c) == title_at(ts.take(i as int), c),
        decreases i,
    {
        let t = &tasks[i - 1];
        proof {
            assert(ts.take(i as int).drop_last() =~= ts.take(i - 1));
            assert(ts.take(i as int).last() == t@);
        }
        if same_chars(t.project.as_str(), child.project.as_str()) && same_chars(t.id.as_str(), parent) {
            proof {
                assert(coordinate_of(ts.take(i as int).last()) == c);
                assert(title_at(ts.take(i as int), c) == Some(t@.title));
            }
            return Some(t.title.clone());
        }
        proof {
            assert(coordinate_of(ts.take(i as int).last()) != c);
            assert(title_at(ts.take(i as int), c) == title_at(ts.take(i as int).drop_last(), c));
        }
        i = i - 1;
    }
    None
}

/// The positions of the tasks with `status`, in task order.
fn members_with(tasks: &Vec<TaskListItem>, status: Option<Status>) -> (members: Vec<usize>)
    ensures
        forall|k: int| 0 <= k < members.len() ==> member_of(items_of(tasks), status, #[trigger] members[k] as int),
        forall|i: int| #[trigger] member_of(items_of(tasks), status, i) ==> members@.contains(i as usize),
        forall|a: int, b: int| 0 <= a < b < members.len() ==> members[a] < members[b],
{
    let mut members: Vec<usize> = Vec::new();
    let mut i: usize = 0;
    while i < tasks.len()
        invariant
            i <= tasks.len(),
            forall|k: int| 0 <= k < members.len() ==> member_of(items_of(tasks), status, #[trigger] members[k] as int)
                && members[k] < i,
            forall|j: int| 0 <= j < i && #[trigger] member_of(items_of(tasks), status, j) ==> members@.contains(j as usize),
            forall|a: int, b: int| 0 <= a < b < members.len() ==> members[a] < members[b],
        decreases tasks.len() - i,
    {
        proof {
            lemma_metadata_view(&tasks[i as int].metadata);
        }
        if tasks[i].metadata.status() == status {
            let ghost before = members@;
            members.push(i);
            proof {
                assert forall|j: int| 0 <= j < i + 1 && #[trigger] member_of(items_of(tasks), status, j)
                    implies members@.contains(j as usize) by {
                    if j < i {
                        let k = choose|k: int| 0 <= k < before.len() && before[k] == j as usize;
                        assert(members@[k] == j as usize);
                    } else {
                        assert(members@[members.len() - 1] == j as usize);
                    }
                }
            }
        }
        i = i + 1;
    }
    members
}

/// Every row right and no coordinate twice.
pub open spec fn rows_fit(tasks: Seq<ItemView>, status: Option<Status>, rows: Seq<RowView>) -> bool {
    &&& forall|r: int| 0 <= r < rows.len() ==> #[trigger] row_fits(tasks, status, rows, r)
    &&& forall|r1: int, r2: int|
        0 <= r1 < r2 < rows.len() ==> coordinate_of((#[trigger] rows[r1]).task) != coordinate_of(
            (#[trigger] rows[r2]).task,
        )
}

/// A member counts as emitted exactly when a row sits at its coordinate.
spec fn emitted_matches(tasks: Seq<ItemView>, members: Seq<usize>, emitted: Seq<bool>, rows: Seq<RowView>) -> bool {
    &&& emitted.len() == members.len()
    &&& forall|b: int|
        0 <= b < members.len() ==> (#[trigger] emitted[b] <==> exists|r: int|
            0 <= r < rows.len() && coordinate_of(rows[r].task) == coordinate_of(tasks[members[b] as int]))
}

/// The member positions, the kids under each member, as the rows need them.
spec fn forest_fits(tasks: Seq<ItemView>, status: Option<Status>, members: Seq<usize>, kids: Seq<Seq<usize>>) -> bool {
    &&& forall|k: int| 0 <= k < members.len() ==> #[trigger] member_of(tasks, status, members[k] as int)
    &&& kids.len() == members.len()
    &&& forall|a: int, k: int|
        0 <= a < kids.len() && 0 <= k < kids[a].len() ==> #[trigger] kids[a][k] < members.len()
            && parent_coordinate_of(tasks[members[kids[a][k] as int] as int]) == Some(
            coordinate_of(tasks[members[a] as int]),
        )
    &&& forall|a: int|
        0 <= a < kids.len() ==> ((#[trigger] kids[a]).len() > 0 <==> holds_children(
            tasks,
            status,
            coordinate_of(tasks[members[a] as int]),
        ))
    &&& group_preorder(tasks, status) ==> forall|a: int| 0 <= a < kids.len() ==> in_board_order(tasks, members, #[trigger] kids[a])
    &&& forall|a: int, b: int|
        #![trigger kids[a].contains(b as usize)]
        0 <= a < kids.len() && 0 <= b < members.len() && parent_coordinate_of(tasks[members[b] as int]) == Some(
            coordinate_of(tasks[members[a] as int]),
        ) ==> kids[a].contains(b as usize)
    &&& forall|i: int| #[trigger] member_of(tasks, status, i) ==> members.contains(i as usize)
}

/// Each row nested directly under the row at `at`, after it, is the row of one of the first `k`
/// kids.
#[verifier::opaque]
spec fn heads_ok(rows: Seq<RowView>, at: int, d: int, tasks: Seq<ItemView>, members: Seq<usize>, kid_list: Seq<usize>, k: int) -> bool {
    forall|r: int|
        at < r < rows.len() && #[trigger] rows[r].depth == d + 1 ==> exists|i: int|
            0 <= i < k && rows[r].task == tasks[members[#[trigger] kid_list[i] as int] as int]
}

/// Nesting under a row looks only at the rows up to the nested one.
proof fn lemma_nests_prefix(before: Seq<RowView>, after: Seq<RowView>, r: int, j: int)
    requires
        before.len() <= after.len(),
        after.take(before.len() as int) == before,
        r < before.len(),
    ensures
        nests_under(after, r, j) == nests_under(before, r, j),
{
    if nests_under(after, r, j) {
        assert forall|k: int| j < k < r implies #[trigger] before[k].depth >= before[r].depth by {
            assert(after[k] == before[k]);
            assert(after[k].depth >= after[r].depth);
        }
    }
    if nests_under(before, r, j) {
        assert forall|k: int| j < k < r implies #[trigger] after[k].depth >= after[r].depth by {
            assert(after[k] == before[k]);
            assert(before[k].depth >= before[r].depth);
        }
    }
}

/// A pair of rows nested under one row, the later one the first row of a kid, comes in board order.
proof fn lemma_cross_pair(
    tasks: Seq<ItemView>,
    members: Seq<usize>,
    kid_list: Seq<usize>,
    k: int,
    before: Seq<RowView>,
    after: Seq<RowView>,
    at: int,
    d: int,
    j: int,
    r1: int,
    r2: int,
)
    requires
        0 <= at < before.len() <= after.len(),
        after.take(before.len() + 0int) == before,
        before[at].depth == d,
        forall|r: int| at < r < after.len() ==> #[trigger] after[r].depth >= d + 1,
        0 <= k < kid_list.len(),
        heads_ok(before, at, d, tasks, members, kid_list, k),
        after.len() > before.len() ==> after[before.len() + 0int].depth == d + 1 && after[before.len() + 0int].task
            == tasks[members[kid_list[k] + 0int] + 0int],
        forall|r: int| before.len() < r < after.len() ==> #[trigger] after[r].depth > d + 1,
        in_board_order(tasks, members, kid_list),
        at <= j < before.len(),
        r1 < r2,
        r2 >= before.len(),
        nests_under(after, r1, j),
        nests_under(after, r2, j),
    ensures
        board_item_order(after[r1].task, after[r2].task) != Ordering::Greater,
{
    reveal(heads_ok);
    let s = before.len() + 0int;
    if r2 > s {
        assert(after[s].depth >= after[r2].depth);
        assert(false);
    }
    if j > at {
        assert(after[j].depth >= d + 1);
        assert(false);
    }
    assert(after[at] == before[at]);
    assert(after[r1] == before[r1]);
    assert(before[r1].depth == d + 1);
    let i = choose|i: int| 0 <= i < k && before[r1].task == tasks[members[#[trigger] kid_list[i] + 0int] + 0int];
    assert(board_item_order(
        tasks[members[kid_list[i] + 0int] + 0int],
        tasks[members[kid_list[k] + 0int] + 0int],
    ) != Ordering::Greater);
}

/// The rows of one more kid keep each row nested under the kids' parent the row of a kid.
proof fn lemma_heads_after(
    tasks: Seq<ItemView>,
    members: Seq<usize>,
    kid_list: Seq<usize>,
    k: int,
    before: Seq<RowView>,
    after: Seq<RowView>,
    at: int,
    d: int,
)
    requires
        0 <= at < before.len() <= after.len(),
        after.take(before.len() as int) == before,
        0 <= k < kid_list.len(),
        heads_ok(before, at, d, tasks, members, kid_list, k),
        after.len() > before.len() ==> after[before.len() as int].depth == d + 1 && after[before.len() as int].task
            == tasks[members[kid_list[k] as int] as int],
        forall|r: int| before.len() < r < after.len() ==> #[trigger] after[r].depth > d + 1,
    ensures
        heads_ok(after, at, d, tasks, members, kid_list, k + 1),
{
    reveal(heads_ok);
    let s = before.len() as int;
    assert forall|r: int| at < r < after.len() && #[trigger] after[r].depth == d + 1 implies exists|i: int|
        0 <= i < k + 1 && after[r].task == tasks[members[#[trigger] kid_list[i] as int] as int] by {
        if r < s {
            assert(after[r] == before[r]);
            let i = choose|i: int| 0 <= i < k && before[r].task == tasks[members[#[trigger] kid_list[i] as int] as int];
            assert(after[r].task == tasks[members[kid_list[i] as int] as int]);
        } else {
            assert(r == s);
            assert(after[r].task == tasks[members[kid_list[k] as int] as int]);
        }
    }
}

/// The rows of one more kid keep the rows nested under the kids' parent, and under any row after
/// it, in board order.
proof fn lemma_siblings_after(
    tasks: Seq<ItemView>,
    members: Seq<usize>,
    kid_list: Seq<usize>,
    k: int,
    before: Seq<RowView>,
    after: Seq<RowView>,
    at: int,
    d: int,
)
    requires
        0 <= at < before.len() <= after.len(),
        after.take(before.len() + 0int) == before,
        before[at].depth == d,
        forall|r: int| at < r < after.len() ==> #[trigger] after[r].depth >= d + 1,
        0 <= k < kid_list.len(),
        heads_ok(before, at, d, tasks, members, kid_list, k),
        after.len() > before.len() ==> after[before.len() + 0int].depth == d + 1 && after[before.len() + 0int].task
            == tasks[members[kid_list[k] + 0int] + 0int],
        forall|r: int| before.len() < r < after.len() ==> #[trigger] after[r].depth > d + 1,
        siblings_from(before, at),
        siblings_from(after, before.len() + 0int),
        in_board_order(tasks, members, kid_list),
    ensures
        siblings_from(after, at),
{
    reveal(siblings_from);
    let s = before.len() + 0int;
    assert forall|j: int, r1: int, r2: int|
        at <= j && r1 < r2 && #[trigger] nests_under(after, r1, j) && #[trigger] nests_under(after, r2, j) implies board_item_order(
        after[r1].task,
        after[r2].task,
    ) != Ordering::Greater by {
        if j >= s {
        } else if r2 < s {
            lemma_nests_prefix(before, after, r1, j);
            lemma_nests_prefix(before, after, r2, j);
            assert(after[r1] == before[r1]);
            assert(after[r2] == before[r2]);
        } else {
            lemma_cross_pair(tasks, members, kid_list, k, before, after, at, d, j, r1, r2);
        }
    }
}

/// The rows of one more root keep every row's nested rows in board order: no row nests across a
/// root.
proof fn lemma_root_after(before: Seq<RowView>, after: Seq<RowView>)
    requires
        before.len() <= after.len(),
        after.take(before.len() + 0int) == before,
        after.len() > before.len() ==> after[before.len() + 0int].depth == 0,
        siblings_from(before, 0),
        siblings_from(after, before.len() + 0int),
    ensures
        siblings_from(after, 0),
{
    reveal(siblings_from);
    let s = before.len() + 0int;
    assert forall|j: int, r1: int, r2: int|
        0 <= j && r1 < r2 && #[trigger] nests_under(after, r1, j) && #[trigger] nests_under(after, r2, j) implies board_item_order(
        after[r1].task,
        after[r2].task,
    ) != Ordering::Greater by {
        if j >= s {
        } else if r2 < s {
            lemma_nests_prefix(before, after, r1, j);
            lemma_nests_prefix(before, after, r2, j);
            assert(after[r1] == before[r1]);
            assert(after[r2] == before[r2]);
        } else if r2 > s {
            assert(after[s].depth >= after[r2].depth);
        }
    }
}

/// One more depth-0 row, for `task`, keeps the depth-0 rows ordered where it may follow every
/// depth-0 row before it.
proof fn lemma_roots_after(tasks: Seq<ItemView>, status: Option<Status>, task: ItemView, before: Seq<RowView>, after: Seq<RowView>)
    requires
        before.len() <= after.len(),
        after.take(before.len() + 0int) == before,
        after.len() > before.len() ==> after[before.len() + 0int].depth == 0 && after[before.len() + 0int].task == task,
        forall|r: int| before.len() < r < after.len() ==> #[trigger] after[r].depth > 0,
        roots_ordered(tasks, status, before),
        forall|r: int|
            0 <= r < before.len() && (#[trigger] before[r]).depth == 0 ==> may_follow(tasks, status, before[r].task, task),
    ensures
        roots_ordered(tasks, status, after),
{
    let s = before.len() + 0int;
    assert forall|r1: int, r2: int|
        0 <= r1 < r2 < after.len() && (#[trigger] after[r1]).depth == 0 && (#[trigger] after[r2]).depth == 0 implies may_follow(
        tasks,
        status,
        after[r1].task,
        after[r2].task,
    ) by {
        assert(r2 <= s);
        assert(after[r1] == before[r1]);
        if r2 < s {
            assert(after[r2] == before[r2]);
        }
    }
}

/// A group-local root may follow one that comes before it in a list in board order.
proof fn lemma_root_follows(tasks: Seq<ItemView>, status: Option<Status>, members: Seq<usize>, roots: Seq<usize>, j: int, k: int)
    requires
        0 <= j < k < roots.len(),
        group_preorder(tasks, status) ==> in_board_order(tasks, members, roots),
        !has_group_parent(tasks, status, tasks[members[roots[j] + 0int] + 0int]),
    ensures
        may_follow(tasks, status, tasks[members[roots[j] + 0int] + 0int], tasks[members[roots[k] + 0int] + 0int]),
{
}

/// No two tasks of the group of `status` sit at one coordinate.
pub open spec fn group_unique(tasks: Seq<ItemView>, status: Option<Status>) -> bool {
    forall|i: int, k: int|
        #[trigger] member_of(tasks, status, i) && #[trigger] member_of(tasks, status, k) && coordinate_of(tasks[i])
            == coordinate_of(tasks[k]) ==> i == k
}

/// A row at the coordinate `c` sits at or before row `j`, or nested directly under it.
pub open spec fn placed_at(rows: Seq<RowView>, j: int, c: (Seq<char>, Seq<char>)) -> bool {
    exists|r: int| 0 <= r < rows.len() && #[trigger] coordinate_of(rows[r].task) == c && (r <= j || nests_under(rows, r, j))
}

/// Every task of the group that names the task of row `j` as its parent has its row at or before
/// row `j`, or nested directly under it.
#[verifier::opaque]
pub open spec fn kids_placed(tasks: Seq<ItemView>, status: Option<Status>, rows: Seq<RowView>, j: int) -> bool {
    forall|i: int|
        #[trigger] member_of(tasks, status, i) && parent_coordinate_of(tasks[i]) == Some(coordinate_of(rows[j].task))
            ==> placed_at(rows, j, coordinate_of(tasks[i]))
}

/// Every row from `lo` up to `hi` has its kids placed.
#[verifier::opaque]
pub open spec fn placed_from(tasks: Seq<ItemView>, status: Option<Status>, rows: Seq<RowView>, lo: int, hi: int) -> bool {
    forall|j: int| lo <= j < hi ==> #[trigger] kids_placed(tasks, status, rows, j)
}

/// A row placed stays placed as more rows follow.
proof fn lemma_placed_at_extend(before: Seq<RowView>, after: Seq<RowView>, j: int, c: (Seq<char>, Seq<char>))
    requires
        before.len() <= after.len(),
        after.take(before.len() as int) == before,
        0 <= j < before.len(),
        placed_at(before, j, c),
    ensures
        placed_at(after, j, c),
{
    let r = choose|r: int|
        0 <= r < before.len() && #[trigger] coordinate_of(before[r].task) == c && (r <= j || nests_under(before, r, j));
    assert(after[r] == before.take(before.len() as int)[r]);
    if r > j {
        lemma_nests_prefix(before, after, r, j);
    }
}

/// Rows whose kids are placed keep them placed as more rows follow.
proof fn lemma_placed_from_extend(
    tasks: Seq<ItemView>,
    status: Option<Status>,
    before: Seq<RowView>,
    after: Seq<RowView>,
    lo: int,
    hi: int,
)
    requires
        before.len() <= after.len(),
        after.take(before.len() as int) == before,
        0 <= lo,
        hi <= before.len(),
        placed_from(tasks, status, before, lo, hi),
    ensures
        placed_from(tasks, status, after, lo, hi),
{
    reveal(placed_from);
    assert forall|j: int| lo <= j < hi implies #[trigger] kids_placed(tasks, status, after, j) by {
        assert(kids_placed(tasks, status, before, j));
        reveal(kids_placed);
        assert(after[j] == before.take(before.len() as int)[j]);
        assert forall|i: int|
            #[trigger] member_of(tasks, status, i) && parent_coordinate_of(tasks[i]) == Some(coordinate_of(after[j].task))
                implies placed_at(after, j, coordinate_of(tasks[i])) by {
            lemma_placed_at_extend(before, after, j, coordinate_of(tasks[i]));
        }
    }
}

/// Two ranges of rows with their kids placed make one.
proof fn lemma_placed_from_join(tasks: Seq<ItemView>, status: Option<Status>, rows: Seq<RowView>, lo: int, mid: int, hi: int)
    requires
        placed_from(tasks, status, rows, lo, mid),
        placed_from(tasks, status, rows, mid, hi),
    ensures
        placed_from(tasks, status, rows, lo, hi),
{
    reveal(placed_from);
}

/// Once a kid of the row at `at` has a row, that row sits at or before `at` or nested directly under
/// it: a later row at its coordinate is nested, and nests under the row of its parent, which is the
/// only row at that coordinate.
proof fn lemma_kid_placed(
    tasks: Seq<ItemView>,
    status: Option<Status>,
    rows: Seq<RowView>,
    at: int,
    d: int,
    kid: int,
)
    requires
        group_unique(tasks, status),
        rows_fit(tasks, status, rows),
        0 <= at < rows.len(),
        rows[at].depth == d,
        forall|r: int| at < r < rows.len() ==> #[trigger] rows[r].depth >= d + 1,
        member_of(tasks, status, kid),
        parent_coordinate_of(tasks[kid]) == Some(coordinate_of(rows[at].task)),
        exists|r: int| 0 <= r < rows.len() && coordinate_of(rows[r].task) == coordinate_of(tasks[kid]),
    ensures
        placed_at(rows, at, coordinate_of(tasks[kid])),
{
    let r = choose|r: int| 0 <= r < rows.len() && coordinate_of(rows[r].task) == coordinate_of(tasks[kid]);
    if r > at {
        assert(rows[r].depth >= d + 1);
        assert(row_fits(tasks, status, rows, r));
        let i2 = choose|i2: int| #[trigger] member_of(tasks, status, i2) && rows[r].task == tasks[i2];
        assert(i2 == kid);
        let j2 = choose|j2: int|
            #[trigger] nests_under(rows, r, j2) && parent_coordinate_of(rows[r].task) == Some(coordinate_of(rows[j2].task));
        if j2 != at {
            if j2 < at {
                assert(coordinate_of(rows[j2].task) != coordinate_of(rows[at].task));
            } else {
                assert(coordinate_of(rows[at].task) != coordinate_of(rows[j2].task));
            }
        }
        assert(nests_under(rows, r, at));
    }
    assert(coordinate_of(rows[r].task) == coordinate_of(tasks[kid]));
}

/// A task whose parent is a group-local root of its group nests directly under the root's row,
/// one level down: a same-status child is never a second root.
pub proof fn lemma_child_nests(tasks: Seq<ItemView>, status: Option<Status>, rows: Seq<RowView>, i: int, j: int)
    requires
        group_unique(tasks, status),
        group_fits(tasks, status, rows),
        roots_ordered(tasks, status, rows),
        placed_from(tasks, status, rows, 0, rows.len() as int),
        0 <= j < rows.len(),
        rows[j].depth == 0,
        !has_group_parent(tasks, status, rows[j].task),
        member_of(tasks, status, i),
        parent_coordinate_of(tasks[i]) == Some(coordinate_of(rows[j].task)),
    ensures
        exists|r: int|
            0 <= r < rows.len() && rows[r].task == tasks[i] && #[trigger] nests_under(rows, r, j) && rows[r].depth == 1,
{
    reveal(placed_from);
    assert(kids_placed(tasks, status, rows, j));
    reveal(kids_placed);
    assert(placed_at(rows, j, coordinate_of(tasks[i])));
    let r = choose|r: int|
        0 <= r < rows.len() && #[trigger] coordinate_of(rows[r].task) == coordinate_of(tasks[i]) && (r <= j || nests_under(rows, r, j));
    assert(row_fits(tasks, status, rows, r));
    let i2 = choose|i2: int| #[trigger] member_of(tasks, status, i2) && rows[r].task == tasks[i2];
    assert(i2 == i);
    assert(row_fits(tasks, status, rows, j));
    let pj = choose|pj: int| #[trigger] member_of(tasks, status, pj) && rows[j].task == tasks[pj];
    assert(has_group_parent(tasks, status, tasks[i]));
    if r == j {
        assert(false);
    } else if r < j {
        if rows[r].depth == 0 {
            assert(may_follow(tasks, status, rows[r].task, rows[j].task));
            assert(false);
        } else {
            let j2 = choose|j2: int|
                #[trigger] nests_under(rows, r, j2) && parent_coordinate_of(rows[r].task) == Some(coordinate_of(rows[j2].task));
            assert(coordinate_of(rows[j2].task) != coordinate_of(rows[j].task));
            assert(false);
        }
    }
    assert(nests_under(rows, r, j));
}

/// Rows that fit keep fitting when more rows follow them.
proof fn lemma_fits_extend(tasks: Seq<ItemView>, status: Option<Status>, rows: Seq<RowView>, more: Seq<RowView>)
    requires
        more.len() >= rows.len(),
        more.take(rows.len() as int) == rows,
        forall|r: int| 0 <= r < rows.len() ==> #[trigger] row_fits(tasks, status, rows, r),
    ensures
        forall|r: int| 0 <= r < rows.len() ==> #[trigger] row_fits(tasks, status, more, r),
{
    assert forall|r: int| 0 <= r < rows.len() implies #[trigger] row_fits(tasks, status, more, r) by {
        assert(row_fits(tasks, status, rows, r));
        assert(more[r] == rows[r]);
        if rows[r].depth > 0 {
            let j = choose|j: int|
                #[trigger] nests_under(rows, r, j) && parent_coordinate_of(rows[r].task) == Some(
                    coordinate_of(rows[j].task),
                );
            assert(more[j] == rows[j]);
            assert forall|k: int| j < k < r implies #[trigger] more[k].depth >= more[r].depth by {
                assert(more[k] == rows[k]);
                assert(rows[k].depth >= rows[r].depth);
            }
            assert(nests_under(more, r, j));
        }
    }
}

/// Marks every member at the coordinate of `node` as emitted.
fn mark_coordinate(tasks: &Vec<TaskListItem>, members: &Vec<usize>, node: usize, emitted: &mut Vec<bool>)
    requires
        node < members.len(),
        old(emitted).len() == members.len(),
        forall|k: int| 0 <= k < members.len() ==> #[trigger] members[k] < tasks.len(),
    ensures
        final(emitted).len() == members.len(),
        forall|b: int|
            0 <= b < members.len() ==> #[trigger] final(emitted)[b] == (old(emitted)[b] || coordinate_of(
                tasks@[members[b] as int]@,
            ) == coordinate_of(tasks@[members[node as int] as int]@)),
{
    let mut b: usize = 0;
    while b < members.len()
        invariant
            node < members.len(),
            b <= members.len(),
            emitted.len() == members.len(),
            forall|k: int| 0 <= k < members.len() ==> #[trigger] members[k] < tasks.len(),
            forall|c: int|
                0 <= c < members.len() ==> #[trigger] emitted[c] == (old(emitted)[c] || (c < b
                    && coordinate_of(tasks@[members[c] as int]@) == coordinate_of(
                    tasks@[members[node as int] as int]@,
                ))),
        decreases members.len() - b,
    {
        if same_coordinate(&tasks[members[b]], &tasks[members[node]]) {
            emitted.set(b, true);
        }
        b = b + 1;
    }
}

/// Emits the row of `node` and, beneath it, the rows of its kids, unless a row at its coordinate
/// is emitted already.
#[verifier::rlimit(80)]
fn emit_row(
    tasks: &Vec<TaskListItem>,
    Ghost(status): Ghost<Option<Status>>,
    members: &Vec<usize>,
    kids: &Vec<Vec<usize>>,
    node: usize,
    depth: usize,
    shows_parent: bool,
    emitted: &mut Vec<bool>,
    rows: &mut Vec<BoardRow>,
)
    requires
        shows_parent == (depth == 0 && !has_group_parent(items_of(tasks), status, items_of(tasks)[members[node as int] as int])),
        forest_fits(items_of(tasks), status, members@, seqs_of(kids)),
        forall|k: int| 0 <= k < members.len() ==> #[trigger] members[k] < tasks.len(),
        node < members.len(),
        emitted_matches(items_of(tasks), members@, old(emitted)@, rows_of(old(rows))),
        rows_fit(items_of(tasks), status, rows_of(old(rows))),
        depth <= count_true(old(emitted)@),
        depth == 0 || exists|p: int|
            0 <= p < old(rows).len() && rows_of(old(rows))[p].depth + 1 == depth
                && parent_coordinate_of(tasks@[members[node as int] as int]@) == Some(
                coordinate_of(rows_of(old(rows))[p].task),
            ) && forall|k: int| p < k < old(rows).len() ==> #[trigger] rows_of(old(rows))[k].depth >= depth,
    ensures
        final(emitted).len() == members.len(),
        final(rows).len() >= old(rows).len(),
        rows_of(final(rows)).take(old(rows).len() as int) == rows_of(old(rows)),
        forall|k: int| old(rows).len() <= k < final(rows).len() ==> #[trigger] rows_of(final(rows))[k].depth >= depth,
        emitted_matches(items_of(tasks), members@, final(emitted)@, rows_of(final(rows))),
        rows_fit(items_of(tasks), status, rows_of(final(rows))),
        final(emitted)[node as int],
        forall|b: int| 0 <= b < members.len() && old(emitted)[b] ==> #[trigger] final(emitted)[b],
        count_true(final(emitted)@) >= count_true(old(emitted)@),
        final(rows).len() > old(rows).len() ==> rows_of(final(rows))[old(rows).len() as int].depth == depth
            && rows_of(final(rows))[old(rows).len() as int].task == items_of(tasks)[members[node as int] as int],
        forall|k: int| old(rows).len() < k < final(rows).len() ==> #[trigger] rows_of(final(rows))[k].depth > depth,
        group_preorder(items_of(tasks), status) ==> siblings_from(rows_of(final(rows)), old(rows).len() as int),
        group_unique(items_of(tasks), status) ==> placed_from(
            items_of(tasks),
            status,
            rows_of(final(rows)),
            old(rows).len() as int,
            final(rows).len() as int,
        ),
    decreases members.len() - count_true(old(emitted)@),
{
    let ghost ts = items_of(tasks);
    if emitted[node] {
        proof {
            assert(rows_of(rows).take(rows.len() as int) =~= rows_of(rows));
            reveal(siblings_from);
            reveal(placed_from);
        }
        return;
    }
    let ghost emitted_before = emitted@;
    let ghost rows_before = rows_of(rows);
    mark_coordinate(tasks, members, node, emitted);
    proof {
        lemma_count_true_grow(emitted_before, emitted@, node as int);
        lemma_count_true_bound(emitted@);
    }
    let task = &tasks[members[node]];
    let kid_list = &kids[node];
    let has_children = kid_list.len() > 0;
    let parent_title = if shows_parent {
        parent_title_of(tasks, task)
    } else {
        None
    };
    let row = BoardRow { task: task.clone(), depth, has_children, parent_title };
    let at = rows.len();
    rows.push(row);
    proof {
        assert(rows_of(rows) =~= rows_before.push(row@));
        assert(rows_of(rows).take(rows_before.len() as int) =~= rows_before);
        lemma_fits_extend(ts, status, rows_before, rows_of(rows));
        assert(seqs_of(kids)[node as int] == kid_list@);
        assert(rows_of(rows)[at as int] == row@);
        assert(row@.task == task@);
        assert(ts[members[node as int] as int] == task@);
        assert(member_of(ts, status, members[node as int] as int));
        if depth > 0 {
            let p = choose|p: int|
                0 <= p < rows_before.len() && rows_before[p].depth + 1 == depth
                    && parent_coordinate_of(tasks@[members[node as int] as int]@) == Some(
                    coordinate_of(rows_before[p].task),
                ) && forall|k: int| p < k < rows_before.len() ==> #[trigger] rows_before[k].depth >= depth;
            assert(nests_under(rows_of(rows), at as int, p));
        }
        assert(row_fits(ts, status, rows_of(rows), at as int));
        assert forall|r: int| 0 <= r < at implies coordinate_of(rows_of(rows)[r].task) != coordinate_of(task@) by {
            if coordinate_of(rows_of(rows)[r].task) == coordinate_of(task@) {
                assert(emitted_before[node as int]);
            }
        }
        assert(heads_ok(rows_of(rows), at as int, depth as int, ts, members@, kid_list@, 0)) by {
            reveal(heads_ok);
        }
        if group_preorder(ts, status) {
            assert(in_board_order(ts, members@, seqs_of(kids)[node as int]));
            assert(siblings_from(rows_of(rows), at as int)) by {
                reveal(siblings_from);
            }
        }
        assert(placed_from(ts, status, rows_of(rows), at + 1, rows.len() as int)) by {
            reveal(placed_from);
        }
    }
    let mut k: usize = 0;
    while k < kid_list.len()
        invariant
            forest_fits(ts, status, members@, seqs_of(kids)),
            ts == items_of(tasks),
            forall|j: int| 0 <= j < members.len() ==> #[trigger] members[j] < tasks.len(),
            node < members.len(),
            kid_list@ == kids[node as int]@,
            k <= kid_list.len(),
            at < rows.len(),
            rows_of(rows)[at as int].depth == depth,
            rows_of(rows)[at as int].task == ts[members[node as int] as int],
            coordinate_of(rows_of(rows)[at as int].task) == coordinate_of(ts[members[node as int] as int]),
            rows_of(rows).take(at as int) == rows_before,
            forall|j: int| at < j < rows.len() ==> #[trigger] rows_of(rows)[j].depth >= depth + 1,
            emitted_matches(ts, members@, emitted@, rows_of(rows)),
            rows_fit(ts, status, rows_of(rows)),
            emitted[node as int],
            forall|b: int| 0 <= b < members.len() && emitted_before[b] ==> #[trigger] emitted[b],
            emitted_before == old(emitted)@,
            count_true(emitted@) > count_true(emitted_before),
            count_true(emitted@) <= members.len(),
            emitted.len() == members.len(),
            depth < count_true(emitted@),
            heads_ok(rows_of(rows), at as int, depth as int, ts, members@, kid_list@, k as int),
            group_preorder(ts, status) ==> siblings_from(rows_of(rows), at as int),
            group_preorder(ts, status) ==> in_board_order(ts, members@, kid_list@),
            group_unique(ts, status) ==> placed_from(ts, status, rows_of(rows), at + 1, rows.len() as int),
            group_unique(ts, status) ==> forall|kk: int|
                0 <= kk < k ==> placed_at(rows_of(rows), at as int, coordinate_of(ts[members[#[trigger] kid_list@[kk] as int] as int])),
        decreases kid_list.len() - k,
    {
        let kid = kid_list[k];
        proof {
            assert(seqs_of(kids)[node as int] == kid_list@);
            assert(kid == seqs_of(kids)[node as int][k as int]);
            assert(kid < members.len());
            assert(parent_coordinate_of(ts[members[kid as int] as int]) == Some(
                coordinate_of(ts[members[node as int] as int]),
            ));
        }
        let ghost rows_now = rows_of(rows);
        let ghost emitted_now = emitted@;
        emit_row(tasks, Ghost(status), members, kids, kid, depth + 1, false, emitted, rows);
        proof {
            assert(rows_of(rows).take(at as int) =~= rows_of(rows).take(rows_now.len() as int).take(at as int));
            assert forall|j: int| at < j < rows.len() implies #[trigger] rows_of(rows)[j].depth >= depth + 1 by {
                if j < rows_now.len() {
                    assert(rows_of(rows)[j] == rows_now.take(rows_now.len() as int)[j]);
                }
            }
            assert(rows_of(rows)[at as int] == rows_now[at as int]);
            lemma_count_true_bound(emitted@);
            assert(kid_list@[k as int] == kid);
            lemma_heads_after(ts, members@, kid_list@, k as int, rows_now, rows_of(rows), at as int, depth as int);
            if group_preorder(ts, status) {
                lemma_siblings_after(ts, members@, kid_list@, k as int, rows_now, rows_of(rows), at as int, depth as int);
            }
            if group_unique(ts, status) {
                let now = rows_of(rows);
                assert(now.take(rows_now.len() as int) == rows_now);
                lemma_placed_from_extend(ts, status, rows_now, now, at + 1, rows_now.len() as int);
                lemma_placed_from_join(ts, status, now, at + 1, rows_now.len() as int, rows.len() as int);
                assert forall|kk: int|
                    0 <= kk < k + 1 implies placed_at(now, at as int, coordinate_of(ts[members[#[trigger] kid_list@[kk] as int] as int])) by {
                    if kk < k {
                        lemma_placed_at_extend(rows_now, now, at as int, coordinate_of(ts[members[kid_list@[kk] as int] as int]));
                    } else {
                        assert(emitted@[kid as int]);
                        let r = choose|r: int|
                            0 <= r < now.len() && coordinate_of(now[r].task) == coordinate_of(ts[members[kid as int] as int]);
                        assert(member_of(ts, status, members[kid as int] as int));
                        lemma_kid_placed(ts, status, now, at as int, depth as int, members[kid as int] as int);
                    }
                }
            }
        }
        k = k + 1;
    }
    proof {
        assert(rows_of(rows).take(rows_before.len() as int) =~= rows_before);
        if group_unique(ts, status) {
            let now = rows_of(rows);
            assert(kids_placed(ts, status, now, at as int)) by {
                reveal(kids_placed);
                assert forall|i: int|
                    #[trigger] member_of(ts, status, i) && parent_coordinate_of(ts[i]) == Some(coordinate_of(now[at as int].task))
                        implies placed_at(now, at as int, coordinate_of(ts[i])) by {
                    let b = choose|b: int| 0 <= b < members.len() && members@[b] == i as usize;
                    assert(seqs_of(kids)[node as int] == kid_list@);
                    assert(seqs_of(kids)[node as int].contains(b as usize));
                    let kk = choose|kk: int| 0 <= kk < kid_list@.len() && kid_list@[kk] == b as usize;
                    assert(placed_at(now, at as int, coordinate_of(ts[members[kid_list@[kk] as int] as int])));
                }
            }
            assert(placed_from(ts, status, now, at as int, at + 1)) by {
                reveal(placed_from);
            }
            lemma_placed_from_join(ts, status, now, at as int, at + 1, rows.len() as int);
        }
    }
}

/// The board order of the member positions `list` names, read through the tasks.
pub open spec fn board_order_of(tasks: &Vec<TaskListItem>, members: &Vec<usize>, list: &Vec<usize>) -> spec_fn(usize, usize) -> Ordering {
    |a: usize, b: usize|
        board_order(
            tasks@[members@[list@[a + 0int] + 0int] + 0int],
            tasks@[members@[list@[b + 0int] + 0int] + 0int],
        )
}

/// The member positions `list` names come in board order, as far as the group's order is a total
/// preorder.
pub open spec fn in_board_order(tasks: Seq<ItemView>, members: Seq<usize>, list: Seq<usize>) -> bool {
    forall|i: int, k: int|
        0 <= i < k < list.len() ==> board_item_order(
            tasks[members[#[trigger] list[i] + 0int] + 0int],
            tasks[members[#[trigger] list[k] + 0int] + 0int],
        ) != Ordering::Greater
}

/// Where the board order is a total preorder on the group, it is one on any list of its members.
proof fn lemma_list_preorder(tasks: &Vec<TaskListItem>, status: Option<Status>, members: &Vec<usize>, list: &Vec<usize>)
    requires
        group_preorder(items_of(tasks), status),
        forall|k: int| 0 <= k < members.len() ==> member_of(items_of(tasks), status, #[trigger] members[k] + 0int),
        forall|k: int| 0 <= k < list.len() ==> #[trigger] list[k] < members.len(),
    ensures
        preorder_on(board_order_of(tasks, members, list), list.len() + 0int),
{
    let ts = items_of(tasks);
    let ord = board_order_of(tasks, members, list);
    let n = list.len();
    assert forall|a: usize, b: usize| a < n && b < n implies #[trigger] ord(a, b) == flip(ord(b, a)) by {
        let x = members[list[a + 0int] + 0int] + 0int;
        let y = members[list[b + 0int] + 0int] + 0int;
        assert(member_of(ts, status, x));
        assert(member_of(ts, status, y));
        lemma_board_order_view(tasks@[x], tasks@[y]);
        lemma_board_order_view(tasks@[y], tasks@[x]);
        assert(board_item_order(ts[x], ts[y]) == flip(board_item_order(ts[y], ts[x])));
    }
    assert forall|a: usize, b: usize, c: usize|
        a < n && b < n && c < n && #[trigger] ord(a, b) != Ordering::Greater && #[trigger] ord(b, c)
            != Ordering::Greater implies ord(a, c) != Ordering::Greater by {
        let x = members[list[a + 0int] + 0int] + 0int;
        let y = members[list[b + 0int] + 0int] + 0int;
        let z = members[list[c + 0int] + 0int] + 0int;
        assert(member_of(ts, status, x));
        assert(member_of(ts, status, y));
        assert(member_of(ts, status, z));
        lemma_board_order_view(tasks@[x], tasks@[y]);
        lemma_board_order_view(tasks@[y], tasks@[z]);
        lemma_board_order_view(tasks@[x], tasks@[z]);
        assert(board_item_order(ts[x], ts[y]) != Ordering::Greater);
        assert(board_item_order(ts[y], ts[z]) != Ordering::Greater);
    }
}

/// A list sorted by the board order of its members is in board order.
proof fn lemma_sorted_in_order(tasks: &Vec<TaskListItem>, members: &Vec<usize>, list: &Vec<usize>, order: Seq<usize>, out: Seq<usize>)
    requires
        forall|k: int| 0 <= k < members.len() ==> #[trigger] members[k] < tasks.len(),
        forall|k: int| 0 <= k < list.len() ==> #[trigger] list[k] < members.len(),
        is_permutation(order, list.len() + 0int),
        out.len() == list.len(),
        forall|k: int| 0 <= k < out.len() ==> #[trigger] out[k] == list@[order[k] + 0int],
        sorted_by(order, board_order_of(tasks, members, list)),
    ensures
        in_board_order(items_of(tasks), members@, out),
{
    let ts = items_of(tasks);
    assert forall|i: int, k: int| 0 <= i < k < out.len() implies board_item_order(
        ts[members[#[trigger] out[i] + 0int] + 0int],
        ts[members[#[trigger] out[k] + 0int] + 0int],
    ) != Ordering::Greater by {
        assert(board_order_of(tasks, members, list)(order[i], order[k]) != Ordering::Greater);
        let x = members[out[i] + 0int] + 0int;
        let y = members[out[k] + 0int] + 0int;
        lemma_board_order_view(tasks@[x], tasks@[y]);
    }
}

/// `list`, member positions, in board order; ties keep the order they came in.
fn sort_by_board(tasks: &Vec<TaskListItem>, Ghost(status): Ghost<Option<Status>>, members: &Vec<usize>, list: &Vec<usize>) -> (out: Vec<usize>)
    requires
        forall|k: int| 0 <= k < members.len() ==> #[trigger] members[k] < tasks.len(),
        forall|k: int| 0 <= k < members.len() ==> member_of(items_of(tasks), status, #[trigger] members[k] + 0int),
        forall|k: int| 0 <= k < list.len() ==> #[trigger] list[k] < members.len(),
    ensures
        group_preorder(items_of(tasks), status) ==> in_board_order(items_of(tasks), members@, out@),
        out.len() == list.len(),
        forall|k: int| 0 <= k < out.len() ==> list@.contains(#[trigger] out[k]),
        forall|k: int| 0 <= k < list.len() ==> out@.contains(#[trigger] list[k]),
        exists|order: Seq<usize>|
            {
                &&& is_permutation(order, list.len() + 0int)
                &&& forall|k: int| 0 <= k < out.len() ==> #[trigger] out[k] == list@[order[k] + 0int]
                &&& preorder_on(board_order_of(tasks, members, list), list.len() + 0int) ==> sorted_by(
                    order,
                    board_order_of(tasks, members, list),
                ) && stable_by(order, board_order_of(tasks, members, list))
            },
{
    let n = list.len();
    let ghost ord = board_order_of(tasks, members, list);
    let less = |a: usize, b: usize| -> (r: bool)
        requires
            a < list.len(),
            b < list.len(),
            forall|k: int| 0 <= k < members.len() ==> #[trigger] members[k] < tasks.len(),
            forall|k: int| 0 <= k < list.len() ==> #[trigger] list[k] < members.len(),
        ensures
            r == (board_order_of(tasks, members, list)(a, b) == Ordering::Less),
        {
            let x = &tasks[members[list[a]]];
            let y = &tasks[members[list[b]]];
            match board_cmp(x, y) {
                Ordering::Less => true,
                _ => false,
            }
        };
    let order = sort_positions(n, less, Ghost(ord));
    let mut out: Vec<usize> = Vec::new();
    let mut k: usize = 0;
    while k < n
        invariant
            n == list.len(),
            is_permutation(order@, n + 0int),
            k <= n,
            out.len() == k,
            forall|j: int| 0 <= j < k ==> #[trigger] out[j] == list@[order@[j] + 0int],
        decreases n - k,
    {
        out.push(list[order[k]]);
        k = k + 1;
    }
    proof {
        assert forall|j: int| 0 <= j < out.len() implies list@.contains(#[trigger] out[j]) by {
            assert(out[j] == list@[order@[j] + 0int]);
        }
        assert forall|j: int| 0 <= j < list.len() implies out@.contains(#[trigger] list[j]) by {
            lemma_permutation_covers(order@, n + 0int, j);
            let i = choose|i: int| 0 <= i < order@.len() && order@[i] == j;
            assert(out@[i] == list[j]);
        }
        if group_preorder(items_of(tasks), status) {
            lemma_list_preorder(tasks, status, members, list);
            lemma_sorted_in_order(tasks, members, list, order@, out@);
        }
    }
    out
}

/// The member positions of the tasks that name the member at `parent` as theirs, in board order.
fn kids_of(tasks: &Vec<TaskListItem>, Ghost(status): Ghost<Option<Status>>, members: &Vec<usize>, parent: usize) -> (kids: Vec<usize>)
    requires
        forall|k: int| 0 <= k < members.len() ==> #[trigger] members[k] < tasks.len(),
        forall|k: int| 0 <= k < members.len() ==> member_of(items_of(tasks), status, #[trigger] members[k] as int),
        parent < members.len(),
    ensures
        group_preorder(items_of(tasks), status) ==> in_board_order(items_of(tasks), members@, kids@),
        forall|k: int| 0 <= k < kids.len() ==> #[trigger] kids[k] < members.len()
            && parent_coordinate_of(tasks@[members[kids[k] as int] as int]@) == Some(
            coordinate_of(tasks@[members[parent as int] as int]@),
        ),
        kids.len() > 0 <==> exists|b: int|
            0 <= b < members.len() && #[trigger] parent_coordinate_of(tasks@[members[b] as int]@) == Some(
                coordinate_of(tasks@[members[parent as int] as int]@),
            ),
        forall|b: int|
            0 <= b < members.len() && #[trigger] parent_coordinate_of(tasks@[members[b] as int]@) == Some(
                coordinate_of(tasks@[members[parent as int] as int]@),
            ) ==> kids@.contains(b as usize),
{
    let ghost c = coordinate_of(tasks@[members[parent as int] as int]@);
    let mut list: Vec<usize> = Vec::new();
    let mut b: usize = 0;
    while b < members.len()
        invariant
            forall|k: int| 0 <= k < members.len() ==> #[trigger] members[k] < tasks.len(),
            parent < members.len(),
            c == coordinate_of(tasks@[members[parent as int] as int]@),
            b <= members.len(),
            forall|k: int| 0 <= k < list.len() ==> #[trigger] list[k] < b
                && parent_coordinate_of(tasks@[members[list[k] as int] as int]@) == Some(c),
            list.len() > 0 <==> exists|x: int|
                0 <= x < b && #[trigger] parent_coordinate_of(tasks@[members[x] as int]@) == Some(c),
            forall|x: int|
                0 <= x < b && #[trigger] parent_coordinate_of(tasks@[members[x] as int]@) == Some(c) ==> list@.contains(
                    x as usize,
                ),
        decreases members.len() - b,
    {
        let ghost before = list@;
        if names_as_parent(&tasks[members[b]], &tasks[members[parent]]) {
            list.push(b);
            proof {
                assert(list@[list.len() - 1] == b);
            }
        }
        proof {
            assert forall|x: int|
                0 <= x < b + 1 && #[trigger] parent_coordinate_of(tasks@[members[x] as int]@) == Some(c) implies list@.contains(
                    x as usize,
                ) by {
                if x < b {
                    let w = choose|w: int| 0 <= w < before.len() && before[w] == x as usize;
                    assert(list@[w] == x as usize);
                }
            }
        }
        b = b + 1;
    }
    let kids = sort_by_board(tasks, Ghost(status), members, &list);
    proof {
        assert forall|k: int| 0 <= k < kids.len() implies #[trigger] kids[k] < members.len()
            && parent_coordinate_of(tasks@[members[kids[k] as int] as int]@) == Some(c) by {
            assert(list@.contains(kids[k]));
        }
        assert forall|b: int|
            0 <= b < members.len() && #[trigger] parent_coordinate_of(tasks@[members[b] as int]@) == Some(c) implies kids@.contains(
                b as usize,
            ) by {
            let w = choose|w: int| 0 <= w < list.len() && list@[w] == b as usize;
            assert(kids@.contains(list[w]));
        }
    }
    kids
}

/// Whether the member at `b` names as parent a task of the group.
fn parent_in_group(tasks: &Vec<TaskListItem>, members: &Vec<usize>, b: usize) -> (found: bool)
    requires
        forall|k: int| 0 <= k < members.len() ==> #[trigger] members[k] < tasks.len(),
        b < members.len(),
    ensures
        found == exists|a: int|
            0 <= a < members.len() && parent_coordinate_of(tasks@[members[b as int] as int]@) == Some(
                coordinate_of(#[trigger] tasks@[members[a] as int]@),
            ),
{
    let mut a: usize = 0;
    while a < members.len()
        invariant
            forall|k: int| 0 <= k < members.len() ==> #[trigger] members[k] < tasks.len(),
            b < members.len(),
            a <= members.len(),
            forall|x: int|
                0 <= x < a ==> parent_coordinate_of(tasks@[members[b as int] as int]@) != Some(
                    coordinate_of(#[trigger] tasks@[members[x] as int]@),
                ),
        decreases members.len() - a,
    {
        if names_as_parent(&tasks[members[b]], &tasks[members[a]]) {
            return true;
        }
        a = a + 1;
    }
    false
}

/// The rows of the group of `status`: each group-local root in board order with its subtree
/// beneath it, children in board order; a member trapped in a parent cycle, which no root
/// reaches, still appears once, as a root.
#[verifier::rlimit(40)]
fn group_rows(tasks: &Vec<TaskListItem>, Ghost(status): Ghost<Option<Status>>, members: &Vec<usize>) -> (rows: Vec<BoardRow>)
    requires
        forall|k: int| 0 <= k < members.len() ==> member_of(items_of(tasks), status, #[trigger] members[k] as int),
        forall|i: int| #[trigger] member_of(items_of(tasks), status, i) ==> members@.contains(i as usize),
    ensures
        group_fits(items_of(tasks), status, rows_of(&rows)),
        group_preorder(items_of(tasks), status) ==> siblings_from(rows_of(&rows), 0),
        roots_ordered(items_of(tasks), status, rows_of(&rows)),
        group_unique(items_of(tasks), status) ==> placed_from(items_of(tasks), status, rows_of(&rows), 0, rows.len() as int),
{
    let ghost ts = items_of(tasks);
    let m = members.len();
    proof {
        assert forall|k: int| 0 <= k < m implies #[trigger] members[k] < tasks.len() by {
            assert(member_of(ts, status, members[k] as int));
        }
    }
    let mut kids: Vec<Vec<usize>> = Vec::new();
    let mut a: usize = 0;
    while a < m
        invariant
            ts == items_of(tasks),
            m == members.len(),
            forall|k: int| 0 <= k < m ==> #[trigger] members[k] < tasks.len(),
            forall|k: int| 0 <= k < members.len() ==> member_of(ts, status, #[trigger] members[k] as int),
            forall|i: int| #[trigger] member_of(ts, status, i) ==> members@.contains(i as usize),
            a <= m,
            kids.len() == a,
            forall|x: int, k: int|
                0 <= x < a && 0 <= k < kids[x].len() ==> #[trigger] kids[x][k] < members.len()
                    && parent_coordinate_of(ts[members[kids[x][k] as int] as int]) == Some(
                    coordinate_of(ts[members[x] as int]),
                ),
            forall|x: int|
                0 <= x < a ==> ((#[trigger] kids[x]).len() > 0 <==> holds_children(
                    ts,
                    status,
                    coordinate_of(ts[members[x] as int]),
                )),
            group_preorder(ts, status) ==> forall|x: int| 0 <= x < a ==> in_board_order(ts, members@, (#[trigger] kids[x])@),
            forall|x: int, b: int|
                #![trigger kids[x]@.contains(b as usize)]
                0 <= x < a && 0 <= b < m && parent_coordinate_of(ts[members[b] as int]) == Some(
                    coordinate_of(ts[members[x] as int]),
                ) ==> kids[x]@.contains(b as usize),
        decreases m - a,
    {
        let list = kids_of(tasks, Ghost(status), members, a);
        proof {
            let c = coordinate_of(ts[members[a as int] as int]);
            if holds_children(ts, status, c) {
                let i = choose|i: int| #[trigger] member_of(ts, status, i) && parent_coordinate_of(ts[i]) == Some(c);
                let b = choose|b: int| 0 <= b < members.len() && members[b] == i as usize;
                assert(parent_coordinate_of(tasks@[members[b] as int]@) == Some(c));
            }
            if list.len() > 0 {
                let b = choose|b: int|
                    0 <= b < members.len() && #[trigger] parent_coordinate_of(tasks@[members[b] as int]@) == Some(c);
                assert(member_of(ts, status, members[b] as int));
            }
        }
        let ghost kids_before = kids@;
        kids.push(list);
        proof {
            assert forall|x: int, b: int|
                #![trigger kids[x]@.contains(b as usize)]
                0 <= x < a + 1 && 0 <= b < m && parent_coordinate_of(ts[members[b] as int]) == Some(
                    coordinate_of(ts[members[x] as int]),
                ) implies kids[x]@.contains(b as usize) by {
                if x < a {
                    assert(kids[x] == kids_before[x]);
                } else {
                    assert(parent_coordinate_of(tasks@[members[b] as int]@) == Some(
                        coordinate_of(tasks@[members[a as int] as int]@),
                    ));
                }
            }
        }
        a = a + 1;
    }
    proof {
        assert forall|x: int, b: int|
            #![trigger seqs_of(&kids)[x].contains(b as usize)]
            0 <= x < seqs_of(&kids).len() && 0 <= b < m && parent_coordinate_of(ts[members[b] as int]) == Some(
                coordinate_of(ts[members[x] as int]),
            ) implies seqs_of(&kids)[x].contains(b as usize) by {
            assert(seqs_of(&kids)[x] == kids[x]@);
            assert(kids[x]@.contains(b as usize));
        }
        if group_preorder(ts, status) {
            assert forall|x: int| 0 <= x < seqs_of(&kids).len() implies in_board_order(ts, members@, #[trigger] seqs_of(&kids)[x]) by {
                assert(seqs_of(&kids)[x] == kids[x]@);
            }
        }
        assert(forest_fits(ts, status, members@, seqs_of(&kids)));
    }
    let mut roots: Vec<usize> = Vec::new();
    let mut b: usize = 0;
    while b < m
        invariant
            ts == items_of(tasks),
            m == members.len(),
            forall|k: int| 0 <= k < m ==> #[trigger] members[k] < tasks.len(),
            forall|k: int| 0 <= k < members.len() ==> member_of(ts, status, #[trigger] members[k] as int),
            forall|i: int| #[trigger] member_of(ts, status, i) ==> members@.contains(i as usize),
            b <= m,
            forall|k: int| 0 <= k < roots.len() ==> #[trigger] roots[k] < m
                && !has_group_parent(ts, status, ts[members[roots[k] as int] as int]),
            forall|x: int| 0 <= x < b && !has_group_parent(ts, status, ts[members[x] as int]) ==> roots@.contains(
                x as usize,
            ),
        decreases m - b,
    {
        let found = parent_in_group(tasks, members, b);
        proof {
            let t = ts[members[b as int] as int];
            if found {
                let a = choose|a: int|
                    0 <= a < members.len() && parent_coordinate_of(tasks@[members[b as int] as int]@) == Some(
                        coordinate_of(#[trigger] tasks@[members[a] as int]@),
                    );
                assert(member_of(ts, status, members[a] as int));
            } else if has_group_parent(ts, status, t) {
                let i = choose|i: int| #[trigger] member_of(ts, status, i) && parent_coordinate_of(t) == Some(coordinate_of(ts[i]));
                let a = choose|a: int| 0 <= a < members.len() && members[a] == i as usize;
                assert(parent_coordinate_of(tasks@[members[b as int] as int]@) == Some(
                    coordinate_of(tasks@[members[a] as int]@),
                ));
            }
        }
        let ghost roots_before = roots@;
        if !found {
            roots.push(b);
            proof {
                assert(roots@[roots.len() - 1] == b);
            }
        }
        proof {
            assert forall|x: int| 0 <= x < b + 1 && !has_group_parent(ts, status, ts[members[x] as int]) implies roots@.contains(
                x as usize,
            ) by {
                if x < b {
                    let i = choose|i: int| 0 <= i < roots_before.len() && roots_before[i] == x as usize;
                    assert(roots@[i] == x as usize);
                }
            }
        }
        b = b + 1;
    }
    let roots = sort_by_board(tasks, Ghost(status), members, &roots);
    let mut emitted = falses(m);
    let mut rows: Vec<BoardRow> = Vec::new();
    proof {
        lemma_count_none_true(m as nat);
        assert(rows_of(&rows) =~= Seq::<RowView>::empty());
        reveal(siblings_from);
        reveal(placed_from);
    }
    let mut k: usize = 0;
    while k < roots.len()
        invariant
            ts == items_of(tasks),
            m == members.len(),
            forest_fits(ts, status, members@, seqs_of(&kids)),
            forall|j: int| 0 <= j < m ==> #[trigger] members[j] < tasks.len(),
            forall|j: int| 0 <= j < roots.len() ==> #[trigger] roots[j] < m
                && !has_group_parent(ts, status, ts[members[roots[j] as int] as int]),
            group_preorder(ts, status) ==> in_board_order(ts, members@, roots@),
            k <= roots.len(),
            emitted_matches(ts, members@, emitted@, rows_of(&rows)),
            rows_fit(ts, status, rows_of(&rows)),
            group_preorder(ts, status) ==> siblings_from(rows_of(&rows), 0),
            forall|j: int| 0 <= j < k ==> #[trigger] emitted@[roots[j] as int],
            forall|r: int|
                0 <= r < rows.len() && (#[trigger] rows_of(&rows)[r]).depth == 0 ==> exists|j: int|
                    0 <= j < k && rows_of(&rows)[r].task == ts[members[#[trigger] roots[j] as int] as int],
            roots_ordered(ts, status, rows_of(&rows)),
            group_unique(ts, status) ==> placed_from(ts, status, rows_of(&rows), 0, rows.len() as int),
        decreases roots.len() - k,
    {
        let root = roots[k];
        let ghost before = rows_of(&rows);
        let ghost emitted_before = emitted@;
        let ghost task = ts[members[root as int] as int];
        emit_row(tasks, Ghost(status), members, &kids, root, 0, true, &mut emitted, &mut rows);
        proof {
            let after = rows_of(&rows);
            let s = before.len() as int;
            if group_preorder(ts, status) {
                lemma_root_after(before, after);
            }
            assert forall|r: int|
                0 <= r < before.len() && (#[trigger] before[r]).depth == 0 implies may_follow(ts, status, before[r].task, task) by {
                let j = choose|j: int| 0 <= j < k && before[r].task == ts[members[#[trigger] roots[j] as int] as int];
                lemma_root_follows(ts, status, members@, roots@, j, k as int);
            }
            lemma_roots_after(ts, status, task, before, after);
            if group_unique(ts, status) {
                lemma_placed_from_extend(ts, status, before, after, 0, before.len() as int);
                lemma_placed_from_join(ts, status, after, 0, before.len() as int, after.len() as int);
            }
            assert forall|j: int| 0 <= j < k + 1 implies #[trigger] emitted@[roots[j] as int] by {
                if j < k {
                    assert(emitted_before[roots[j] as int]);
                }
            }
            assert forall|r: int|
                0 <= r < after.len() && (#[trigger] after[r]).depth == 0 implies exists|j: int|
                    0 <= j < k + 1 && after[r].task == ts[members[#[trigger] roots[j] as int] as int] by {
                if r < s {
                    assert(after[r] == before[r]);
                    assert(before[r].depth == 0);
                } else {
                    assert(r == s);
                    assert(after[r].task == ts[members[roots[k as int] as int] as int]);
                }
            }
        }
        k = k + 1;
    }
    proof {
        assert forall|x: int| 0 <= x < m && !has_group_parent(ts, status, ts[members[x] as int]) implies #[trigger] emitted@[x] by {
            assert(roots@.contains(x as usize));
            let j = choose|j: int| 0 <= j < roots.len() && roots@[j] == x as usize;
            assert(emitted@[roots[j] as int]);
        }
    }
    let mut b: usize = 0;
    while b < m
        invariant
            ts == items_of(tasks),
            m == members.len(),
            forest_fits(ts, status, members@, seqs_of(&kids)),
            forall|j: int| 0 <= j < m ==> #[trigger] members[j] < tasks.len(),
            b <= m,
            emitted_matches(ts, members@, emitted@, rows_of(&rows)),
            rows_fit(ts, status, rows_of(&rows)),
            forall|j: int| 0 <= j < b ==> #[trigger] emitted@[j],
            group_preorder(ts, status) ==> siblings_from(rows_of(&rows), 0),
            forall|x: int| 0 <= x < m && !has_group_parent(ts, status, ts[members[x] as int]) ==> #[trigger] emitted@[x],
            roots_ordered(ts, status, rows_of(&rows)),
            group_unique(ts, status) ==> placed_from(ts, status, rows_of(&rows), 0, rows.len() as int),
        decreases m - b,
    {
        if !emitted[b] {
            let ghost before = rows_of(&rows);
            let ghost emitted_before = emitted@;
            let ghost task = ts[members[b as int] as int];
            proof {
                assert(has_group_parent(ts, status, task));
            }
            emit_row(tasks, Ghost(status), members, &kids, b, 0, false, &mut emitted, &mut rows);
            proof {
                if group_preorder(ts, status) {
                    lemma_root_after(before, rows_of(&rows));
                }
                lemma_roots_after(ts, status, task, before, rows_of(&rows));
                if group_unique(ts, status) {
                    lemma_placed_from_extend(ts, status, before, rows_of(&rows), 0, before.len() as int);
                    lemma_placed_from_join(ts, status, rows_of(&rows), 0, before.len() as int, rows.len() as int);
                }
                assert forall|x: int| 0 <= x < m && !has_group_parent(ts, status, ts[members[x] as int]) implies #[trigger] emitted@[x] by {
                    assert(emitted_before[x]);
                }
            }
        }
        b = b + 1;
    }
    proof {
        assert forall|i: int| #[trigger] member_of(ts, status, i) implies exists|r: int|
            0 <= r < rows_of(&rows).len() && coordinate_of(rows_of(&rows)[r].task) == coordinate_of(ts[i]) by {
            let x = choose|x: int| 0 <= x < members.len() && members[x] == i as usize;
            assert(emitted@[x]);
        }
    }
    rows
}

/// Which statuses the board shows groups for, in the order of `board_statuses`.
fn board_status_at(k: usize) -> (status: Option<Status>)
    requires
        k < 7,
    ensures
        status == board_statuses()[k as int],
{
    match k {
        0 => None,
        1 => Some(Status::InReview),
        2 => Some(Status::InProgress),
        3 => Some(Status::Todo),
        4 => Some(Status::Backlog),
        5 => Some(Status::Done),
        _ => Some(Status::Cancelled),
    }
}

impl Board {
    /// The whole task set arranged for the list view: one group per status that has tasks, in
    /// the order unreadable, in review, in progress, todo, backlog, done, cancelled. A task always
    /// lands in its own status group; within a group it nests under its parent only when the
    /// parent shares that status, otherwise it is a group-local root. Group-local roots come first,
    /// in board order, each followed by its subtree with the children of every row in board order;
    /// a member trapped in a parent cycle, which no root reaches, follows them once, as a root.
    /// Where no two tasks of a group sit at one coordinate, every task of the group whose parent
    /// is in the group has its row nested directly under its parent's row, or before it.
    pub fn build(tasks: &Vec<TaskListItem>) -> (board: Board)
        ensures
            board.groups.len() == shown_statuses(items_of(tasks), 7).len(),
            forall|g: int| 0 <= g < board.groups.len() ==> {
                &&& (#[trigger] board.groups[g]).status == shown_statuses(items_of(tasks), 7)[g]
                &&& group_fits(items_of(tasks), board.groups[g].status, rows_of(&board.groups[g].rows))
                &&& group_preorder(items_of(tasks), board.groups[g].status) ==> siblings_from(rows_of(&board.groups[g].rows), 0)
                &&& roots_ordered(items_of(tasks), board.groups[g].status, rows_of(&board.groups[g].rows))
                &&& group_unique(items_of(tasks), board.groups[g].status) ==> placed_from(
                    items_of(tasks),
                    board.groups[g].status,
                    rows_of(&board.groups[g].rows),
                    0,
                    board.groups[g].rows.len() as int,
                )
            },
    {
        let ghost ts = items_of(tasks);
        let mut groups: Vec<BoardGroup> = Vec::new();
        let mut k: usize = 0;
        while k < 7
            invariant
                ts == items_of(tasks),
                k <= 7,
                groups.len() == shown_statuses(ts, k as int).len(),
                forall|g: int| 0 <= g < groups.len() ==> {
                    &&& (#[trigger] groups[g]).status == shown_statuses(ts, k as int)[g]
                    &&& group_fits(ts, groups[g].status, rows_of(&groups[g].rows))
                    &&& group_preorder(ts, groups[g].status) ==> siblings_from(rows_of(&groups[g].rows), 0)
                    &&& roots_ordered(ts, groups[g].status, rows_of(&groups[g].rows))
                    &&& group_unique(ts, groups[g].status) ==> placed_from(
                        ts,
                        groups[g].status,
                        rows_of(&groups[g].rows),
                        0,
                        groups[g].rows.len() as int,
                    )
                },
            decreases 7 - k,
        {
            let status = board_status_at(k);
            let members = members_with(tasks, status);
            if members.len() > 0 {
                proof {
                    assert(member_of(ts, status, members[0] as int));
                }
                let rows = group_rows(tasks, Ghost(status), &members);
                groups.push(BoardGroup { status, rows });
            } else {
                proof {
                    if has_members(ts, status) {
                        let i = choose|i: int| #[trigger] member_of(ts, status, i);
                        assert(members@.contains(i as usize));
                    }
                }
            }
            k = k + 1;
        }
        Board { groups }
    }
}


/// The place of a status in the board order.
pub open spec fn board_place(status: Option<Status>) -> int {
    match status {
        None => 0,
        Some(Status::InReview) => 1,
        Some(Status::InProgress) => 2,
        Some(Status::Todo) => 3,
        Some(Status::Backlog) => 4,
        Some(Status::Done) => 5,
        Some(Status::Cancelled) => 6,
    }
}

/// The board order names each status once, at its place.
proof fn lemma_board_places()
    ensures
        board_statuses().len() == 7,
        forall|s: Option<Status>| board_statuses()[#[trigger] board_place(s)] == s,
        forall|j: int| 0 <= j < 7 ==> board_place(#[trigger] board_statuses()[j]) == j,
{
    let b = board_statuses();
    assert(b[0] == None::<Status>);
    assert(b[1] == Some(Status::InReview));
    assert(b[2] == Some(Status::InProgress));
    assert(b[3] == Some(Status::Todo));
    assert(b[4] == Some(Status::Backlog));
    assert(b[5] == Some(Status::Done));
    assert(b[6] == Some(Status::Cancelled));
    assert forall|j: int| 0 <= j < 7 implies board_place(#[trigger] b[j]) == j by {
        if j == 0 {
        } else if j == 1 {
        } else if j == 2 {
        } else if j == 3 {
        } else if j == 4 {
        } else if j == 5 {
        } else {
        }
    }
}

/// The statuses shown among the first `k` of the board order: each one of those `k`, each with a
/// task, none twice, and every one of those `k` that some task has.
proof fn lemma_shown_upto(tasks: Seq<ItemView>, k: int)
    requires
        0 <= k <= 7,
    ensures
        forall|x: int| 0 <= x < shown_statuses(tasks, k).len() ==> board_place(#[trigger] shown_statuses(tasks, k)[x]) < k
            && has_members(tasks, shown_statuses(tasks, k)[x]),
        shown_statuses(tasks, k).no_duplicates(),
        forall|x: int, y: int| 0 <= x < y < shown_statuses(tasks, k).len() ==> board_place(#[trigger] shown_statuses(tasks, k)[x])
            < board_place(#[trigger] shown_statuses(tasks, k)[y]),
        forall|j: int| 0 <= j < k && has_members(tasks, #[trigger] board_statuses()[j]) ==> shown_statuses(tasks, k).contains(board_statuses()[j]),
    decreases k,
{
    lemma_board_places();
    if k > 0 {
        lemma_shown_upto(tasks, k - 1);
        let before = shown_statuses(tasks, k - 1);
        let now = shown_statuses(tasks, k);
        let top = board_statuses()[k - 1];
        assert(board_place(top) == k - 1);
        if has_members(tasks, top) {
            assert(now == before.push(top));
            assert(!before.contains(top)) by {
                if before.contains(top) {
                    let x = choose|x: int| 0 <= x < before.len() && before[x] == top;
                    assert(board_place(before[x]) < k - 1);
                }
            }
            assert forall|x: int| 0 <= x < now.len() implies board_place(#[trigger] now[x]) < k && has_members(tasks, now[x]) by {
                if x < before.len() {
                    assert(now[x] == before[x]);
                }
            }
            assert forall|x: int, y: int| 0 <= x < y < now.len() implies board_place(#[trigger] now[x]) < board_place(#[trigger] now[y]) by {
                assert(now[x] == before[x]);
                if y < before.len() {
                    assert(now[y] == before[y]);
                }
            }
            assert forall|j: int| 0 <= j < k && has_members(tasks, #[trigger] board_statuses()[j]) implies now.contains(board_statuses()[j]) by {
                if j < k - 1 {
                    let x = choose|x: int| 0 <= x < before.len() && before[x] == board_statuses()[j];
                    assert(now[x] == before[x]);
                } else {
                    assert(now[now.len() - 1] == top);
                }
            }
        } else {
            assert(now == before);
        }
    }
}

/// Every task lands on the board in the group of its own status, and no two groups share a status:
/// the groups shown are exactly the statuses some task has, each once, in the order unreadable, in
/// review, in progress, todo, backlog, done, cancelled.
pub proof fn lemma_every_task_has_its_group(tasks: Seq<ItemView>, i: int)
    requires
        0 <= i < tasks.len(),
    ensures
        exists|g: int|
            0 <= g < shown_statuses(tasks, 7).len() && #[trigger] shown_statuses(tasks, 7)[g] == view_status(
                tasks[i].metadata,
            ),
        forall|g1: int, g2: int|
            0 <= g1 < g2 < shown_statuses(tasks, 7).len() ==> #[trigger] shown_statuses(tasks, 7)[g1]
                != #[trigger] shown_statuses(tasks, 7)[g2],
        forall|g: int| 0 <= g < shown_statuses(tasks, 7).len() ==> has_members(tasks, #[trigger] shown_statuses(tasks, 7)[g]),
        forall|g1: int, g2: int|
            0 <= g1 < g2 < shown_statuses(tasks, 7).len() ==> board_place(#[trigger] shown_statuses(tasks, 7)[g1])
                < board_place(#[trigger] shown_statuses(tasks, 7)[g2]),
{
    lemma_board_places();
    lemma_shown_upto(tasks, 7);
    let s = view_status(tasks[i].metadata);
    assert(member_of(tasks, s, i));
    let j = board_place(s);
    assert(board_statuses()[j] == s);
    assert(has_members(tasks, board_statuses()[j]));
    assert(shown_statuses(tasks, 7).contains(s));
}

} // verus!
