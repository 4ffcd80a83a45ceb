//! The subtree rooted at one task, built by grouping a flat task set on `parent`.
use std::cmp::Ordering;

use vstd::prelude::*;

use crate::metadata::{lemma_metadata_view, view_parent, Metadata};
use crate::keys::number_of_key;
use crate::metadata::rank_of;
use crate::order::{lemma_rank_then_id, sibling_cmp, sibling_order};
use crate::sort::{is_permutation, lemma_preorder_through, preorder_on, sort_positions, sorted_by, stable_by};
use crate::task::TaskSummary;
use crate::text::same_chars;

verus! {

/// The subtree rooted at one task; siblings within `children` are in sibling order.
#[derive(Debug, PartialEq, Eq)]
pub struct TaskTree {
    pub id: String,
    pub title: String,
    pub metadata: Metadata,
    pub children: Vec<TaskTree>,
}

/// A subtree, and the tasks whose own subtree was left out because a parent cycle would have made
/// the descent endless. A client that only rendered `tree` would show a truncated hierarchy as a
/// complete one.
#[derive(Debug, PartialEq, Eq)]
pub struct TaskTreeView {
    pub tree: TaskTree,
    pub cycles: Vec<String>,
}

/// The positions below `m` of the tasks that name `id` as their parent, in task order.
pub open spec fn kid_positions(ss: Seq<TaskSummary>, id: Seq<char>, m: int) -> Seq<int>
    decreases m,
{
    if m <= 0 {
        Seq::empty()
    } else if view_parent(ss[m - 1].metadata@) == Some(id) {
        kid_positions(ss, id, m - 1).push(m - 1)
    } else {
        kid_positions(ss, id, m - 1)
    }
}

/// The positions of `list` whose task id is not on `path`, in the order of `list`.
pub open spec fn kept(ss: Seq<TaskSummary>, list: Seq<int>, path: Seq<Seq<char>>) -> Seq<int>
    decreases list.len(),
{
    if list.len() == 0 {
        Seq::empty()
    } else if path.contains(ss[list.last()].id@) {
        kept(ss, list.drop_last(), path)
    } else {
        kept(ss, list.drop_last(), path).push(list.last())
    }
}

/// The sibling order of the tasks at the positions `list` holds, read position by position.
pub open spec fn sibling_order_of(ss: Seq<TaskSummary>, list: Seq<int>) -> spec_fn(usize, usize) -> Ordering {
    |a: usize, b: usize| sibling_order(ss[list[a + 0int]], ss[list[b + 0int]])
}

/// The depth left below a node whose own depth left is `depth`.
pub open spec fn below(depth: Option<usize>) -> Option<usize> {
    match depth {
        Some(d) => Some((d - 1) as usize),
        None => None,
    }
}

/// `t` is the subtree of the task at `at`, with `depth` levels left to descend and the ids on
/// `path` above it: its own fields are the task's, and unless no depth is left, its children are
/// the subtrees of the tasks that name it for parent, in sibling order, leaving out each one whose
/// id is on the path or is its own.
pub open spec fn tree_fits(ss: Seq<TaskSummary>, t: TaskTree, at: int, depth: Option<usize>, path: Seq<Seq<char>>) -> bool
    decreases t,
{
    &&& 0 <= at < ss.len()
    &&& t.id@ == ss[at].id@
    &&& t.title@ == ss[at].title@
    &&& t.metadata@ == ss[at].metadata@
    &&& !path.contains(t.id@)
    &&& if depth == Some(0usize) {
        t.children@.len() == 0
    } else {
        let kids = kid_positions(ss, t.id@, ss.len() + 0int);
        exists|order: Seq<usize>|
            #[trigger] arranges(ss, kids, order) && {
                let sorted = Seq::new(order.len(), |j: int| kids[order[j] + 0int]);
                let keep = kept(ss, sorted, path.push(t.id@));
                &&& t.children@.len() == keep.len()
                &&& forall|j: int|
                    0 <= j < keep.len() ==> tree_fits(
                        ss,
                        #[trigger] t.children@[j],
                        keep[j],
                        below(depth),
                        path.push(t.id@),
                    )
            }
    }
}

/// Some node of `t` has the id `id`.
pub open spec fn holds_id(t: TaskTree, id: Seq<char>) -> bool
    decreases t,
{
    t.id@ == id || exists|j: int| 0 <= j < t.children@.len() && holds_id(#[trigger] t.children@[j], id)
}

/// The ids a path holds, as plain text.
pub open spec fn path_ids(path: &Vec<String>) -> Seq<Seq<char>> {
    Seq::new(path@.len(), |i: int| path@[i]@)
}

/// The ids of the tasks.
pub open spec fn ids_of(ss: Seq<TaskSummary>) -> Set<Seq<char>> {
    Seq::new(ss.len(), |i: int| ss[i].id@).to_set()
}

/// How many task ids are not on `path`.
pub open spec fn ids_left(ss: Seq<TaskSummary>, path: Seq<Seq<char>>) -> nat {
    ids_of(ss).difference(path.to_set()).len()
}

/// The position of the last task below `m` whose id is `id`.
pub open spec fn last_with_id(ss: Seq<TaskSummary>, id: Seq<char>, m: int) -> Option<int>
    decreases m,
{
    if m <= 0 {
        None
    } else if ss[m - 1].id@ == id {
        Some(m - 1)
    } else {
        last_with_id(ss, id, m - 1)
    }
}

proof fn lemma_ids_left_shrinks(ss: Seq<TaskSummary>, path: Seq<Seq<char>>, at: int)
    requires
        0 <= at < ss.len(),
        !path.contains(ss[at].id@),
    ensures
        ids_left(ss, path.push(ss[at].id@)) < ids_left(ss, path),
{
    let all = Seq::new(ss.len(), |i: int| ss[i].id@);
    let x = ss[at].id@;
    assert(all[at] == x);
    assert(ids_of(ss).contains(x));
    vstd::seq_lib::seq_to_set_is_finite(all);
    assert forall|y: Seq<char>| path.push(x).to_set().contains(y) == path.to_set().insert(x).contains(y) by {
        if path.push(x).contains(y) && y != x {
            let k = choose|k: int| 0 <= k < path.push(x).len() && path.push(x)[k] == y;
            assert(path[k] == y);
        }
        if path.contains(y) {
            let k = choose|k: int| 0 <= k < path.len() && path[k] == y;
            assert(path.push(x)[k] == y);
        }
        if y == x {
            assert(path.push(x)[path.len() as int] == x);
        }
    }
    assert(path.push(x).to_set() =~= path.to_set().insert(x));
    assert(ids_of(ss).difference(path.push(x).to_set()) =~= ids_of(ss).difference(path.to_set()).remove(x));
    assert(ids_of(ss).difference(path.to_set()).contains(x));
}

/// Whether `path` holds `id`.
fn path_holds(path: &Vec<String>, id: &str) -> (found: bool)
    ensures
        found == path_ids(path).contains(id@),
{
    let mut i: usize = 0;
    while i < path.len()
        invariant
            i <= path.len(),
            forall|j: int| 0 <= j < i ==> path@[j]@ != id@,
        decreases path.len() - i,
    {
        if same_chars(path[i].as_str(), id) {
            proof {
                assert(path_ids(path)[i as int] == id@);
            }
            return true;
        }
        i = i + 1;
    }
    proof {
        if path_ids(path).contains(id@) {
            let j = choose|j: int| 0 <= j < path_ids(path).len() && path_ids(path)[j] == id@;
            assert(path@[j]@ == id@);
        }
    }
    false
}

/// Every position `kid_positions` lists lies below `m`, and names `id` as parent.
proof fn lemma_kid_positions_below(ss: Seq<TaskSummary>, id: Seq<char>, m: int)
    requires
        m <= ss.len(),
    ensures
        forall|j: int|
            0 <= j < kid_positions(ss, id, m).len() ==> 0 <= #[trigger] kid_positions(ss, id, m)[j] < m
                && view_parent(ss[kid_positions(ss, id, m)[j]].metadata@) == Some(id),
    decreases m,
{
    if m > 0 {
        lemma_kid_positions_below(ss, id, m - 1);
    }
}

/// The positions of the tasks that name `id` as their parent, in task order.
fn kid_list(summaries: &Vec<TaskSummary>, id: &str) -> (list: Vec<usize>)
    ensures
        list@.len() == kid_positions(summaries@, id@, summaries@.len() as int).len(),
        forall|j: int| 0 <= j < list.len() ==> #[trigger] list@[j] == kid_positions(summaries@, id@, summaries@.len() as int)[j],
        forall|j: int| 0 <= j < list.len() ==> #[trigger] list@[j] < summaries.len(),
{
    let ghost ss = summaries@;
    let mut list: Vec<usize> = Vec::new();
    let mut i: usize = 0;
    while i < summaries.len()
        invariant
            ss == summaries@,
            i <= summaries.len(),
            list@.len() == kid_positions(ss, id@, i as int).len(),
            forall|j: int| 0 <= j < list.len() ==> #[trigger] list@[j] == kid_positions(ss, id@, i as int)[j],
        decreases summaries.len() - i,
    {
        proof {
            lemma_metadata_view(&summaries@[i as int].metadata);
        }
        let matches = match summaries[i].metadata.parent() {
            Some(p) => same_chars(p, id),
            None => false,
        };
        if matches {
            list.push(i);
        }
        i = i + 1;
    }
    proof {
        lemma_kid_positions_below(ss, id@, ss.len() as int);
        assert forall|j: int| 0 <= j < list.len() implies #[trigger] list@[j] < summaries.len() by {
            assert(list@[j] == kid_positions(ss, id@, ss.len() as int)[j]);
        }
    }
    list
}

/// Where every kid has a key as its id, as the tasks of a store do, sibling order is a total
/// preorder on the kids, so they come sorted.
pub proof fn lemma_sibling_preorder(ss: Seq<TaskSummary>, kids: Seq<int>)
    requires
        forall|j: int| 0 <= j < kids.len() ==> number_of_key(ss[#[trigger] kids[j]].id@) is Some,
    ensures
        preorder_on(sibling_order_of(ss, kids), kids.len() + 0int),
{
    let rank = |t: TaskSummary| rank_of(&t.metadata);
    let id = |t: TaskSummary| t.id@;
    let dom = |t: TaskSummary| number_of_key(id(t)) is Some;
    let ord = |a: TaskSummary, b: TaskSummary| crate::order::rank_order(rank(a), rank(b), crate::order::id_order(id(a), id(b)));
    lemma_rank_then_id(rank, id);
    let f = |a: usize| ss[kids[a + 0int]];
    assert forall|a: usize| a < kids.len() implies dom(#[trigger] f(a)) by {
        assert(number_of_key(ss[kids[a + 0int]].id@) is Some);
    }
    lemma_preorder_through(ord, dom, f, kids.len() + 0int);
    assert(sibling_order_of(ss, kids) =~= (|a: usize, b: usize| ord(f(a), f(b))));
}

/// `order` arranges the kid positions `kids` lists in sibling order, ties in task order, where
/// sibling order is a total preorder on them.
#[verifier::opaque]
pub open spec fn arranges(ss: Seq<TaskSummary>, kids: Seq<int>, order: Seq<usize>) -> bool {
    &&& is_permutation(order, kids.len() + 0int)
    &&& preorder_on(sibling_order_of(ss, kids), kids.len() + 0int) ==> sorted_by(
        order,
        sibling_order_of(ss, kids),
    ) && stable_by(order, sibling_order_of(ss, kids))
}

/// The positions of the tasks that name `id` as their parent, in sibling order, and the
/// arrangement that puts them there.
fn sorted_kids(summaries: &Vec<TaskSummary>, id: &str) -> (out: (Vec<usize>, Ghost<Seq<usize>>))
    ensures
        arranges(summaries@, kid_positions(summaries@, id@, summaries@.len() + 0int), out.1@),
        out.0@.len() == out.1@.len(),
        forall|j: int| 0 <= j < out.1@.len() ==> #[trigger] out.0@[j] == kid_positions(summaries@, id@, summaries@.len() + 0int)[out.1@[j] + 0int],
{
    let ghost ss = summaries@;
    let list = kid_list(summaries, id);
    let ghost kl = kid_positions(ss, id@, ss.len() + 0int);
    let n = list.len();
    let less = |a: usize, b: usize| -> (r: bool)
        requires
            a < list.len(),
            b < list.len(),
            forall|j: int| 0 <= j < list.len() ==> #[trigger] list@[j] < summaries.len(),
        ensures
            r == (sibling_order(summaries@[list@[a + 0int] + 0int], summaries@[list@[b + 0int] + 0int])
                == Ordering::Less),
        {
            match sibling_cmp(&summaries[list[a]], &summaries[list[b]]) {
                Ordering::Less => true,
                _ => false,
            }
        };
    let order = sort_positions(n, less, Ghost(sibling_order_of(ss, kl)));
    let mut kids: Vec<usize> = Vec::new();
    let mut k: usize = 0;
    while k < n
        invariant
            n == list.len(),
            list@.len() == kl.len(),
            forall|j: int| 0 <= j < list.len() ==> #[trigger] list@[j] == kl[j],
            is_permutation(order@, n + 0int),
            k <= n,
            kids@.len() == k,
            forall|j: int| 0 <= j < k ==> #[trigger] kids@[j] == kl[order@[j] + 0int],
        decreases n - k,
    {
        kids.push(list[order[k]]);
        k = k + 1;
    }
    proof {
        reveal(arranges);
    }
    (kids, Ghost(order@))
}

/// The depth left one level further down.
fn below_of(depth: Option<usize>) -> (next: Option<usize>)
    requires
        depth != Some(0usize),
    ensures
        next == below(depth),
{
    match depth {
        Some(d) => Some(d - 1),
        None => None,
    }
}

/// Whether no depth is left.
fn exhausted(depth: Option<usize>) -> (none_left: bool)
    ensures
        none_left == (depth == Some(0usize)),
{
    match depth {
        Some(d) => d == 0,
        None => false,
    }
}

/// Cycle reports added below a node name ids on the path above it or in its subtree.
pub open spec fn reports_within(cycles: Seq<String>, from: int, path: Seq<Seq<char>>, trees: Seq<TaskTree>) -> bool {
    forall|x: int|
        from <= x < cycles.len() ==> path.contains(#[trigger] cycles[x]@) || exists|j: int|
            0 <= j < trees.len() && holds_id(trees[j], cycles[x]@)
}

/// The id is one whose subtree the tree `t` left out: a kid of some node, within the depth, whose
/// id already sits on the path down to that node, that node included.
pub open spec fn is_cut(ss: Seq<TaskSummary>, t: TaskTree, depth: Option<usize>, path: Seq<Seq<char>>, id: Seq<char>) -> bool
    decreases t,
{
    &&& depth != Some(0usize)
    &&& {
        ||| exists|b: int|
            #[trigger] kid_positions(ss, t.id@, ss.len() + 0int).contains(b) && ss[b].id@ == id && path.push(t.id@).contains(id)
        ||| exists|j: int| 0 <= j < t.children@.len() && is_cut(ss, #[trigger] t.children@[j], below(depth), path.push(t.id@), id)
    }
}

/// `is_cut` read at a node with id `id` and children `children`.
pub open spec fn cut_here(
    ss: Seq<TaskSummary>,
    id: Seq<char>,
    children: Seq<TaskTree>,
    depth: Option<usize>,
    path: Seq<Seq<char>>,
    x: Seq<char>,
) -> bool {
    &&& depth != Some(0usize)
    &&& {
        ||| exists|b: int|
            #[trigger] kid_positions(ss, id, ss.len() + 0int).contains(b) && ss[b].id@ == x && path.push(id).contains(x)
        ||| exists|j: int| 0 <= j < children.len() && is_cut(ss, #[trigger] children[j], below(depth), path.push(id), x)
    }
}

/// Some report from `from` on names `id`.
pub open spec fn reported(cycles: Seq<String>, from: int, id: Seq<char>) -> bool {
    exists|x: int| from <= x < cycles.len() && #[trigger] cycles[x]@ == id
}

/// A report made stays made as more follow.
proof fn lemma_reported_grows(before: Seq<String>, after: Seq<String>, from: int, id: Seq<char>)
    requires
        before.len() <= after.len(),
        after.take(before.len() as int) == before,
        0 <= from,
        reported(before, from, id),
    ensures
        reported(after, from, id),
{
    let x = choose|x: int| from <= x < before.len() && #[trigger] before[x]@ == id;
    assert(after[x] == after.take(before.len() as int)[x]);
}

/// The subtrees under a node, one per kid in `kids` whose id is not on `path`; the others go to
/// `cycles`.
fn build_children(
    summaries: &Vec<TaskSummary>,
    kids: &Vec<usize>,
    Ghost(sorted): Ghost<Seq<int>>,
    next: Option<usize>,
    path: &mut Vec<String>,
    cycles: &mut Vec<String>,
) -> (children: Vec<TaskTree>)
    requires
        kids@.len() == sorted.len(),
        forall|j: int| 0 <= j < sorted.len() ==> #[trigger] kids@[j] == sorted[j],
        forall|j: int| 0 <= j < sorted.len() ==> 0 <= #[trigger] sorted[j] < summaries.len(),
        path_ids(old(path)).len() > 0,
    ensures
        path_ids(final(path)) == path_ids(old(path)),
        children@.len() == kept(summaries@, sorted, path_ids(old(path))).len(),
        forall|j: int|
            0 <= j < children@.len() ==> tree_fits(
                summaries@,
                #[trigger] children@[j],
                kept(summaries@, sorted, path_ids(old(path)))[j],
                next,
                path_ids(old(path)),
            ),
        final(cycles)@.len() >= old(cycles)@.len(),
        final(cycles)@.take(old(cycles)@.len() as int) == old(cycles)@,
        reports_within(final(cycles)@, old(cycles)@.len() as int, path_ids(old(path)), children@),
        forall|x: int|
            old(cycles)@.len() <= x < final(cycles)@.len() ==> (exists|j: int|
                0 <= j < sorted.len() && summaries@[sorted[j]].id@ == (#[trigger] final(cycles)@[x])@ && path_ids(
                    old(path),
                ).contains(final(cycles)@[x]@)) || (exists|j: int|
                0 <= j < children@.len() && is_cut(summaries@, children@[j], next, path_ids(old(path)), final(cycles)@[x]@)),
        forall|j: int|
            0 <= j < sorted.len() && path_ids(old(path)).contains(summaries@[#[trigger] sorted[j]].id@) ==> reported(
                final(cycles)@,
                old(cycles)@.len() as int,
                summaries@[sorted[j]].id@,
            ),
        forall|j: int, id: Seq<char>|
            0 <= j < children@.len() && #[trigger] is_cut(summaries@, children@[j], next, path_ids(old(path)), id) ==> reported(
                final(cycles)@,
                old(cycles)@.len() as int,
                id,
            ),
    decreases ids_left(summaries@, path_ids(old(path))), 1nat,
{
    let ghost ss = summaries@;
    let ghost p1 = path_ids(path);
    let ghost c0 = cycles@;
    let mut children: Vec<TaskTree> = Vec::new();
    let mut k: usize = 0;
    proof {
        assert(sorted.take(0) =~= Seq::<int>::empty());
    }
    while k < kids.len()
        invariant
            ss == summaries@,
            path_ids(path) == p1,
            p1 == path_ids(old(path)),
            kids@.len() == sorted.len(),
            forall|j: int| 0 <= j < sorted.len() ==> #[trigger] kids@[j] == sorted[j],
            forall|j: int| 0 <= j < sorted.len() ==> 0 <= #[trigger] sorted[j] < ss.len(),
            k <= kids.len(),
            children@.len() == kept(ss, sorted.take(k as int), p1).len(),
            forall|j: int|
                0 <= j < children@.len() ==> tree_fits(
                    ss,
                    #[trigger] children@[j],
                    kept(ss, sorted.take(k as int), p1)[j],
                    next,
                    p1,
                ),
            cycles@.len() >= c0.len(),
            cycles@.take(c0.len() as int) == c0,
            reports_within(cycles@, c0.len() as int, p1, children@),
            forall|x: int|
                c0.len() <= x < cycles@.len() ==> (exists|j: int|
                    0 <= j < k && ss[sorted[j]].id@ == (#[trigger] cycles@[x])@ && p1.contains(cycles@[x]@)) || (exists|j: int|
                    0 <= j < children@.len() && is_cut(ss, children@[j], next, p1, cycles@[x]@)),
            forall|j: int| 0 <= j < k && p1.contains(ss[#[trigger] sorted[j]].id@) ==> reported(cycles@, c0.len() as int, ss[sorted[j]].id@),
            forall|j: int, id: Seq<char>|
                0 <= j < children@.len() && #[trigger] is_cut(ss, children@[j], next, p1, id) ==> reported(
                    cycles@,
                    c0.len() as int,
                    id,
                ),
        decreases kids.len() - k,
    {
        let kid = kids[k];
        let kid_id = &summaries[kid].id;
        proof {
            assert(sorted.take(k + 1).drop_last() =~= sorted.take(k as int));
            assert(sorted.take(k + 1).last() == kid as int);
        }
        let ghost before = cycles@;
        let ghost children_before = children@;
        if path_holds(path, kid_id.as_str()) {
            cycles.push(kid_id.clone());
            proof {
                assert(cycles@.take(c0.len() as int) =~= before.take(c0.len() as int));
                assert(cycles@.take(before.len() as int) =~= before);
                assert(cycles@[before.len() as int]@ == ss[sorted[k as int]].id@);
                assert forall|x: int|
                    c0.len() <= x < cycles@.len() implies (exists|j: int|
                        0 <= j < k + 1 && ss[sorted[j]].id@ == (#[trigger] cycles@[x])@ && p1.contains(cycles@[x]@)) || (exists|j: int|
                        0 <= j < children@.len() && is_cut(ss, children@[j], next, p1, cycles@[x]@)) by {
                    if x < before.len() {
                        assert(cycles@[x] == before[x]);
                    } else {
                        assert(ss[sorted[k as int]].id@ == cycles@[x]@);
                    }
                }
                assert forall|j: int| 0 <= j < k + 1 && p1.contains(ss[#[trigger] sorted[j]].id@) implies reported(
                    cycles@,
                    c0.len() as int,
                    ss[sorted[j]].id@,
                ) by {
                    if j < k {
                        lemma_reported_grows(before, cycles@, c0.len() as int, ss[sorted[j]].id@);
                    } else {
                        assert(cycles@[before.len() as int]@ == ss[sorted[j]].id@);
                    }
                }
                assert forall|j: int, id: Seq<char>|
                    0 <= j < children@.len() && #[trigger] is_cut(ss, children@[j], next, p1, id) implies reported(
                        cycles@,
                        c0.len() as int,
                        id,
                    ) by {
                    lemma_reported_grows(before, cycles@, c0.len() as int, id);
                }
            }
        } else {
            proof {
                assert(ids_left(summaries@, path_ids(path)) == ids_left(summaries@, path_ids(old(path))));
            }
            let child = build_node(summaries, kid, next, path, cycles);
            children.push(child);
            proof {
                assert(cycles@.take(c0.len() as int) =~= cycles@.take(before.len() as int).take(c0.len() as int));
                assert forall|x: int| c0.len() <= x < cycles@.len() implies p1.contains(#[trigger] cycles@[x]@) || exists|j: int|
                    0 <= j < children@.len() && holds_id(children@[j], cycles@[x]@) by {
                    if x < before.len() {
                        assert(cycles@[x] == before[x]);
                        if !p1.contains(cycles@[x]@) {
                            let j = choose|j: int| 0 <= j < children_before.len() && holds_id(children_before[j], before[x]@);
                            assert(children@[j] == children_before[j]);
                        }
                    } else {
                        if !p1.contains(cycles@[x]@) {
                            assert(holds_id(children@[children@.len() - 1], cycles@[x]@));
                        }
                    }
                }
                assert(cycles@.take(before.len() as int) =~= cycles@.take(before.len() as int));
                assert forall|x: int|
                    c0.len() <= x < cycles@.len() implies (exists|j: int|
                        0 <= j < k + 1 && ss[sorted[j]].id@ == (#[trigger] cycles@[x])@ && p1.contains(cycles@[x]@)) || (exists|j: int|
                        0 <= j < children@.len() && is_cut(ss, children@[j], next, p1, cycles@[x]@)) by {
                    if x < before.len() {
                        assert(cycles@[x] == before[x]);
                        if exists|j: int| 0 <= j < children_before.len() && is_cut(ss, children_before[j], next, p1, before[x]@) {
                            let j = choose|j: int| 0 <= j < children_before.len() && is_cut(ss, children_before[j], next, p1, before[x]@);
                            assert(children@[j] == children_before[j]);
                        }
                    } else {
                        assert(is_cut(ss, children@[children@.len() - 1], next, p1, cycles@[x]@));
                    }
                }
                assert forall|j: int| 0 <= j < k + 1 && p1.contains(ss[#[trigger] sorted[j]].id@) implies reported(
                    cycles@,
                    c0.len() as int,
                    ss[sorted[j]].id@,
                ) by {
                    if j < k {
                        lemma_reported_grows(before, cycles@, c0.len() as int, ss[sorted[j]].id@);
                    }
                }
                assert forall|j: int, id: Seq<char>|
                    0 <= j < children@.len() && #[trigger] is_cut(ss, children@[j], next, p1, id) implies reported(
                        cycles@,
                        c0.len() as int,
                        id,
                    ) by {
                    if j < children_before.len() {
                        assert(children@[j] == children_before[j]);
                        lemma_reported_grows(before, cycles@, c0.len() as int, id);
                    } else {
                        let y = choose|y: int| before.len() <= y < cycles@.len() && #[trigger] cycles@[y]@ == id;
                    }
                }
            }
        }
        k = k + 1;
    }
    proof {
        assert(sorted.take(k as int) =~= sorted);
    }
    children
}

/// The subtree of the task at `at`. An id already on the path is not expanded again: it goes to
/// `cycles`, so the caller can report it instead of descending forever.
#[verifier::rlimit(40)]
fn build_node(
    summaries: &Vec<TaskSummary>,
    at: usize,
    depth: Option<usize>,
    path: &mut Vec<String>,
    cycles: &mut Vec<String>,
) -> (tree: TaskTree)
    requires
        at < summaries.len(),
        !path_ids(old(path)).contains(summaries@[at as int].id@),
    ensures
        tree_fits(summaries@, tree, at as int, depth, path_ids(old(path))),
        path_ids(final(path)) == path_ids(old(path)),
        final(cycles)@.len() >= old(cycles)@.len(),
        final(cycles)@.take(old(cycles)@.len() as int) == old(cycles)@,
        forall|k: int|
            old(cycles)@.len() <= k < final(cycles)@.len() ==> path_ids(old(path)).contains(
                #[trigger] final(cycles)@[k]@,
            ) || holds_id(tree, final(cycles)@[k]@),
        forall|k: int|
            old(cycles)@.len() <= k < final(cycles)@.len() ==> is_cut(
                summaries@,
                tree,
                depth,
                path_ids(old(path)),
                (#[trigger] final(cycles)@[k])@,
            ),
        forall|id: Seq<char>|
            #[trigger] is_cut(summaries@, tree, depth, path_ids(old(path)), id) ==> reported(
                final(cycles)@,
                old(cycles)@.len() as int,
                id,
            ),
    decreases ids_left(summaries@, path_ids(old(path))), 0nat,
{
    let ghost ss = summaries@;
    let ghost p0 = path_ids(path);
    let ghost c0 = cycles@;
    let node = &summaries[at];
    let ghost id = node.id@;
    path.push(node.id.clone());
    proof {
        assert(path_ids(path) =~= p0.push(id));
        lemma_ids_left_shrinks(ss, p0, at as int);
    }
    let ghost mut chosen: Seq<usize> = Seq::empty();
    let children = if exhausted(depth) {
        Vec::new()
    } else {
        let (kids, Ghost(order)) = sorted_kids(summaries, node.id.as_str());
        let ghost kl = kid_positions(ss, id, ss.len() as int);
        let ghost sorted = Seq::new(order.len(), |j: int| kl[order[j] + 0int]);
        proof {
            chosen = order;
            lemma_kid_positions_below(ss, id, ss.len() as int);
            lemma_arranges_permutes(ss, kl, order);
            assert forall|j: int| 0 <= j < sorted.len() implies 0 <= #[trigger] sorted[j] < ss.len() by {
                assert(0 <= order[j] < kl.len());
            }
        }
        let next = below_of(depth);
        proof {
            assert(ids_left(ss, path_ids(path)) < ids_left(ss, p0));
        }
        let made = build_children(summaries, &kids, Ghost(sorted), next, path, cycles);
        proof {
            assert(arranges(ss, kl, chosen));
            assert(made@.len() == kept(ss, sorted, p0.push(id)).len());
            assert(kids_fit(ss, id, made@, depth, p0, chosen));
            assert forall|x: Seq<char>| #[trigger] cut_here(ss, id, made@, depth, p0, x) implies reported(
                cycles@,
                c0.len() as int,
                x,
            ) by {
                if exists|b: int| #[trigger] kl.contains(b) && ss[b].id@ == x && p0.push(id).contains(x) {
                    let b = choose|b: int| #[trigger] kl.contains(b) && ss[b].id@ == x && p0.push(id).contains(x);
                    let i = choose|i: int| 0 <= i < kl.len() && kl[i] == b;
                    assert(order.len() == kids@.len());
                    assert(kids@.len() == kids.len());
                    assert(kids.len() <= usize::MAX);
                    assert(is_permutation(order, kl.len() as int));
                    crate::graph::lemma_permutation_covers(order, kl.len() as int, i);
                    let j = choose|j: int| 0 <= j < order.len() && order[j] == i;
                    assert(sorted[j] == b);
                } else {
                    let j = choose|j: int| 0 <= j < made@.len() && is_cut(ss, #[trigger] made@[j], below(depth), p0.push(id), x);
                }
            }
            assert forall|k: int| c0.len() <= k < cycles@.len() implies #[trigger] cut_here(ss, id, made@, depth, p0, cycles@[k]@) by {
                if exists|j: int|
                    0 <= j < sorted.len() && ss[sorted[j]].id@ == cycles@[k]@ && p0.push(id).contains(cycles@[k]@) {
                    let j = choose|j: int|
                        0 <= j < sorted.len() && ss[sorted[j]].id@ == cycles@[k]@ && p0.push(id).contains(cycles@[k]@);
                    assert(0 <= order[j] < kl.len());
                    assert(kl.contains(sorted[j]));
                } else {
                    let j = choose|j: int| 0 <= j < made@.len() && is_cut(ss, made@[j], next, p0.push(id), cycles@[k]@);
                    assert(is_cut(ss, made@[j], below(depth), p0.push(id), cycles@[k]@));
                }
            }
        }
        made
    };
    let ghost before_pop = path_ids(path);
    proof {
        assert(before_pop == p0.push(id));
    }
    path.pop();
    proof {
        assert(path_ids(path) =~= before_pop.drop_last());
        assert(path_ids(path) =~= p0);
    }
    let tree = TaskTree {
        id: node.id.clone(),
        title: node.title.clone(),
        metadata: node.metadata.clone(),
        children,
    };
    proof {
        lemma_node_fits(ss, tree, at as int, depth, p0, chosen);
        lemma_reports_in_tree(cycles@, c0.len() as int, p0, id, tree);
        if depth == Some(0usize) {
            assert(cycles@ =~= c0);
        } else {
            assert(tree.children@ == children@);
            assert forall|k: int| c0.len() <= k < cycles@.len() implies is_cut(ss, tree, depth, p0, (#[trigger] cycles@[k])@) by {
                assert(cut_here(ss, id, children@, depth, p0, cycles@[k]@));
            }
            assert forall|x: Seq<char>| #[trigger] is_cut(ss, tree, depth, p0, x) implies reported(cycles@, c0.len() as int, x) by {
                assert(cut_here(ss, id, children@, depth, p0, x));
            }
        }
    }
    tree
}

/// `children` are the subtrees the kids of the task with id `id` give in the arrangement
/// `order`, below the ids on `p0`.
pub open spec fn kids_fit(ss: Seq<TaskSummary>, id: Seq<char>, children: Seq<TaskTree>, depth: Option<usize>, p0: Seq<Seq<char>>, order: Seq<usize>) -> bool {
    let kids = kid_positions(ss, id, ss.len() + 0int);
    let sorted = Seq::new(order.len(), |j: int| kids[order[j] + 0int]);
    let keep = kept(ss, sorted, p0.push(id));
    &&& arranges(ss, kids, order)
    &&& children.len() == keep.len()
    &&& forall|j: int| 0 <= j < keep.len() ==> tree_fits(ss, #[trigger] children[j], keep[j], below(depth), p0.push(id))
}

/// A node with the task's own fields and, unless no depth is left, the children of its kids in an
/// arrangement, fits.
proof fn lemma_node_fits(ss: Seq<TaskSummary>, tree: TaskTree, at: int, depth: Option<usize>, p0: Seq<Seq<char>>, order: Seq<usize>)
    requires
        0 <= at < ss.len(),
        tree.id@ == ss[at].id@,
        tree.title@ == ss[at].title@,
        tree.metadata@ == ss[at].metadata@,
        !p0.contains(tree.id@),
        depth == Some(0usize) ==> tree.children@.len() == 0,
        depth != Some(0usize) ==> kids_fit(ss, tree.id@, tree.children@, depth, p0, order),
    ensures
        tree_fits(ss, tree, at, depth, p0),
{
    if depth != Some(0usize) {
        let kids = kid_positions(ss, tree.id@, ss.len() + 0int);
        assert(arranges(ss, kids, order));
    }
}

/// An arrangement puts each kid position once.
proof fn lemma_arranges_permutes(ss: Seq<TaskSummary>, kids: Seq<int>, order: Seq<usize>)
    requires
        arranges(ss, kids, order),
    ensures
        is_permutation(order, kids.len() + 0int),
{
    reveal(arranges);
}

/// A report that names an id on the path below `p0`, or in one of the children of `tree`, names
/// one on `p0` or in `tree`.
proof fn lemma_reports_in_tree(cycles: Seq<String>, from: int, p0: Seq<Seq<char>>, id: Seq<char>, tree: TaskTree)
    requires
        tree.id@ == id,
        reports_within(cycles, from, p0.push(id), tree.children@),
    ensures
        forall|x: int| from <= x < cycles.len() ==> p0.contains(#[trigger] cycles[x]@) || holds_id(tree, cycles[x]@),
{
    assert forall|x: int| from <= x < cycles.len() implies p0.contains(#[trigger] cycles[x]@) || holds_id(tree, cycles[x]@) by {
        if !p0.contains(cycles[x]@) && cycles[x]@ != id {
            if p0.push(id).contains(cycles[x]@) {
                let k = choose|k: int| 0 <= k < p0.push(id).len() && p0.push(id)[k] == cycles[x]@;
                assert(p0[k] == cycles[x]@);
            }
            let j = choose|j: int| 0 <= j < tree.children@.len() && holds_id(tree.children@[j], cycles[x]@);
        }
    }
}

/// The position `last_with_id` finds lies below `m`.
proof fn lemma_last_with_id(ss: Seq<TaskSummary>, id: Seq<char>, m: int)
    ensures
        last_with_id(ss, id, m) matches Some(a) ==> 0 <= a < m && ss[a].id@ == id,
    decreases m,
{
    if m > 0 {
        lemma_last_with_id(ss, id, m - 1);
    }
}

/// The position of the last task whose id is `id`.
fn find_last(summaries: &Vec<TaskSummary>, id: &str) -> (at: Option<usize>)
    ensures
        match at {
            Some(a) => last_with_id(summaries@, id@, summaries@.len() as int) == Some(a as int),
            None => last_with_id(summaries@, id@, summaries@.len() as int) is None,
        },
{
    let ghost ss = summaries@;
    let mut i: usize = summaries.len();
    while i > 0
        invariant
            ss == summaries@,
            i <= summaries.len(),
            last_with_id(ss, id@, ss.len() as int) == last_with_id(ss, id@, i as int),
        decreases i,
    {
        if same_chars(summaries[i - 1].id.as_str(), id) {
            return Some(i - 1);
        }
        i = i - 1;
    }
    None
}

impl TaskTree {
    /// The subtree rooted at `root`, built by grouping a flat task set on `parent`. `depth` bounds
    /// the descent (`None` unbounded, `Some(0)` the root only, `Some(1)` its direct children);
    /// siblings are in sibling order. An id already on the current path is not expanded again and
    /// goes onto `cycles`, so callers can report it instead of looping forever.
    pub fn build(
        summaries: &Vec<TaskSummary>,
        root: &str,
        depth: Option<usize>,
        cycles: &mut Vec<String>,
    ) -> (tree: Option<TaskTree>)
        ensures
            tree is Some <==> last_with_id(summaries@, root@, summaries@.len() as int) is Some,
            tree matches Some(t) ==> tree_fits(
                summaries@,
                t,
                last_with_id(summaries@, root@, summaries@.len() as int)->0,
                depth,
                Seq::empty(),
            ),
            final(cycles)@.len() >= old(cycles)@.len(),
            final(cycles)@.take(old(cycles)@.len() as int) == old(cycles)@,
            forall|k: int|
                old(cycles)@.len() <= k < final(cycles)@.len() ==> (tree matches Some(t) && holds_id(
                    t,
                    #[trigger] final(cycles)@[k]@,
                )),
            tree matches Some(t) ==> forall|k: int|
                old(cycles)@.len() <= k < final(cycles)@.len() ==> is_cut(
                    summaries@,
                    t,
                    depth,
                    Seq::empty(),
                    (#[trigger] final(cycles)@[k])@,
                ),
            tree matches Some(t) ==> forall|id: Seq<char>|
                #[trigger] is_cut(summaries@, t, depth, Seq::empty(), id) ==> reported(
                    final(cycles)@,
                    old(cycles)@.len() as int,
                    id,
                ),
    {
        match find_last(summaries, root) {
            None => {
                proof {
                    assert(cycles@.take(cycles@.len() as int) =~= cycles@);
                }
                None
            },
            Some(at) => {
                let mut path: Vec<String> = Vec::new();
                proof {
                    lemma_last_with_id(summaries@, root@, summaries@.len() as int);
                    assert(path_ids(&path) =~= Seq::<Seq<char>>::empty());
                }
                let tree = build_node(summaries, at, depth, &mut path, cycles);
                Some(tree)
            },
        }
    }
}


/// A chain of tasks down from `chain[0]`, each naming the one before it as parent.
pub open spec fn descends(ss: Seq<TaskSummary>, chain: Seq<int>) -> bool {
    &&& chain.len() >= 1
    &&& forall|k: int| 0 <= k < chain.len() ==> 0 <= #[trigger] chain[k] < ss.len()
    &&& forall|k: int|
        0 <= k < chain.len() - 1 ==> view_parent(ss[chain[k + 1]].metadata@) == Some(ss[#[trigger] chain[k]].id@)
}

/// `levels` levels down stay within the depth bound: no bound, or at most `d` levels.
pub open spec fn within_depth(depth: Option<usize>, levels: int) -> bool {
    match depth {
        Some(d) => levels <= d,
        None => true,
    }
}

/// A position whose task names `id` as parent is among the kids of `id`.
proof fn lemma_kid_positions_hold(ss: Seq<TaskSummary>, id: Seq<char>, m: int, b: int)
    requires
        0 <= b < m <= ss.len(),
        view_parent(ss[b].metadata@) == Some(id),
    ensures
        kid_positions(ss, id, m).contains(b),
    decreases m,
{
    if b < m - 1 {
        lemma_kid_positions_hold(ss, id, m - 1, b);
        let i = choose|i: int| 0 <= i < kid_positions(ss, id, m - 1).len() && #[trigger] kid_positions(ss, id, m - 1)[i] == b;
        assert(kid_positions(ss, id, m)[i] == b);
    } else {
        let k = kid_positions(ss, id, m);
        assert(k[k.len() - 1] == b);
    }
}

/// There are no more kids below `m` than positions.
proof fn lemma_kid_positions_len(ss: Seq<TaskSummary>, id: Seq<char>, m: int)
    requires
        0 <= m,
    ensures
        kid_positions(ss, id, m).len() <= m,
    decreases m,
{
    if m > 0 {
        lemma_kid_positions_len(ss, id, m - 1);
    }
}

/// A position of `list` whose id is not on `path` is kept.
proof fn lemma_kept_holds(ss: Seq<TaskSummary>, list: Seq<int>, path: Seq<Seq<char>>, j: int)
    requires
        0 <= j < list.len(),
        !path.contains(ss[list[j]].id@),
    ensures
        exists|q: int| 0 <= q < kept(ss, list, path).len() && #[trigger] kept(ss, list, path)[q] == list[j],
    decreases list.len(),
{
    let k = kept(ss, list, path);
    if j == list.len() - 1 {
        assert(k[k.len() - 1] == list[j]);
    } else {
        let rest = list.drop_last();
        assert(rest[j] == list[j]);
        lemma_kept_holds(ss, rest, path, j);
        let q = choose|q: int| 0 <= q < kept(ss, rest, path).len() && #[trigger] kept(ss, rest, path)[q] == rest[j];
        assert(k[q] == list[j]);
    }
}

/// A tree built down from a task holds every task a chain of parent links leads to from it,
/// within the depth bound, where the chain repeats no id and meets none on the path above: with
/// depth `d` it reaches `d` levels down, and without a bound it reaches all the way.
pub proof fn lemma_tree_holds_descendants(
    ss: Seq<TaskSummary>,
    t: TaskTree,
    at: int,
    depth: Option<usize>,
    path: Seq<Seq<char>>,
    chain: Seq<int>,
)
    requires
        ss.len() <= usize::MAX,
        tree_fits(ss, t, at, depth, path),
        descends(ss, chain),
        chain[0] == at,
        within_depth(depth, chain.len() - 1),
        forall|i: int, j: int| 0 <= i < j < chain.len() ==> ss[#[trigger] chain[i]].id@ != ss[#[trigger] chain[j]].id@,
        forall|k: int| 0 <= k < chain.len() ==> !path.contains(ss[#[trigger] chain[k]].id@),
    ensures
        holds_id(t, ss[chain.last()].id@),
    decreases chain.len(),
{
    if chain.len() > 1 {
        assert(depth != Some(0usize));
        let kids = kid_positions(ss, t.id@, ss.len() + 0int);
        let order = choose|order: Seq<usize>|
            #[trigger] arranges(ss, kids, order) && {
                let sorted = Seq::new(order.len(), |j: int| kids[order[j] + 0int]);
                let keep = kept(ss, sorted, path.push(t.id@));
                &&& t.children@.len() == keep.len()
                &&& forall|j: int|
                    0 <= j < keep.len() ==> tree_fits(
                        ss,
                        #[trigger] t.children@[j],
                        keep[j],
                        below(depth),
                        path.push(t.id@),
                    )
            };
        let sorted = Seq::new(order.len(), |j: int| kids[order[j] + 0int]);
        let keep = kept(ss, sorted, path.push(t.id@));
        let b = chain[1];
        assert(view_parent(ss[chain[1]].metadata@) == Some(ss[chain[0]].id@));
        lemma_kid_positions_hold(ss, t.id@, ss.len() + 0int, b);
        let i = choose|i: int| 0 <= i < kids.len() && #[trigger] kids[i] == b;
        lemma_arranges_permutes(ss, kids, order);
        lemma_kid_positions_len(ss, t.id@, ss.len() + 0int);
        crate::graph::lemma_permutation_covers(order, kids.len() + 0int, i);
        let j = choose|j: int| 0 <= j < order.len() && #[trigger] order[j] == i;
        assert(sorted[j] == b);
        assert(ss[chain[0]].id@ != ss[chain[1]].id@);
        assert(!path.push(t.id@).contains(ss[b].id@)) by {
            assert(!path.contains(ss[chain[1]].id@));
            if path.push(t.id@).contains(ss[b].id@) {
                let w = choose|w: int| 0 <= w < path.push(t.id@).len() && #[trigger] path.push(t.id@)[w] == ss[b].id@;
                if w < path.len() {
                    assert(path[w] == ss[b].id@);
                }
            }
        }
        lemma_kept_holds(ss, sorted, path.push(t.id@), j);
        let q = choose|q: int| 0 <= q < keep.len() && #[trigger] keep[q] == sorted[j];
        let child = t.children@[q];
        assert(tree_fits(ss, child, b, below(depth), path.push(t.id@)));
        let rest = chain.drop_first();
        assert forall|k: int| 0 <= k < rest.len() implies !path.push(t.id@).contains(ss[#[trigger] rest[k]].id@) by {
            assert(rest[k] == chain[k + 1]);
            assert(!path.contains(ss[chain[k + 1]].id@));
            assert(ss[chain[0]].id@ != ss[chain[k + 1]].id@);
            if path.push(t.id@).contains(ss[rest[k]].id@) {
                let w = choose|w: int| 0 <= w < path.push(t.id@).len() && #[trigger] path.push(t.id@)[w] == ss[rest[k]].id@;
                if w < path.len() {
                    assert(path[w] == ss[rest[k]].id@);
                }
            }
        }
        assert forall|x: int, y: int| 0 <= x < y < rest.len() implies ss[#[trigger] rest[x]].id@ != ss[#[trigger] rest[y]].id@ by {
            assert(rest[x] == chain[x + 1] && rest[y] == chain[y + 1]);
        }
        assert forall|k: int| 0 <= k < rest.len() - 1 implies view_parent(ss[rest[k + 1]].metadata@) == Some(ss[#[trigger] rest[k]].id@) by {
            assert(rest[k] == chain[k + 1] && rest[k + 1] == chain[k + 2]);
        }
        assert forall|k: int| 0 <= k < rest.len() implies 0 <= #[trigger] rest[k] < ss.len() by {
            assert(rest[k] == chain[k + 1]);
        }
        assert(rest.last() == chain.last());
        lemma_tree_holds_descendants(ss, child, b, below(depth), path.push(t.id@), rest);
        assert(holds_id(t.children@[q], ss[chain.last()].id@));
    }
}

/// Every node of `t` sits at most `levels` levels below its root.
pub open spec fn no_deeper(t: TaskTree, levels: int) -> bool
    decreases t,
{
    if levels <= 0 {
        t.children@.len() == 0
    } else {
        forall|j: int| 0 <= j < t.children@.len() ==> no_deeper(#[trigger] t.children@[j], levels - 1)
    }
}

/// A tree built with depth `d` reaches no further than `d` levels down: with depth 0 it is the
/// root alone.
pub proof fn lemma_tree_within_depth(ss: Seq<TaskSummary>, t: TaskTree, at: int, d: usize, path: Seq<Seq<char>>)
    requires
        tree_fits(ss, t, at, Some(d), path),
    ensures
        no_deeper(t, d + 0int),
    decreases t,
{
    if d > 0 {
        let kids = kid_positions(ss, t.id@, ss.len() + 0int);
        let order = choose|order: Seq<usize>|
            #[trigger] arranges(ss, kids, order) && {
                let sorted = Seq::new(order.len(), |j: int| kids[order[j] + 0int]);
                let keep = kept(ss, sorted, path.push(t.id@));
                &&& t.children@.len() == keep.len()
                &&& forall|j: int|
                    0 <= j < keep.len() ==> tree_fits(
                        ss,
                        #[trigger] t.children@[j],
                        keep[j],
                        below(Some(d)),
                        path.push(t.id@),
                    )
            };
        let sorted = Seq::new(order.len(), |j: int| kids[order[j] + 0int]);
        let keep = kept(ss, sorted, path.push(t.id@));
        assert forall|j: int| 0 <= j < t.children@.len() implies no_deeper(#[trigger] t.children@[j], d - 1) by {
            assert(tree_fits(ss, t.children@[j], keep[j], below(Some(d)), path.push(t.id@)));
            assert(below(Some(d)) == Some((d - 1) as usize));
            lemma_tree_within_depth(ss, t.children@[j], keep[j], (d - 1) as usize, path.push(t.id@));
        }
    }
}

} // verus!
