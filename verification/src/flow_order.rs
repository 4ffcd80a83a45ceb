//! When the orders a flow sorts by are total preorders: on tasks whose ids are keys, as the ids
//! of the tasks a store lists are, the order inside a wave, the order of the edges, and the order
//! of the cycle reports all are.
use std::cmp::Ordering;

use vstd::prelude::*;

use crate::flow::{member_order, more_first, report_order};
use crate::wiring::{edge_order, EdgeView};
use crate::keys::number_of_key;
use crate::metadata::rank_of;
use crate::order::{
    id_order, lemma_id_order_keyed, lemma_rank_part_preorder, lemma_text_lex_preorder, rank_order, rank_part, text_lex,
};
use crate::sort::{lemma_preorder_through, preorder_on};
use crate::task::TaskListItem;
use crate::text::{chain, is_total_preorder, lemma_chain_total_on, lemma_lift_total, lemma_lift_total_on, total_on};

verus! {

/// The order inside a wave, read on a leaf's count of blocked tasks and its task.
pub open spec fn leaf_pair_order(p: (usize, TaskListItem), q: (usize, TaskListItem)) -> Ordering {
    chain(
        more_first(p.0, q.0),
        rank_order(
            rank_of(&p.1.metadata),
            rank_of(&q.1.metadata),
            chain(id_order(p.1.id@, q.1.id@), text_lex(p.1.project@, q.1.project@)),
        ),
    )
}

/// The leaf's task has a key as its id.
pub open spec fn keyed_leaf(p: (usize, TaskListItem)) -> bool {
    number_of_key(p.1.id@) is Some
}

/// On leaves whose ids are keys, the order inside a wave is a total preorder.
proof fn lemma_leaf_pair_total()
    ensures
        total_on(|p: (usize, TaskListItem), q: (usize, TaskListItem)| leaf_pair_order(p, q), |p: (usize, TaskListItem)| keyed_leaf(p)),
{
    let dom = |p: (usize, TaskListItem)| keyed_leaf(p);
    let by_blocks = |p: (usize, TaskListItem), q: (usize, TaskListItem)| more_first(p.0, q.0);
    let by_rank = |p: (usize, TaskListItem), q: (usize, TaskListItem)| rank_part(rank_of(&p.1.metadata), rank_of(&q.1.metadata));
    let by_id = |p: (usize, TaskListItem), q: (usize, TaskListItem)| id_order(p.1.id@, q.1.id@);
    let by_project = |p: (usize, TaskListItem), q: (usize, TaskListItem)| text_lex(p.1.project@, q.1.project@);
    let more = |x: usize, y: usize| more_first(x, y);
    let count = |p: (usize, TaskListItem)| p.0;
    assert(is_total_preorder(more));
    lemma_lift_total(more, count, dom);
    assert(by_blocks =~= (|a: (usize, TaskListItem), b: (usize, TaskListItem)| more(count(a), count(b))));
    let rank_ord = |a: Option<Seq<char>>, b: Option<Seq<char>>| rank_part(a, b);
    let rank = |p: (usize, TaskListItem)| rank_of(&p.1.metadata);
    lemma_rank_part_preorder();
    lemma_lift_total(rank_ord, rank, dom);
    assert(by_rank =~= (|a: (usize, TaskListItem), b: (usize, TaskListItem)| rank_ord(rank(a), rank(b))));
    let text_ord = |a: Seq<char>, b: Seq<char>| text_lex(a, b);
    let project = |p: (usize, TaskListItem)| p.1.project@;
    lemma_text_lex_preorder();
    lemma_lift_total(text_ord, project, dom);
    assert(by_project =~= (|a: (usize, TaskListItem), b: (usize, TaskListItem)| text_ord(project(a), project(b))));
    let id_ord = |a: Seq<char>, b: Seq<char>| id_order(a, b);
    let key_dom = |a: Seq<char>| number_of_key(a) is Some;
    let id = |p: (usize, TaskListItem)| p.1.id@;
    lemma_id_order_keyed();
    lemma_lift_total_on(id_ord, key_dom, id);
    assert(dom =~= (|p: (usize, TaskListItem)| key_dom(id(p))));
    assert(by_id =~= (|a: (usize, TaskListItem), b: (usize, TaskListItem)| id_ord(id(a), id(b))));
    lemma_chain_total_on(by_id, by_project, dom);
    let tie = |p: (usize, TaskListItem), q: (usize, TaskListItem)| chain(by_id(p, q), by_project(p, q));
    lemma_chain_total_on(by_rank, tie, dom);
    let ranked = |p: (usize, TaskListItem), q: (usize, TaskListItem)| chain(by_rank(p, q), tie(p, q));
    lemma_chain_total_on(by_blocks, ranked, dom);
    let ord = |p: (usize, TaskListItem), q: (usize, TaskListItem)| chain(by_blocks(p, q), ranked(p, q));
    assert(ord =~= (|p: (usize, TaskListItem), q: (usize, TaskListItem)| leaf_pair_order(p, q)));
}

/// Where every leaf of a wave has a key as its id, as the tasks of a store do, the order inside
/// the wave is a total preorder on its leaves, so they come sorted.
pub proof fn lemma_wave_preorder(ts: Seq<TaskListItem>, leaves: Seq<usize>, blocks: Seq<usize>, members: Seq<usize>)
    requires
        forall|x: int| 0 <= x < members.len() ==> number_of_key(ts[leaves[#[trigger] members[x] + 0int] + 0int].id@) is Some,
    ensures
        preorder_on(member_order(ts, leaves, blocks, members), members.len() + 0int),
{
    let dom = |p: (usize, TaskListItem)| keyed_leaf(p);
    let ord = |p: (usize, TaskListItem), q: (usize, TaskListItem)| leaf_pair_order(p, q);
    lemma_leaf_pair_total();
    let f = |x: usize| (blocks[members[x + 0int] + 0int], ts[leaves[members[x + 0int] + 0int] + 0int]);
    assert forall|x: usize| x < members.len() implies dom(#[trigger] f(x)) by {
        assert(number_of_key(ts[leaves[members[x + 0int] + 0int] + 0int].id@) is Some);
    }
    lemma_preorder_through(ord, dom, f, members.len() + 0int);
    assert(member_order(ts, leaves, blocks, members) =~= (|x: usize, y: usize| ord(f(x), f(y))));
}

/// Where the cycles open with keys, as the tasks of a store have, the order of the reports is a
/// total preorder, so they come sorted.
pub proof fn lemma_report_preorder(reports: Seq<Seq<Seq<char>>>)
    requires
        forall|r: int| 0 <= r < reports.len() ==> number_of_key((#[trigger] reports[r])[0]) is Some,
    ensures
        preorder_on(report_order(reports), reports.len() + 0int),
{
    let dom = |a: Seq<char>| number_of_key(a) is Some;
    let ord = |a: Seq<char>, b: Seq<char>| id_order(a, b);
    lemma_id_order_keyed();
    let f = |r: usize| reports[r + 0int][0];
    assert forall|r: usize| r < reports.len() implies dom(#[trigger] f(r)) by {
        assert(number_of_key(reports[r + 0int][0]) is Some);
    }
    lemma_preorder_through(ord, dom, f, reports.len() + 0int);
    assert(report_order(reports) =~= (|a: usize, b: usize| ord(f(a), f(b))));
}


/// Where the tasks an edge joins have keys as their ids, the order of the edges, by project, then
/// by the task that waits, then by the task waited for, is a total preorder, so they come sorted.
pub proof fn lemma_edge_preorder(es: Seq<EdgeView>)
    requires
        forall|k: int| 0 <= k < es.len() ==> number_of_key((#[trigger] es[k]).1) is Some && number_of_key(es[k].2) is Some,
    ensures
        preorder_on(edge_order(es), es.len() + 0int),
{
    let dom = |e: EdgeView| number_of_key(e.1) is Some && number_of_key(e.2) is Some;
    let text_ord = |a: Seq<char>, b: Seq<char>| text_lex(a, b);
    let id_ord = |a: Seq<char>, b: Seq<char>| id_order(a, b);
    let key_dom = |a: Seq<char>| number_of_key(a) is Some;
    let project = |e: EdgeView| e.0;
    let waiting = |e: EdgeView| e.2;
    let waited = |e: EdgeView| e.1;
    lemma_text_lex_preorder();
    lemma_lift_total(text_ord, project, dom);
    let by_project = |a: EdgeView, b: EdgeView| text_ord(project(a), project(b));
    lemma_id_order_keyed();
    lemma_lift_total_on(id_ord, key_dom, waiting);
    lemma_lift_total_on(id_ord, key_dom, waited);
    let by_waiting = |a: EdgeView, b: EdgeView| id_ord(waiting(a), waiting(b));
    let by_waited = |a: EdgeView, b: EdgeView| id_ord(waited(a), waited(b));
    assert(total_on(by_waiting, dom)) by {
        assert(total_on(by_waiting, |e: EdgeView| key_dom(waiting(e))));
    }
    assert(total_on(by_waited, dom)) by {
        assert(total_on(by_waited, |e: EdgeView| key_dom(waited(e))));
    }
    lemma_chain_total_on(by_waiting, by_waited, dom);
    let tie = |a: EdgeView, b: EdgeView| chain(by_waiting(a, b), by_waited(a, b));
    lemma_chain_total_on(by_project, tie, dom);
    let ord = |a: EdgeView, b: EdgeView| chain(by_project(a, b), tie(a, b));
    let f = |k: usize| es[k + 0int];
    assert forall|k: usize| k < es.len() implies dom(#[trigger] f(k)) by {
        assert(number_of_key(es[k + 0int].1) is Some && number_of_key(es[k + 0int].2) is Some);
    }
    lemma_preorder_through(ord, dom, f, es.len() + 0int);
    assert(edge_order(es) =~= (|a: usize, b: usize| ord(f(a), f(b))));
}

} // verus!
