//! The edges a flow draws: the dependencies each task of the flow declares, as its file declares
//! them, and the dependencies that name no task.
use std::cmp::Ordering;

use vstd::prelude::*;

use crate::family::{above, climb, family_parents, lemma_family_in_range, links_in_range, Family};
use crate::field::{FieldErrorView, FieldView};
use crate::flow::{opt_text, FlowEdge, FlowNode, FlowNodeView};
use crate::graph::seqs_of;
use crate::layout::Layout;
use crate::layering::falses;
use crate::metadata::MetadataView;
use crate::status::Status;
use crate::growth::{dependency_position, is_remaining, lemma_position_at, live_dependencies, position_of, remaining};
use crate::keys::ref_target;
use crate::order::{id_cmp, id_order, text_lex};
use crate::sort::{is_permutation, preorder_on, sort_positions, sorted_by, stable_by};
use crate::task::TaskListItem;
use crate::text::{chain, chain_orders, flip, lemma_lex_equal, lemma_lex_flip, lemma_lex_transitive, same_chars, text_order};

verus! {

/// An edge as plain values: the project, the task waited for, the task that waits.
pub type EdgeView = (Seq<char>, Seq<char>, Seq<char>);

/// A dependency that names no task, as plain values: the project and the raw reference.
pub type RefView = (Seq<char>, Seq<char>);

/// The edge the dependency `d` of the task at `i` draws: from the task it names while somebody can
/// still implement that task, none once that task is finished, and from the raw reference where it
/// names no task.
pub open spec fn dependency_edge(ts: Seq<TaskListItem>, i: int, d: Seq<char>) -> Option<EdgeView> {
    match dependency_position(ts, i, d) {
        Some(t) => if remaining(ts[t]) {
            Some((ts[i].project@, ts[t].id@, ts[i].id@))
        } else {
            None
        },
        None => Some((ts[i].project@, d, ts[i].id@)),
    }
}

/// The reference the dependency `d` of the task at `i` leaves dangling, when it names no task.
pub open spec fn dangling_ref(ts: Seq<TaskListItem>, i: int, d: Seq<char>) -> Option<RefView> {
    match dependency_position(ts, i, d) {
        Some(_) => None,
        None => Some((ts[i].project@, d)),
    }
}

/// What an optional value adds to a list.
pub open spec fn add_some<T>(s: Seq<T>, x: Option<T>) -> Seq<T> {
    match x {
        Some(v) => s.push(v),
        None => s,
    }
}

/// The edges the first `k` dependencies the task at `i` still declares draw, in order.
pub open spec fn dependency_edges(ts: Seq<TaskListItem>, i: int, k: int) -> Seq<EdgeView>
    decreases k,
{
    if k <= 0 {
        Seq::empty()
    } else {
        add_some(dependency_edges(ts, i, k - 1), dependency_edge(ts, i, live_dependencies(ts[i])[k - 1]@))
    }
}

/// The dangling references among the first `k` dependencies the task at `i` still declares.
pub open spec fn dangling_refs(ts: Seq<TaskListItem>, i: int, k: int) -> Seq<RefView>
    decreases k,
{
    if k <= 0 {
        Seq::empty()
    } else {
        add_some(dangling_refs(ts, i, k - 1), dangling_ref(ts, i, live_dependencies(ts[i])[k - 1]@))
    }
}

/// The edges the tasks of the flow among the first `m` declare, task by task.
pub open spec fn declared_edges(ts: Seq<TaskListItem>, included: Seq<bool>, m: int) -> Seq<EdgeView>
    decreases m,
{
    if m <= 0 {
        Seq::empty()
    } else if included[m - 1] {
        declared_edges(ts, included, m - 1) + dependency_edges(ts, m - 1, live_dependencies(ts[m - 1]).len() + 0int)
    } else {
        declared_edges(ts, included, m - 1)
    }
}

/// The dangling references the tasks of the flow among the first `m` declare, task by task.
pub open spec fn declared_refs(ts: Seq<TaskListItem>, included: Seq<bool>, m: int) -> Seq<RefView>
    decreases m,
{
    if m <= 0 {
        Seq::empty()
    } else if included[m - 1] {
        declared_refs(ts, included, m - 1) + dangling_refs(ts, m - 1, live_dependencies(ts[m - 1]).len() + 0int)
    } else {
        declared_refs(ts, included, m - 1)
    }
}

/// The list with each run of equal neighbours cut to its first member.
#[verifier::opaque]
pub open spec fn dedup<T>(s: Seq<T>) -> Seq<T>
    decreases s.len(),
{
    if s.len() <= 1 {
        s
    } else if s[s.len() - 1] == s[s.len() - 2] {
        dedup(s.drop_last())
    } else {
        dedup(s.drop_last()).push(s.last())
    }
}

/// The members of `s` in the order `order` names them.
pub open spec fn permuted<T>(s: Seq<T>, order: Seq<usize>) -> Seq<T> {
    Seq::new(order.len(), |k: int| s[order[k] + 0int])
}

/// `out` is `raw` sorted by `ord`, ties in their own order, each run of equal neighbours cut to
/// its first member. The sort is only pinned where `ord` is a total preorder on `raw`.
pub open spec fn sorted_unique<T>(raw: Seq<T>, ord: spec_fn(usize, usize) -> Ordering, out: Seq<T>) -> bool {
    exists|order: Seq<usize>|
        #[trigger] is_permutation(order, raw.len() + 0int) && (preorder_on(ord, raw.len() + 0int) ==> sorted_by(order, ord) && stable_by(order, ord)) && out == dedup(permuted(raw, order))
}

/// Edges by project, then by the task that waits, then by the task waited for.
pub open spec fn edge_order(es: Seq<EdgeView>) -> spec_fn(usize, usize) -> Ordering {
    |a: usize, b: usize|
        chain(
            text_lex(es[a + 0int].0, es[b + 0int].0),
            chain(id_order(es[a + 0int].2, es[b + 0int].2), id_order(es[a + 0int].1, es[b + 0int].1)),
        )
}

/// Dangling references by project, then by their text.
pub open spec fn ref_order(rs: Seq<RefView>) -> spec_fn(usize, usize) -> Ordering {
    |a: usize, b: usize| chain(text_lex(rs[a + 0int].0, rs[b + 0int].0), text_lex(rs[a + 0int].1, rs[b + 0int].1))
}

/// Text order chains: a tie and a tie make a tie, and a step before and a step not after make a
/// step before.
proof fn lemma_text_steps(a: Seq<char>, b: Seq<char>, c: Seq<char>)
    requires
        text_lex(a, b) != Ordering::Greater,
        text_lex(b, c) != Ordering::Greater,
    ensures
        text_lex(a, b) == Ordering::Equal && text_lex(b, c) == Ordering::Equal ==> text_lex(a, c) == Ordering::Equal,
        text_lex(a, b) == Ordering::Less || text_lex(b, c) == Ordering::Less ==> text_lex(a, c) == Ordering::Less,
{
    let (x, y, z) = (vstd::utf8::encode_utf8(a), vstd::utf8::encode_utf8(b), vstd::utf8::encode_utf8(c));
    lemma_lex_transitive(x, y, z);
    lemma_lex_equal(x, y);
    lemma_lex_equal(y, z);
    lemma_lex_equal(x, z);
}

/// The order of the dangling references, by project and then by text, is a total preorder: the
/// references a flow reports always come sorted.
pub proof fn lemma_ref_order_preorder(rs: Seq<RefView>)
    ensures
        preorder_on(ref_order(rs), rs.len() + 0int),
{
    let ord = ref_order(rs);
    let n = rs.len() + 0int;
    assert forall|a: usize, b: usize| a < n && b < n implies #[trigger] ord(a, b) == flip(ord(b, a)) by {
        lemma_lex_flip(vstd::utf8::encode_utf8(rs[a + 0int].0), vstd::utf8::encode_utf8(rs[b + 0int].0));
        lemma_lex_flip(vstd::utf8::encode_utf8(rs[a + 0int].1), vstd::utf8::encode_utf8(rs[b + 0int].1));
    }
    assert forall|a: usize, b: usize, c: usize|
        a < n && b < n && c < n && #[trigger] ord(a, b) != Ordering::Greater && #[trigger] ord(b, c)
            != Ordering::Greater implies ord(a, c) != Ordering::Greater by {
        let (x, y, z) = (rs[a + 0int], rs[b + 0int], rs[c + 0int]);
        lemma_text_steps(x.0, y.0, z.0);
        if text_lex(x.0, y.0) == Ordering::Equal && text_lex(y.0, z.0) == Ordering::Equal {
            lemma_text_steps(x.1, y.1, z.1);
        }
    }
}

/// The edges a list holds, as plain values.
pub open spec fn edge_views(v: Seq<FlowEdge>) -> Seq<EdgeView> {
    Seq::new(v.len(), |k: int| v[k]@)
}

/// The references a list holds, as plain values.
pub open spec fn ref_views(v: Seq<(String, String)>) -> Seq<RefView> {
    Seq::new(v.len(), |k: int| (v[k].0@, v[k].1@))
}

/// One more member keeps the runs cut so far, and adds itself unless it repeats the last one.
proof fn lemma_dedup_push<T>(s: Seq<T>, x: T)
    ensures
        dedup(s.push(x)) == if s.len() > 0 && s.last() == x {
            dedup(s)
        } else {
            dedup(s).push(x)
        },
{
    reveal(dedup);
    assert(s.push(x).drop_last() =~= s);
    if s.len() == 0 {
        assert(dedup(s.push(x)) =~= dedup(s).push(x));
    }
}

/// The cut list ends on what the list ends on.
proof fn lemma_dedup_last<T>(s: Seq<T>)
    requires
        s.len() > 0,
    ensures
        dedup(s).len() > 0,
        dedup(s).last() == s.last(),
    decreases s.len(),
{
    reveal(dedup);
    if s.len() > 1 {
        lemma_dedup_last(s.drop_last());
    }
}

/// The first `j` members of a permuted list, and one more.
proof fn lemma_permuted_take<T>(s: Seq<T>, order: Seq<usize>, j: int)
    requires
        0 <= j < order.len(),
    ensures
        permuted(s, order).take(j + 1) == permuted(s, order).take(j).push(s[order[j] + 0int]),
{
    assert(permuted(s, order).take(j + 1) =~= permuted(s, order).take(j).push(s[order[j] + 0int]));
}

/// A copy of an edge.
fn copy_edge(e: &FlowEdge) -> (copy: FlowEdge)
    ensures
        copy@ == e@,
{
    FlowEdge { project: e.project.clone(), from: e.from.clone(), to: e.to.clone() }
}

/// The edges in edge order, each repeat dropped.
fn sorted_edges(raw: &Vec<FlowEdge>) -> (out: Vec<FlowEdge>)
    ensures
        sorted_unique(edge_views(raw@), edge_order(edge_views(raw@)), edge_views(out@)),
{
    let ghost es = edge_views(raw@);
    let ghost ord = edge_order(es);
    let n = raw.len();
    let less = |a: usize, b: usize| -> (r: bool)
        requires
            a < raw.len(),
            b < raw.len(),
        ensures
            r == (edge_order(edge_views(raw@))(a, b) == Ordering::Less),
        {
            let x = &raw[a];
            let y = &raw[b];
            let by_task = chain_orders(id_cmp(x.to.as_str(), y.to.as_str()), id_cmp(x.from.as_str(), y.from.as_str()));
            match chain_orders(text_order(x.project.as_str(), y.project.as_str()), by_task) {
                Ordering::Less => true,
                _ => false,
            }
        };
    let order = sort_positions(n, less, Ghost(ord));
    let ghost sorted = permuted(es, order@);
    let mut out: Vec<FlowEdge> = Vec::new();
    let mut j: usize = 0;
    proof {
        reveal(dedup);
        assert(edge_views(out@) =~= dedup(sorted.take(0)));
    }
    while j < n
        invariant
            n == raw.len(),
            es == edge_views(raw@),
            is_permutation(order@, n + 0int),
            sorted == permuted(es, order@),
            j <= n,
            edge_views(out@) == dedup(sorted.take(j + 0int)),
        decreases n - j,
    {
        let e = &raw[order[j]];
        proof {
            lemma_permuted_take(es, order@, j + 0int);
            lemma_dedup_push(sorted.take(j + 0int), e@);
            if j > 0 {
                lemma_dedup_last(sorted.take(j + 0int));
            }
        }
        let fresh = if out.len() == 0 {
            true
        } else {
            let last = &out[out.len() - 1];
            !(same_chars(last.project.as_str(), e.project.as_str()) && same_chars(last.from.as_str(), e.from.as_str())
                && same_chars(last.to.as_str(), e.to.as_str()))
        };
        let ghost before = out@;
        proof {
            assert(sorted[j + 0int] == e@);
            if j == 0 {
                reveal(dedup);
                assert(sorted.take(0) =~= Seq::<EdgeView>::empty());
                assert(before.len() == 0);
            } else {
                assert(before.len() > 0);
            }
            if j > 0 {
                assert(edge_views(before).last() == before.last()@);
                assert(sorted.take(j + 0int).last() == sorted[j - 1]);
            }
            assert(fresh == !(j > 0 && sorted.take(j + 0int).last() == e@));
        }
        if fresh {
            out.push(copy_edge(e));
            proof {
                assert(edge_views(out@) =~= edge_views(before).push(e@));
            }
        }
        j = j + 1;
    }
    proof {
        assert(sorted.take(n + 0int) =~= sorted);
        assert(is_permutation(order@, es.len() + 0int));
    }
    out
}

/// The references in project order, then text order, each repeat dropped.
fn sorted_refs(raw: &Vec<(String, String)>) -> (out: Vec<(String, String)>)
    ensures
        sorted_unique(ref_views(raw@), ref_order(ref_views(raw@)), ref_views(out@)),
{
    let ghost rs = ref_views(raw@);
    let ghost ord = ref_order(rs);
    let n = raw.len();
    let less = |a: usize, b: usize| -> (r: bool)
        requires
            a < raw.len(),
            b < raw.len(),
        ensures
            r == (ref_order(ref_views(raw@))(a, b) == Ordering::Less),
        {
            let x = &raw[a];
            let y = &raw[b];
            match chain_orders(text_order(x.0.as_str(), y.0.as_str()), text_order(x.1.as_str(), y.1.as_str())) {
                Ordering::Less => true,
                _ => false,
            }
        };
    let order = sort_positions(n, less, Ghost(ord));
    let ghost sorted = permuted(rs, order@);
    let mut out: Vec<(String, String)> = Vec::new();
    let mut j: usize = 0;
    proof {
        reveal(dedup);
        assert(ref_views(out@) =~= dedup(sorted.take(0)));
    }
    while j < n
        invariant
            n == raw.len(),
            rs == ref_views(raw@),
            is_permutation(order@, n + 0int),
            sorted == permuted(rs, order@),
            j <= n,
            ref_views(out@) == dedup(sorted.take(j + 0int)),
        decreases n - j,
    {
        let r = &raw[order[j]];
        let ghost rv = (r.0@, r.1@);
        proof {
            lemma_permuted_take(rs, order@, j + 0int);
            lemma_dedup_push(sorted.take(j + 0int), rv);
            if j > 0 {
                lemma_dedup_last(sorted.take(j + 0int));
            }
        }
        let fresh = if out.len() == 0 {
            true
        } else {
            let last = &out[out.len() - 1];
            !(same_chars(last.0.as_str(), r.0.as_str()) && same_chars(last.1.as_str(), r.1.as_str()))
        };
        let ghost before = out@;
        proof {
            assert(sorted[j + 0int] == rv);
            if j == 0 {
                reveal(dedup);
                assert(sorted.take(0) =~= Seq::<RefView>::empty());
                assert(before.len() == 0);
            } else {
                assert(before.len() > 0);
            }
            if j > 0 {
                assert(ref_views(before).last() == (before.last().0@, before.last().1@));
                assert(sorted.take(j + 0int).last() == sorted[j - 1]);
            }
            assert(fresh == !(j > 0 && sorted.take(j + 0int).last() == rv));
        }
        if fresh {
            out.push((r.0.clone(), r.1.clone()));
            proof {
                assert(ref_views(out@) =~= ref_views(before).push(rv));
            }
        }
        j = j + 1;
    }
    proof {
        assert(sorted.take(n + 0int) =~= sorted);
        assert(is_permutation(order@, rs.len() + 0int));
    }
    out
}

/// The edges the flow draws and the dependencies that name no task. Each task of the flow draws
/// the dependencies it still declares, as its file declares them: an inherited dependency draws
/// none of its own, and one on a finished task draws nothing. The edges come by project, then by
/// the task that waits, then by the task waited for, each once; the dangling references by
/// project and text, each once.
pub fn wire(tasks: &Vec<TaskListItem>, included: &Vec<bool>) -> (wired: (Vec<FlowEdge>, Vec<(String, String)>))
    requires
        included.len() == tasks.len(),
    ensures
        sorted_unique(
            declared_edges(tasks@, included@, tasks.len() + 0int),
            edge_order(declared_edges(tasks@, included@, tasks.len() + 0int)),
            edge_views(wired.0@),
        ),
        sorted_unique(
            declared_refs(tasks@, included@, tasks.len() + 0int),
            ref_order(declared_refs(tasks@, included@, tasks.len() + 0int)),
            ref_views(wired.1@),
        ),
        preorder_on(
            ref_order(declared_refs(tasks@, included@, tasks.len() + 0int)),
            declared_refs(tasks@, included@, tasks.len() + 0int).len() + 0int,
        ),
{
    proof {
        lemma_ref_order_preorder(declared_refs(tasks@, included@, tasks.len() + 0int));
    }
    let ghost ts = tasks@;
    let n = tasks.len();
    let mut edges: Vec<FlowEdge> = Vec::new();
    let mut refs: Vec<(String, String)> = Vec::new();
    let mut i: usize = 0;
    while i < n
        invariant
            ts == tasks@,
            n == tasks.len(),
            included.len() == n,
            i <= n,
            edge_views(edges@) == declared_edges(ts, included@, i + 0int),
            ref_views(refs@) == declared_refs(ts, included@, i + 0int),
        decreases n - i,
    {
        let ghost edges_before = edge_views(edges@);
        let ghost refs_before = ref_views(refs@);
        if included[i] && is_remaining(&tasks[i]) {
            let task = &tasks[i];
            let deps = task.metadata.dependencies();
            let project = task.project.as_str();
            let mut k: usize = 0;
            while k < deps.len()
                invariant
                    ts == tasks@,
                    i < n,
                    n == tasks.len(),
                    *task == ts[i + 0int],
                    remaining(ts[i + 0int]),
                    project@ == ts[i + 0int].project@,
                    deps@ == live_dependencies(ts[i + 0int]),
                    k <= deps@.len(),
                    edge_views(edges@) == edges_before + dependency_edges(ts, i + 0int, k + 0int),
                    ref_views(refs@) == refs_before + dangling_refs(ts, i + 0int, k + 0int),
                decreases deps@.len() - k,
            {
                let dep = &deps[k];
                let ghost d = deps@[k + 0int]@;
                let target = ref_target(dep.as_str());
                let ghost e_before = edge_views(edges@);
                let ghost r_before = ref_views(refs@);
                match position_of(tasks, project, target) {
                    Some(t) => {
                        proof {
                            lemma_position_at(ts, (ts[i + 0int].project@, target@));
                            assert(dependency_position(ts, i + 0int, d) == Some(t + 0int));
                        }
                        if is_remaining(&tasks[t]) {
                            edges.push(FlowEdge { project: task.project.clone(), from: tasks[t].id.clone(), to: task.id.clone() });
                            proof {
                                assert(edge_views(edges@) =~= e_before.push((ts[i + 0int].project@, ts[t + 0int].id@, ts[i + 0int].id@)));
                            }
                        }
                    },
                    None => {
                        proof {
                            assert(dependency_position(ts, i + 0int, d) is None);
                        }
                        refs.push((task.project.clone(), dep.clone()));
                        edges.push(FlowEdge { project: task.project.clone(), from: dep.clone(), to: task.id.clone() });
                        proof {
                            assert(edge_views(edges@) =~= e_before.push((ts[i + 0int].project@, d, ts[i + 0int].id@)));
                            assert(ref_views(refs@) =~= r_before.push((ts[i + 0int].project@, d)));
                        }
                    },
                }
                proof {
                    assert(edges_before + dependency_edges(ts, i + 0int, k + 1) =~= edges_before + dependency_edges(ts, i + 0int, k + 0int) + (dependency_edges(ts, i + 0int, k + 1).skip(dependency_edges(ts, i + 0int, k + 0int).len() + 0int)));
                    assert(edge_views(edges@) =~= edges_before + dependency_edges(ts, i + 0int, k + 1));
                    assert(ref_views(refs@) =~= refs_before + dangling_refs(ts, i + 0int, k + 1));
                }
                k = k + 1;
            }
            proof {
                assert(edge_views(edges@) == declared_edges(ts, included@, i + 1));
                assert(ref_views(refs@) == declared_refs(ts, included@, i + 1));
            }
        } else {
            proof {
                if included@[i + 0int] {
                    assert(live_dependencies(ts[i + 0int]) =~= Seq::<String>::empty());
                    assert(dependency_edges(ts, i + 0int, 0) =~= Seq::<EdgeView>::empty());
                    assert(edge_views(edges@) =~= declared_edges(ts, included@, i + 1));
                    assert(ref_views(refs@) =~= declared_refs(ts, included@, i + 1));
                }
            }
        }
        i = i + 1;
    }
    (sorted_edges(&edges), sorted_refs(&refs))
}

/// Each edge the task at `i` draws runs to that task, inside its project.
proof fn lemma_dependency_edges_end(ts: Seq<TaskListItem>, i: int, k: int)
    ensures
        forall|j: int|
            0 <= j < dependency_edges(ts, i, k).len() ==> (#[trigger] dependency_edges(ts, i, k)[j]).0 == ts[i].project@
                && dependency_edges(ts, i, k)[j].2 == ts[i].id@,
    decreases k,
{
    if k > 0 {
        lemma_dependency_edges_end(ts, i, k - 1);
        let before = dependency_edges(ts, i, k - 1);
        let all = dependency_edges(ts, i, k);
        assert forall|j: int| 0 <= j < all.len() implies (#[trigger] all[j]).0 == ts[i].project@ && all[j].2 == ts[i].id@ by {
            if j < before.len() {
                assert(all[j] == before[j]);
            } else {
                assert(all[j] == dependency_edge(ts, i, live_dependencies(ts[i])[k - 1]@)->0);
            }
        }
    }
}

/// The edge runs to one of the first `m` tasks that the flow holds, inside that task's project.
pub open spec fn ends_in_flow(ts: Seq<TaskListItem>, included: Seq<bool>, m: int, e: EdgeView) -> bool {
    exists|i: int| 0 <= i < m && included[i] && e.0 == ts[i].project@ && e.2 == #[trigger] ts[i].id@
}

/// Each edge the tasks among the first `m` draw runs to one of them that the flow holds, inside
/// that task's project.
proof fn lemma_declared_edges_end(ts: Seq<TaskListItem>, included: Seq<bool>, m: int)
    ensures
        forall|j: int|
            0 <= j < declared_edges(ts, included, m).len() ==> ends_in_flow(ts, included, m, #[trigger] declared_edges(ts, included, m)[j]),
    decreases m,
{
    if m > 0 {
        lemma_declared_edges_end(ts, included, m - 1);
        let before = declared_edges(ts, included, m - 1);
        let all = declared_edges(ts, included, m);
        if included[m - 1] {
            let own = dependency_edges(ts, m - 1, live_dependencies(ts[m - 1]).len() + 0int);
            lemma_dependency_edges_end(ts, m - 1, live_dependencies(ts[m - 1]).len() + 0int);
            assert(all == before + own);
            assert forall|j: int| 0 <= j < all.len() implies ends_in_flow(ts, included, m, #[trigger] all[j]) by {
                if j < before.len() {
                    assert(all[j] == before[j]);
                    assert(ends_in_flow(ts, included, m - 1, before[j]));
                    let i = choose|i: int| 0 <= i < m - 1 && included[i] && before[j].0 == ts[i].project@ && before[j].2 == #[trigger] ts[i].id@;
                    assert(0 <= i < m && included[i] && all[j].0 == ts[i].project@ && all[j].2 == ts[i].id@);
                } else {
                    assert(all[j] == own[j - before.len()]);
                    assert(0 <= m - 1 < m && included[m - 1] && all[j].0 == ts[m - 1].project@ && all[j].2 == ts[m - 1].id@);
                }
            }
        } else {
            assert(all == before);
            assert forall|j: int| 0 <= j < all.len() implies ends_in_flow(ts, included, m, #[trigger] all[j]) by {
                assert(ends_in_flow(ts, included, m - 1, before[j]));
                let i = choose|i: int| 0 <= i < m - 1 && included[i] && before[j].0 == ts[i].project@ && before[j].2 == #[trigger] ts[i].id@;
                assert(0 <= i < m && included[i] && all[j].0 == ts[i].project@ && all[j].2 == ts[i].id@);
            }
        }
    }
}

/// What the cut list holds, the list held.
proof fn lemma_dedup_within<T>(s: Seq<T>)
    ensures
        forall|j: int| 0 <= j < dedup(s).len() ==> s.contains(#[trigger] dedup(s)[j]),
    decreases s.len(),
{
    reveal(dedup);
    if s.len() > 1 {
        lemma_dedup_within(s.drop_last());
        assert forall|j: int| 0 <= j < dedup(s).len() implies s.contains(#[trigger] dedup(s)[j]) by {
            let rest = dedup(s.drop_last());
            if j < rest.len() {
                assert(dedup(s)[j] == rest[j]);
                let at = choose|at: int| 0 <= at < s.drop_last().len() && s.drop_last()[at] == rest[j];
                assert(s[at] == rest[j]);
            } else {
                assert(dedup(s)[j] == s.last());
                assert(s[s.len() - 1] == s.last());
            }
        }
    } else {
        assert forall|j: int| 0 <= j < dedup(s).len() implies s.contains(#[trigger] dedup(s)[j]) by {
            assert(s[j] == dedup(s)[j]);
        }
    }
}

/// No edge a flow draws crosses a project: each one runs to a task of the flow, inside that task's
/// own project, because a key resolves inside one store only.
pub proof fn lemma_edges_stay_in_project(ts: Seq<TaskListItem>, members: Seq<bool>, edges: Seq<EdgeView>)
    requires
        sorted_unique(
            declared_edges(ts, members, ts.len() + 0int),
            edge_order(declared_edges(ts, members, ts.len() + 0int)),
            edges,
        ),
    ensures
        forall|k: int| 0 <= k < edges.len() ==> ends_in_flow(ts, members, ts.len() + 0int, #[trigger] edges[k]),
{
    let raw = declared_edges(ts, members, ts.len() + 0int);
    let order = choose|order: Seq<usize>|
        #[trigger] is_permutation(order, raw.len() + 0int) && (preorder_on(edge_order(raw), raw.len() + 0int) ==> sorted_by(order, edge_order(raw)) && stable_by(order, edge_order(raw))) && edges == dedup(permuted(raw, order));
    let sorted = permuted(raw, order);
    lemma_dedup_within(sorted);
    lemma_declared_edges_end(ts, members, ts.len() + 0int);
    assert forall|k: int| 0 <= k < edges.len() implies ends_in_flow(ts, members, ts.len() + 0int, #[trigger] edges[k]) by {
        assert(sorted.contains(edges[k]));
        let at = choose|at: int| 0 <= at < sorted.len() && sorted[at] == edges[k];
        assert(sorted[at] == raw[order[at] + 0int]);
    }
}

/// `a` lists the tasks above the task at `i` in the family, nearest first, up to the top.
pub open spec fn is_ancestry(parent: Seq<Option<usize>>, i: usize, a: Seq<usize>) -> bool {
    &&& climb(parent, i, (a.len() + 1) as nat) is None
    &&& forall|m: int| 0 <= m < a.len() ==> climb(parent, i, (m + 1) as nat) == Some(#[trigger] a[m])
}

/// The tasks above the task at `i` in the family, nearest first.
pub open spec fn ancestry(parent: Seq<Option<usize>>, i: usize) -> Seq<usize> {
    choose|a: Seq<usize>| is_ancestry(parent, i, a)
}

/// Two lists of the tasks above one task are the same list.
pub proof fn lemma_ancestry_unique(parent: Seq<Option<usize>>, i: usize, a: Seq<usize>, b: Seq<usize>)
    requires
        is_ancestry(parent, i, a),
        is_ancestry(parent, i, b),
    ensures
        a == b,
{
    if a.len() < b.len() {
        assert(climb(parent, i, (a.len() + 1) as nat) == Some(b[a.len() as int]));
    }
    if b.len() < a.len() {
        assert(climb(parent, i, (b.len() + 1) as nat) == Some(a[b.len() as int]));
    }
    assert forall|m: int| 0 <= m < a.len() implies a[m] == b[m] by {
        assert(climb(parent, i, (m + 1) as nat) == Some(a[m]));
        assert(climb(parent, i, (m + 1) as nat) == Some(b[m]));
    }
    assert(a =~= b);
}

/// The boxes the first `q` members of `list` open: each member that neither `seen` nor an
/// earlier member of `list` holds already.
pub open spec fn new_boxes(seen: Seq<usize>, list: Seq<usize>, q: int) -> Seq<usize>
    decreases q,
{
    if q <= 0 {
        Seq::empty()
    } else {
        let before = new_boxes(seen, list, q - 1);
        if seen.contains(list[q - 1]) || before.contains(list[q - 1]) {
            before
        } else {
            before.push(list[q - 1])
        }
    }
}

/// The boxes around a leaf that open before it: the tasks above it, outermost first, each that no
/// earlier leaf opened already.
pub open spec fn boxes_opened(parent: Seq<Option<usize>>, seen: Seq<usize>, task: usize) -> Seq<usize> {
    new_boxes(seen, ancestry(parent, task).reverse(), ancestry(parent, task).len() + 0int)
}

/// The boxes the first `j` leaves of `reading` open, in the order they open.
pub open spec fn boxes_before(parent: Seq<Option<usize>>, reading: Seq<usize>, j: int) -> Seq<usize>
    decreases j,
{
    if j <= 0 {
        Seq::empty()
    } else {
        let seen = boxes_before(parent, reading, j - 1);
        seen + boxes_opened(parent, seen, reading[j - 1])
    }
}

/// The places of the leaves in reading order, wave by wave, for the first `w` waves: each as its
/// wave and its position inside the wave.
pub open spec fn entries_upto(waves: Seq<Seq<usize>>, w: int) -> Seq<(usize, usize)>
    decreases w,
{
    if w <= 0 {
        Seq::empty()
    } else {
        entries_upto(waves, w - 1) + Seq::new(waves[w - 1].len(), |p: int| ((w - 1) as usize, p as usize))
    }
}

/// The task position of each leaf in reading order.
pub open spec fn reading_tasks(leaves: Seq<usize>, waves: Seq<Seq<usize>>, es: Seq<(usize, usize)>) -> Seq<usize> {
    Seq::new(es.len(), |k: int| leaves[waves[es[k].0 as int][es[k].1 as int] as int])
}

/// The key of the parent the task at `q` sits under in the flow, if it sits under one.
pub open spec fn parent_key(ts: Seq<TaskListItem>, parent: Seq<Option<usize>>, q: int) -> Option<Seq<char>> {
    match parent[q] {
        Some(x) => Some(ts[x as int].id@),
        None => None,
    }
}

/// The status a task shows: a file whose metadata did not parse fails the field.
pub open spec fn status_view(m: MetadataView) -> FieldView<Status> {
    match m {
        MetadataView::Fields(f) => f.status,
        MetadataView::Error(message) => FieldView::Error(FieldErrorView::Invalid(message)),
    }
}

/// The box node of the task at `q`.
pub open spec fn box_node(ts: Seq<TaskListItem>, parent: Seq<Option<usize>>, q: usize) -> FlowNodeView {
    FlowNodeView::Box {
        project: ts[q as int].project@,
        id: ts[q as int].id@,
        title: ts[q as int].title@,
        status: status_view(ts[q as int].metadata@),
        parent: parent_key(ts, parent, q as int),
    }
}

/// The leaf node of the task at `t`, at `position` in `wave`, with `blocks` leaves waiting for it.
pub open spec fn leaf_node(ts: Seq<TaskListItem>, parent: Seq<Option<usize>>, t: usize, wave: usize, position: usize, blocks: usize) -> FlowNodeView {
    FlowNodeView::Leaf {
        project: ts[t as int].project@,
        id: ts[t as int].id@,
        title: ts[t as int].title@,
        status: status_view(ts[t as int].metadata@),
        parent: parent_key(ts, parent, t as int),
        wave,
        position,
        blocks_count: blocks,
    }
}

/// The nodes of the first `j` leaves in reading order, each after the boxes it opens.
pub open spec fn reading_nodes(ts: Seq<TaskListItem>, parent: Seq<Option<usize>>, leaves: Seq<usize>, waves: Seq<Seq<usize>>, blocks: Seq<usize>, es: Seq<(usize, usize)>, j: int) -> Seq<FlowNodeView>
    decreases j,
{
    if j <= 0 {
        Seq::empty()
    } else {
        let reading = reading_tasks(leaves, waves, es);
        let e = es[j - 1];
        let leaf = waves[e.0 as int][e.1 as int];
        let opened = boxes_opened(parent, boxes_before(parent, reading, j - 1), reading[j - 1]);
        reading_nodes(ts, parent, leaves, waves, blocks, es, j - 1) + opened.map_values(|q: usize| box_node(ts, parent, q)).push(
            leaf_node(ts, parent, reading[j - 1], e.0, e.1, blocks[leaf as int]),
        )
    }
}

/// The node of each dangling reference.
pub open spec fn unresolved_nodes(refs: Seq<RefView>) -> Seq<FlowNodeView> {
    refs.map_values(|r: RefView| FlowNodeView::Unresolved { project: r.0, id: r.1 })
}

/// The nodes a list holds, as plain values.
pub open spec fn node_views(v: Seq<FlowNode>) -> Seq<FlowNodeView> {
    Seq::new(v.len(), |k: int| v[k]@)
}

/// The places of the leaves in reading order.
fn entries(waves: &Vec<Vec<usize>>) -> (es: Vec<(usize, usize)>)
    ensures
        es@ == entries_upto(seqs_of(waves), waves.len() + 0int),
{
    let ghost ws = seqs_of(waves);
    let mut es: Vec<(usize, usize)> = Vec::new();
    let mut w: usize = 0;
    while w < waves.len()
        invariant
            ws == seqs_of(waves),
            w <= waves.len(),
            es@ == entries_upto(ws, w + 0int),
        decreases waves.len() - w,
    {
        let ghost before = es@;
        let mut p: usize = 0;
        while p < waves[w].len()
            invariant
                ws == seqs_of(waves),
                w < waves.len(),
                p <= waves@[w + 0int]@.len(),
                es@ == before + Seq::new(p as nat, |r: int| (w, r as usize)),
            decreases waves@[w + 0int]@.len() - p,
        {
            es.push((w, p));
            proof {
                assert(es@ =~= before + Seq::new((p + 1) as nat, |r: int| (w, r as usize)));
            }
            p = p + 1;
        }
        proof {
            assert(es@ =~= entries_upto(ws, w + 1));
        }
        w = w + 1;
    }
    es
}

/// The key of the parent the task at `q` sits under in the flow. A parent the flow does not hold
/// is one the client cannot draw a box for, so it reads as none.
fn parent_in_flow(tasks: &Vec<TaskListItem>, family: &Family, Ghost(included): Ghost<Seq<bool>>, q: usize) -> (key: Option<String>)
    requires
        family.parent@ == family_parents(tasks@, included),
        included.len() == tasks.len(),
        q < tasks.len(),
    ensures
        opt_text(key) == parent_key(tasks@, family.parent@, q + 0int),
{
    proof {
        lemma_family_in_range(tasks@, included);
    }
    match family.parent[q] {
        Some(x) => Some(tasks[x].id.clone()),
        None => None,
    }
}

/// The box node of the task at `q`.
fn box_of(tasks: &Vec<TaskListItem>, family: &Family, Ghost(included): Ghost<Seq<bool>>, q: usize) -> (node: FlowNode)
    requires
        family.parent@ == family_parents(tasks@, included),
        included.len() == tasks.len(),
        q < tasks.len(),
    ensures
        node@ == box_node(tasks@, family.parent@, q),
{
    let task = &tasks[q];
    FlowNode::Box {
        project: task.project.clone(),
        id: task.id.clone(),
        title: task.title.clone(),
        status: task.metadata.status_field(),
        parent: parent_in_flow(tasks, family, Ghost(included), q),
    }
}

/// The leaf node of the task at `t`.
fn leaf_of(tasks: &Vec<TaskListItem>, family: &Family, Ghost(included): Ghost<Seq<bool>>, t: usize, wave: usize, position: usize, blocks: usize) -> (node: FlowNode)
    requires
        family.parent@ == family_parents(tasks@, included),
        included.len() == tasks.len(),
        t < tasks.len(),
    ensures
        node@ == leaf_node(tasks@, family.parent@, t, wave, position, blocks),
{
    let task = &tasks[t];
    FlowNode::Leaf {
        project: task.project.clone(),
        id: task.id.clone(),
        title: task.title.clone(),
        status: task.metadata.status_field(),
        parent: parent_in_flow(tasks, family, Ghost(included), t),
        wave,
        position,
        blocks_count: blocks,
    }
}
/// Each place in reading order names a wave and a position inside it.
proof fn lemma_entries_in_range(waves: Seq<Seq<usize>>, w: int)
    requires
        0 <= w <= waves.len(),
        waves.len() <= usize::MAX,
        forall|v: int| 0 <= v < waves.len() ==> (#[trigger] waves[v]).len() <= usize::MAX,
    ensures
        forall|k: int|
            0 <= k < entries_upto(waves, w).len() ==> (#[trigger] entries_upto(waves, w)[k]).0 < w && entries_upto(waves, w)[k].1
                < waves[entries_upto(waves, w)[k].0 as int].len(),
    decreases w,
{
    if w > 0 {
        lemma_entries_in_range(waves, w - 1);
        let before = entries_upto(waves, w - 1);
        assert forall|k: int| 0 <= k < entries_upto(waves, w).len() implies (#[trigger] entries_upto(waves, w)[k]).0 < w
            && entries_upto(waves, w)[k].1 < waves[entries_upto(waves, w)[k].0 as int].len() by {
            if k < before.len() {
                assert(entries_upto(waves, w)[k] == before[k]);
            } else {
                assert(entries_upto(waves, w)[k] == ((w - 1) as usize, (k - before.len()) as usize));
            }
        }
    }
}

/// The nodes in reading order: wave by wave, each leaf after the boxes around it that no earlier
/// leaf opened, outermost first; then a node for each dangling reference, because those belong to
/// no wave.
pub fn nodes(tasks: &Vec<TaskListItem>, family: &Family, Ghost(included): Ghost<Seq<bool>>, layout: &Layout, unresolved: &Vec<(String, String)>) -> (out: Vec<FlowNode>)
    requires
        family.parent@ == family_parents(tasks@, included),
        included.len() == tasks.len(),
        forall|k: int| 0 <= k < layout.leaves.len() ==> #[trigger] layout.leaves@[k] < tasks.len(),
        forall|w: int, k: int|
            0 <= w < layout.waves.len() && 0 <= k < layout.waves@[w]@.len() ==> #[trigger] layout.waves@[w]@[k] < layout.leaves.len(),
        layout.blocks.len() == layout.leaves.len(),
    ensures
        ({
            let ws = seqs_of(&layout.waves);
            let es = entries_upto(ws, layout.waves.len() + 0int);
            node_views(out@) == reading_nodes(tasks@, family.parent@, layout.leaves@, ws, layout.blocks@, es, es.len() + 0int)
                + unresolved_nodes(ref_views(unresolved@))
        }),
{
    let ghost ts = tasks@;
    let ghost fam = family.parent@;
    let ghost ws = seqs_of(&layout.waves);
    let es = entries(&layout.waves);
    let ghost reading = reading_tasks(layout.leaves@, ws, es@);
    let n = tasks.len();
    let mut emitted = falses(n);
    let mut out: Vec<FlowNode> = Vec::new();
    let ghost mut seen: Seq<usize> = Seq::empty();
    proof {
        lemma_family_in_range(ts, included);
        assert forall|v: int| 0 <= v < ws.len() implies (#[trigger] ws[v]).len() <= usize::MAX by {
            assert(ws[v] == layout.waves@[v]@);
            assert(layout.waves@[v]@.len() == layout.waves@[v].len());
        }
        lemma_entries_in_range(ws, ws.len() + 0int);
        assert(node_views(out@) =~= Seq::<FlowNodeView>::empty());
    }
    let mut j: usize = 0;
    while j < es.len()
        invariant
            ts == tasks@,
            fam == family.parent@,
            fam == family_parents(ts, included),
            links_in_range(fam),
            included.len() == ts.len(),
            n == ts.len(),
            forall|k: int| 0 <= k < layout.leaves.len() ==> #[trigger] layout.leaves@[k] < n,
            forall|w: int, k: int|
                0 <= w < layout.waves.len() && 0 <= k < layout.waves@[w]@.len() ==> #[trigger] layout.waves@[w]@[k] < layout.leaves.len(),
            layout.blocks.len() == layout.leaves.len(),
            ws == seqs_of(&layout.waves),
            es@ == entries_upto(ws, layout.waves.len() + 0int),
            forall|k: int|
                0 <= k < es@.len() ==> (#[trigger] es@[k]).0 < ws.len() && es@[k].1 < ws[es@[k].0 as int].len(),
            reading == reading_tasks(layout.leaves@, ws, es@),
            j <= es.len(),
            emitted.len() == n,
            seen == boxes_before(fam, reading, j + 0int),
            forall|x: int| 0 <= x < n ==> #[trigger] emitted@[x] == seen.contains(x as usize),
            node_views(out@) == reading_nodes(ts, fam, layout.leaves@, ws, layout.blocks@, es@, j + 0int),
        decreases es.len() - j,
    {
        let (w, p) = es[j];
        proof {
            assert(ws[w as int] == layout.waves@[w as int]@);
        }
        let leaf = layout.waves[w][p];
        let t = layout.leaves[leaf];
        proof {
            assert(reading[j as int] == t);
        }
        let anc = above(family, Ghost(ts), Ghost(included), t);
        proof {
            assert(is_ancestry(fam, t, anc@));
            lemma_ancestry_unique(fam, t, anc@, ancestry(fam, t));
            assert forall|m: int| 0 <= m < anc@.len() implies #[trigger] anc@[m] < n by {
                crate::family::lemma_climb_in_range(fam, t, (m + 1) as nat);
                assert(climb(fam, t, (m + 1) as nat) == Some(anc@[m]));
            }
        }
        let ghost list = anc@.reverse();
        let ghost base = node_views(out@);
        let mut r: usize = 0;
        proof {
            assert(base + new_boxes(seen, list, 0).map_values(|q: usize| box_node(ts, fam, q)) =~= base);
        }
        while r < anc.len()
            invariant
                ts == tasks@,
                fam == family.parent@,
                fam == family_parents(ts, included),
                included.len() == ts.len(),
                n == ts.len(),
                list == anc@.reverse(),
                forall|m: int| 0 <= m < anc@.len() ==> #[trigger] anc@[m] < n,
                r <= anc.len(),
                emitted.len() == n,
                forall|x: int| 0 <= x < n ==> #[trigger] emitted@[x] == (seen.contains(x as usize) || new_boxes(seen, list, r + 0int).contains(x as usize)),
                node_views(out@) == base + new_boxes(seen, list, r + 0int).map_values(|q: usize| box_node(ts, fam, q)),
            decreases anc.len() - r,
        {
            let q = anc[anc.len() - 1 - r];
            proof {
                assert(list[r as int] == q);
            }
            let ghost boxes = new_boxes(seen, list, r + 0int);
            let ghost before = out@;
            if !emitted[q] {
                emitted.set(q, true);
                out.push(box_of(tasks, family, Ghost(included), q));
                proof {
                    assert(new_boxes(seen, list, r + 1) == boxes.push(q));
                    assert(boxes.push(q).map_values(|x: usize| box_node(ts, fam, x)) =~= boxes.map_values(|x: usize| box_node(ts, fam, x)).push(box_node(ts, fam, q)));
                    assert(node_views(out@) =~= node_views(before).push(box_node(ts, fam, q)));
                    assert forall|x: int| 0 <= x < n implies #[trigger] emitted@[x] == (seen.contains(x as usize) || new_boxes(seen, list, r + 1).contains(x as usize)) by {
                        if x == q {
                            assert(boxes.push(q)[boxes.len() as int] == q);
                        } else {
                            if boxes.push(q).contains(x as usize) {
                                let at = choose|at: int| 0 <= at < boxes.push(q).len() && boxes.push(q)[at] == x as usize;
                                assert(boxes[at] == x as usize);
                            }
                            if boxes.contains(x as usize) {
                                let at = choose|at: int| 0 <= at < boxes.len() && boxes[at] == x as usize;
                                assert(boxes.push(q)[at] == x as usize);
                            }
                        }
                    }
                }
            } else {
                proof {
                    assert(new_boxes(seen, list, r + 1) == boxes);
                }
            }
            r = r + 1;
        }
        let ghost opened = new_boxes(seen, list, anc@.len() + 0int);
        let ghost before_leaf = out@;
        out.push(leaf_of(tasks, family, Ghost(included), t, w, p, layout.blocks[leaf]));
        proof {
            assert(boxes_opened(fam, seen, t) == opened);
            assert(node_views(out@) =~= node_views(before_leaf).push(leaf_node(ts, fam, t, w, p, layout.blocks@[leaf as int])));
            assert(es@[j as int] == (w, p));
            assert(node_views(out@) =~= reading_nodes(ts, fam, layout.leaves@, ws, layout.blocks@, es@, j + 1));
            seen = seen + opened;
            assert(seen == boxes_before(fam, reading, j + 1));
            assert forall|x: int| 0 <= x < n implies #[trigger] emitted@[x] == seen.contains(x as usize) by {
                let prev = boxes_before(fam, reading, j + 0int);
                if prev.contains(x as usize) {
                    let at = choose|at: int| 0 <= at < prev.len() && prev[at] == x as usize;
                    assert(seen[at] == x as usize);
                }
                if opened.contains(x as usize) {
                    let at = choose|at: int| 0 <= at < opened.len() && opened[at] == x as usize;
                    assert(seen[prev.len() + at] == x as usize);
                }
                if seen.contains(x as usize) {
                    let at = choose|at: int| 0 <= at < seen.len() && seen[at] == x as usize;
                    if at < prev.len() {
                        assert(prev[at] == x as usize);
                    } else {
                        assert(opened[at - prev.len()] == x as usize);
                    }
                }
            }
        }
        j = j + 1;
    }
    let ghost base = node_views(out@);
    let ghost tail = unresolved_nodes(ref_views(unresolved@));
    let mut k: usize = 0;
    proof {
        assert(base + tail.take(0) =~= base);
    }
    while k < unresolved.len()
        invariant
            k <= unresolved.len(),
            tail == unresolved_nodes(ref_views(unresolved@)),
            tail.len() == unresolved@.len(),
            node_views(out@) == base + tail.take(k + 0int),
        decreases unresolved.len() - k,
    {
        let ghost before = out@;
        out.push(FlowNode::Unresolved { project: unresolved[k].0.clone(), id: unresolved[k].1.clone() });
        proof {
            assert(node_views(out@) =~= node_views(before).push(tail[k as int]));
            assert(base + tail.take(k + 1) =~= (base + tail.take(k + 0int)).push(tail[k as int]));
        }
        k = k + 1;
    }
    proof {
        assert(tail.take(unresolved@.len() + 0int) =~= tail);
    }
    out
}

} // verus!
