//! Where each leaf of a flow sits: the wave it belongs to, its place inside that wave, and how much
//! work waits for it.
use vstd::prelude::*;

use crate::family::{family_parents, holds, Family};
use crate::growth::{in_flow, FlowQuery};
use crate::flow::{arrange_waves, cycle_ids, cycles_reported, row_arranged, text_lists_of, texts_of, FlowCycles};
use crate::graph::{
    edge, graph_of, has_cycle, is_cycle, is_cycle_report, is_layering,
    lemma_edge_count_bound, lemma_increasing_len, lemma_same_edges, reach_count, same_edges, seqs_of,
    well_formed, behind_cycles, lemma_increasing_same_members,
};
use crate::layering::cut_walk_reports;
use crate::layering::{blocks_counts, layer};
use crate::task::TaskListItem;
use crate::waiting::{waits_for, waits_on};

verus! {

/// The positions `0..n`.
pub open spec fn positions(n: nat) -> Seq<usize> {
    Seq::new(n, |i: int| i as usize)
}

/// The wait graph of the leaves: position `a` lists, in increasing order, the position of each leaf
/// that waits for the leaf at `a`.
pub open spec fn wait_graph(ts: Seq<TaskListItem>, included: Seq<bool>, leaves: Seq<usize>) -> Seq<Seq<usize>> {
    Seq::new(
        leaves.len(),
        |a: int| positions(leaves.len()).filter(|b: usize| waits_on(ts, included, leaves[a], leaves[b as int])),
    )
}

/// Which tasks the flow of `query` holds, task by task.
pub open spec fn flow_members(ts: Seq<TaskListItem>, query: &FlowQuery) -> Seq<bool> {
    Seq::new(ts.len(), |i: int| in_flow(ts, query, i))
}

/// The leaves among the first `m` tasks: the tasks of the flow that hold no other, in task order.
pub open spec fn leaves_upto(ts: Seq<TaskListItem>, included: Seq<bool>, m: int) -> Seq<usize>
    decreases m,
{
    if m <= 0 {
        Seq::empty()
    } else if included[m - 1] && !holds(ts, included, m - 1) {
        leaves_upto(ts, included, m - 1).push((m - 1) as usize)
    } else {
        leaves_upto(ts, included, m - 1)
    }
}

/// The first `m` tasks hold at most `m` leaves.
pub proof fn lemma_leaves_upto_len(ts: Seq<TaskListItem>, included: Seq<bool>, m: int)
    ensures
        m >= 0 ==> leaves_upto(ts, included, m).len() <= m,
    decreases m,
{
    if m > 0 {
        lemma_leaves_upto_len(ts, included, m - 1);
    }
}

/// The keys of the leaves.
pub open spec fn leaf_ids(ts: Seq<TaskListItem>, leaves: Seq<usize>) -> Seq<Seq<char>> {
    Seq::new(leaves.len(), |k: int| ts[leaves[k] as int].id@)
}

/// The waves hold the leaves wave by wave, from the first wave to the last one any leaf sits in,
/// each wave arranged as `row_arranged` says.
pub open spec fn waves_fit(ts: Seq<TaskListItem>, leaves: Seq<usize>, blocks: Seq<usize>, wave_of: Seq<usize>, waves: Seq<Vec<usize>>) -> bool {
    &&& forall|k: int| 0 <= k < leaves.len() ==> #[trigger] wave_of[k] < waves.len()
    &&& leaves.len() > 0 ==> exists|k: int| 0 <= k < leaves.len() && #[trigger] wave_of[k] + 1 == waves.len()
    &&& leaves.len() == 0 ==> waves.len() == 0
    &&& forall|w: int| 0 <= w < waves.len() ==> #[trigger] row_arranged(ts, leaves, blocks, wave_of, w, waves[w]@)
    &&& forall|w: int, k: int| 0 <= w < waves.len() && 0 <= k < waves[w]@.len() ==> #[trigger] waves[w]@[k] < leaves.len()
}

/// Where each leaf sits: `leaves` holds the task positions of the leaves, and the rest speaks of
/// positions among `leaves`.
pub struct Layout {
    pub leaves: Vec<usize>,
    pub wave_of: Vec<usize>,
    pub waves: Vec<Vec<usize>>,
    pub blocks: Vec<usize>,
}

/// The wait graph links `a` to `b` exactly when the leaf at `b` waits for the leaf at `a`.
pub proof fn lemma_wait_graph_edges(ts: Seq<TaskListItem>, included: Seq<bool>, leaves: Seq<usize>)
    ensures
        forall|a: usize, b: usize| #[trigger] edge(wait_graph(ts, included, leaves), a, b) == (a < leaves.len() && b < leaves.len() && waits_on(ts, included, leaves[a as int], leaves[b as int])),
{
    let g = wait_graph(ts, included, leaves);
    let n = leaves.len();
    assert forall|a: usize, b: usize| #[trigger] edge(g, a, b) == (a < n && b < n && waits_on(ts, included, leaves[a as int], leaves[b as int])) by {
        if a < n {
            let pred = |b: usize| waits_on(ts, included, leaves[a as int], leaves[b as int]);
            let row = positions(n).filter(pred);
            assert(g[a as int] == row);
            if edge(g, a, b) {
                let k = choose|k: int| 0 <= k < row.len() && #[trigger] row[k] == b;
                positions(n).lemma_filter_pred(pred, k);
                assert(row.contains(b));
                positions(n).lemma_filter_contains_rev(pred, b);
                let i = choose|i: int| 0 <= i < positions(n).len() && positions(n)[i] == b;
                assert(b < n);
            }
            if b < n && waits_on(ts, included, leaves[a as int], leaves[b as int]) {
                assert(positions(n)[b as int] == b);
                positions(n).lemma_filter_contains(pred, b as int);
                let k = choose|k: int| 0 <= k < row.len() && row[k] == b;
                assert(row[k] == b);
            }
        }
    }
}

/// The positions below `m` that meet `pred` come in increasing order.
proof fn lemma_filter_positions_increasing(m: nat, pred: spec_fn(usize) -> bool)
    requires
        m <= usize::MAX + 1,
    ensures
        forall|k: int| 0 <= k < positions(m).filter(pred).len() ==> #[trigger] positions(m).filter(pred)[k] < m,
        forall|k: int, j: int|
            0 <= k < j < positions(m).filter(pred).len() ==> #[trigger] positions(m).filter(pred)[k]
                < #[trigger] positions(m).filter(pred)[j],
    decreases m,
{
    if m > 0 {
        let before = positions((m - 1) as nat);
        assert(positions(m).drop_last() =~= before);
        assert(positions(m).last() == (m - 1) as usize);
        lemma_filter_positions_increasing((m - 1) as nat, pred);
        assert(positions(m) =~= before.push((m - 1) as usize));
        before.lemma_filter_push((m - 1) as usize, pred);
        let f = positions(m).filter(pred);
        let fb = before.filter(pred);
        if pred((m - 1) as usize) {
            assert(f == fb.push((m - 1) as usize));
            assert forall|k: int, j: int| 0 <= k < j < f.len() implies #[trigger] f[k] < #[trigger] f[j] by {
                if j < f.len() - 1 {
                    assert(f[k] == fb[k] && f[j] == fb[j]);
                } else {
                    assert(f[k] == fb[k]);
                }
            }
            assert forall|k: int| 0 <= k < f.len() implies #[trigger] f[k] < m by {
                if k < f.len() - 1 {
                    assert(f[k] == fb[k]);
                }
            }
        } else {
            assert(f == fb);
        }
    }
}

impl Layout {
    /// Lays the leaves out: the wave of each, how much work waits for each, and each wave in order.
    /// The members of a wait cycle never come ready, and the layout fails on them rather than
    /// answering with an order that does not exist.
    pub fn build(tasks: &Vec<TaskListItem>, family: &Family, Ghost(included): Ghost<Seq<bool>>, included_flags: &Vec<bool>, leaves: Vec<usize>) -> (result: Result<Layout, FlowCycles>)
        requires
            included_flags@ == included,
            included.len() == tasks.len(),
            family.parent@ == family_parents(tasks@, included),
            family.holds.len() == tasks.len(),
            forall|p: int| 0 <= p < tasks.len() ==> #[trigger] family.holds[p] == holds(tasks@, included, p),
            forall|k: int| 0 <= k < leaves.len() ==> #[trigger] leaves@[k] < tasks.len(),
            leaves.len() * leaves.len() <= usize::MAX,
            leaves.len() < usize::MAX,
        ensures
            match result {
                Ok(layout) => {
                    let g = wait_graph(tasks@, included, leaves@);
                    &&& !has_cycle(g)
                    &&& layout.leaves@ == leaves@
                    &&& is_layering(g, layout.wave_of@)
                    &&& layout.blocks.len() == leaves.len()
                    &&& forall|u: int| 0 <= u < leaves.len() ==> #[trigger] layout.blocks@[u] == reach_count(g, u as usize)
                    &&& waves_fit(tasks@, leaves@, layout.blocks@, layout.wave_of@, layout.waves@)
                },
                Err(found) => {
                    let g = wait_graph(tasks@, included, leaves@);
                    let report = cut_walk_reports(g, behind_cycles(g));
                    &&& has_cycle(g)
                    &&& report.len() > 0
                    &&& is_cycle_report(g, report)
                    &&& cycles_reported(leaf_ids(tasks@, leaves@), report, text_lists_of(&found.cycles))
                },
            },
    {
        let n = leaves.len();
        let successors = waits_for(tasks, family, Ghost(included), included_flags, &leaves);
        let ghost g = graph_of(&successors);
        let ghost spec_g = wait_graph(tasks@, included, leaves@);
        proof {
            lemma_wait_graph_edges(tasks@, included, leaves@);
            assert forall|u: usize, v: usize| #[trigger] edge(g, u, v) == #[trigger] edge(spec_g, u, v) by {
                if edge(g, u, v) {
                    let k = choose|k: int| 0 <= k < g[u as int].len() && #[trigger] g[u as int][k] == v;
                    assert(successors@[u as int]@[k] < n);
                }
            }
            assert(same_edges(g, spec_g));
            lemma_same_edges(g, spec_g);
            assert forall|u: int| 0 <= u < g.len() implies (#[trigger] g[u]).len() <= n by {
                lemma_increasing_len(g[u], n as nat);
            }
            lemma_edge_count_bound(g, n as int, n as nat);
            assert(n * n <= usize::MAX);
            assert(well_formed(g));
            assert forall|u: int| 0 <= u < n implies #[trigger] g[u] == spec_g[u] by {
                let pred = |b: usize| waits_on(tasks@, included, leaves@[u], leaves@[b as int]);
                lemma_filter_positions_increasing(n as nat, pred);
                assert(spec_g[u] == positions(n as nat).filter(pred));
                assert(g[u] == successors@[u]@);
                assert forall|x: usize| g[u].contains(x) <==> spec_g[u].contains(x) by {
                    if g[u].contains(x) {
                        let k = choose|k: int| 0 <= k < g[u].len() && g[u][k] == x;
                        assert(edge(g, u as usize, x));
                        assert(edge(spec_g, u as usize, x));
                        let j = choose|j: int| 0 <= j < spec_g[u].len() && #[trigger] spec_g[u][j] == x;
                        assert(spec_g[u][j] == x);
                    }
                    if spec_g[u].contains(x) {
                        let k = choose|k: int| 0 <= k < spec_g[u].len() && spec_g[u][k] == x;
                        assert(edge(spec_g, u as usize, x));
                        assert(edge(g, u as usize, x));
                        let j = choose|j: int| 0 <= j < g[u].len() && #[trigger] g[u][j] == x;
                        assert(g[u][j] == x);
                    }
                }
                lemma_increasing_same_members(g[u], spec_g[u]);
            }
            assert(g =~= spec_g);
        }
        match layer(&successors) {
            Ok(wave_of) => {
                let blocks = blocks_counts(&successors, &wave_of);
                let waves = arrange_waves(tasks, &leaves, &wave_of, &blocks);
                Ok(Layout { leaves, wave_of, waves, blocks })
            },
            Err(cycles) => {
                let mut ids: Vec<String> = Vec::new();
                let mut k: usize = 0;
                while k < n
                    invariant
                        n == leaves.len(),
                        forall|j: int| 0 <= j < leaves.len() ==> #[trigger] leaves@[j] < tasks.len(),
                        k <= n,
                        ids@.len() == k,
                        forall|j: int| 0 <= j < k ==> (#[trigger] ids@[j])@ == tasks@[leaves@[j] as int].id@,
                    decreases n - k,
                {
                    ids.push(tasks[leaves[k]].id.clone());
                    k = k + 1;
                }
                let ghost report = seqs_of(&cycles);
                proof {
                    assert(texts_of(&ids) =~= leaf_ids(tasks@, leaves@));
                    assert forall|i: int, j: int| 0 <= i < cycles.len() && 0 <= j < cycles@[i]@.len() implies #[trigger] cycles@[i]@[j] < ids.len() by {
                        assert(report[i] == cycles@[i]@);
                        assert(is_cycle(g, report[i]));
                    }
                    assert forall|i: int| 0 <= i < cycles.len() implies (#[trigger] cycles@[i])@.len() > 0 by {
                        assert(report[i] == cycles@[i]@);
                        assert(is_cycle(g, report[i]));
                    }
                }
                let reports = cycle_ids(cycles, &ids);
                proof {
                    assert(is_cycle_report(spec_g, report));
                }
                Err(FlowCycles { cycles: reports })
            },
        }
    }
}

} // verus!
