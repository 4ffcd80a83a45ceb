//! Which leaves of a flow wait for which.
use vstd::prelude::*;

use crate::family::{
    above, below_in_family, climb, family_parents, holds, is_leaf_under, leaf_under, Family,
};
use crate::graph::{edge, graph_of};
use crate::growth::{
    dependency_position, is_remaining, lemma_position_at, live_dependencies, position_of, remaining,
};
use crate::keys::ref_target;
use crate::task::TaskListItem;

verus! {

/// The task at `s` is the leaf at `b` or a task above it: a child inherits the dependencies of its
/// parents, so nothing inside a box starts before the box may start.
pub open spec fn source_of(ts: Seq<TaskListItem>, included: Seq<bool>, s: usize, b: usize) -> bool {
    s == b || below_in_family(ts, included, b, s)
}

/// The `k`-th dependency the task at `s` still declares names a task in the flow that the leaf at
/// `a` stands for.
pub open spec fn dependency_blocks(ts: Seq<TaskListItem>, included: Seq<bool>, s: usize, k: int, a: usize) -> bool {
    match dependency_position(ts, s as int, live_dependencies(ts[s as int])[k]@) {
        Some(t) => included[t] && leaf_under(ts, included, a, t as usize),
        None => false,
    }
}

/// The leaf at `b` waits for the leaf at `a`: the leaf or a task above it still declares a
/// dependency on a task in the flow, and `a` is that task or a leaf below it. A dependency that
/// names no task adds nothing: no work completes it.
pub open spec fn waits_on(ts: Seq<TaskListItem>, included: Seq<bool>, a: usize, b: usize) -> bool {
    exists|s: usize, k: int|
        s < ts.len() && source_of(ts, included, s, b) && 0 <= k < live_dependencies(ts[s as int]).len()
            && #[trigger] dependency_blocks(ts, included, s, k, a)
}

/// Whether a dependency the task at `s` still declares names a task in the flow the leaf at `a`
/// stands for.
fn source_blocks(tasks: &Vec<TaskListItem>, family: &Family, Ghost(included): Ghost<Seq<bool>>, included_flags: &Vec<bool>, s: usize, a: usize) -> (blocks: bool)
    requires
        included_flags@ == included,
        included.len() == tasks.len(),
        family.parent@ == family_parents(tasks@, included),
        family.holds.len() == tasks.len(),
        forall|p: int| 0 <= p < tasks.len() ==> #[trigger] family.holds[p] == holds(tasks@, included, p),
        s < tasks.len(),
        a < tasks.len(),
    ensures
        blocks == exists|k: int| 0 <= k < live_dependencies(tasks@[s as int]).len() && #[trigger] dependency_blocks(tasks@, included, s, k, a),
{
    let ghost ts = tasks@;
    let task = &tasks[s];
    if !is_remaining(task) {
        return false;
    }
    let deps = task.metadata.dependencies();
    let project = task.project.as_str();
    let mut k: usize = 0;
    while k < deps.len()
        invariant
            ts == tasks@,
            included_flags@ == included,
            included.len() == tasks.len(),
            family.parent@ == family_parents(ts, included),
            family.holds.len() == tasks.len(),
            forall|p: int| 0 <= p < tasks.len() ==> #[trigger] family.holds[p] == holds(ts, included, p),
            s < tasks.len(),
            a < tasks.len(),
            *task == ts[s as int],
            remaining(ts[s as int]),
            project@ == ts[s as int].project@,
            deps@ == live_dependencies(ts[s as int]),
            k <= deps@.len(),
            forall|j: int| 0 <= j < k ==> !#[trigger] dependency_blocks(ts, included, s, j, a),
        decreases deps@.len() - k,
    {
        let target = ref_target(deps[k].as_str());
        let ghost d = deps@[k as int]@;
        match position_of(tasks, project, target) {
            Some(t) => {
                proof {
                    lemma_position_at(ts, (ts[s as int].project@, target@));
                    assert(dependency_position(ts, s as int, d) == Some(t as int));
                }
                if included_flags[t] && is_leaf_under(family, Ghost(ts), Ghost(included), a, t) {
                    proof {
                        assert(dependency_blocks(ts, included, s, k as int, a));
                    }
                    return true;
                }
            },
            None => {
                proof {
                    assert(dependency_position(ts, s as int, d) is None);
                }
            },
        }
        proof {
            assert(!dependency_blocks(ts, included, s, k as int, a));
        }
        k = k + 1;
    }
    false
}

/// Whether the leaf at `b` waits for the leaf at `a`.
pub fn waits(tasks: &Vec<TaskListItem>, family: &Family, Ghost(included): Ghost<Seq<bool>>, included_flags: &Vec<bool>, a: usize, b: usize) -> (waiting: bool)
    requires
        included_flags@ == included,
        included.len() == tasks.len(),
        family.parent@ == family_parents(tasks@, included),
        family.holds.len() == tasks.len(),
        forall|p: int| 0 <= p < tasks.len() ==> #[trigger] family.holds[p] == holds(tasks@, included, p),
        a < tasks.len(),
        b < tasks.len(),
    ensures
        waiting == waits_on(tasks@, included, a, b),
{
    let ghost ts = tasks@;
    let ghost fam = family.parent@;
    if source_blocks(tasks, family, Ghost(included), included_flags, b, a) {
        proof {
            let k = choose|k: int| 0 <= k < live_dependencies(ts[b as int]).len() && #[trigger] dependency_blocks(ts, included, b, k, a);
            assert(source_of(ts, included, b, b));
        }
        return true;
    }
    let ancestors = above(family, Ghost(ts), Ghost(included), b);
    let mut m: usize = 0;
    while m < ancestors.len()
        invariant
            ts == tasks@,
            fam == family.parent@,
            included_flags@ == included,
            included.len() == tasks.len(),
            family.parent@ == family_parents(ts, included),
            family.holds.len() == tasks.len(),
            forall|p: int| 0 <= p < tasks.len() ==> #[trigger] family.holds[p] == holds(ts, included, p),
            a < tasks.len(),
            b < tasks.len(),
            m <= ancestors.len(),
            forall|j: int| 0 <= j < ancestors.len() ==> climb(fam, b, (j + 1) as nat) == Some(#[trigger] ancestors@[j]),
            forall|j: int, k: int|
                0 <= j < m && 0 <= k < live_dependencies(ts[ancestors@[j] as int]).len() ==> !#[trigger] dependency_blocks(ts, included, ancestors@[j], k, a),
        decreases ancestors.len() - m,
    {
        let s = ancestors[m];
        proof {
            crate::family::lemma_family_in_range(ts, included);
            crate::family::lemma_climb_in_range(fam, b, (m + 1) as nat);
        }
        if source_blocks(tasks, family, Ghost(included), included_flags, s, a) {
            proof {
                let k = choose|k: int| 0 <= k < live_dependencies(ts[s as int]).len() && #[trigger] dependency_blocks(ts, included, s, k, a);
                assert(climb(fam, b, (m + 1) as nat) == Some(s));
                assert(below_in_family(ts, included, b, s));
                assert(source_of(ts, included, s, b));
            }
            return true;
        }
        m = m + 1;
    }
    proof {
        assert forall|s: usize, k: int|
            s < ts.len() && source_of(ts, included, s, b) && 0 <= k < live_dependencies(ts[s as int]).len() implies !#[trigger] dependency_blocks(ts, included, s, k, a) by {
            if s != b {
                let j = choose|j: nat| j >= 1 && #[trigger] climb(fam, b, j) == Some(s);
                if j > ancestors.len() {
                    crate::family::lemma_climb_stops(fam, b, (ancestors.len() + 1) as nat, j);
                }
                assert(ancestors@[j - 1] == s);
            }
        }
    }
    false
}

/// Which leaves wait for which, as the successor list of each leaf: the positions, among
/// `leaves`, of the leaves that wait for it, in increasing order.
pub fn waits_for(tasks: &Vec<TaskListItem>, family: &Family, Ghost(included): Ghost<Seq<bool>>, included_flags: &Vec<bool>, leaves: &Vec<usize>) -> (successors: Vec<Vec<usize>>)
    requires
        included_flags@ == included,
        included.len() == tasks.len(),
        family.parent@ == family_parents(tasks@, included),
        family.holds.len() == tasks.len(),
        forall|p: int| 0 <= p < tasks.len() ==> #[trigger] family.holds[p] == holds(tasks@, included, p),
        forall|k: int| 0 <= k < leaves.len() ==> #[trigger] leaves@[k] < tasks.len(),
    ensures
        successors.len() == leaves.len(),
        forall|a: usize, b: usize|
            a < leaves.len() && b < leaves.len() ==> (#[trigger] edge(graph_of(&successors), a, b) <==> waits_on(
                tasks@,
                included,
                leaves@[a as int],
                leaves@[b as int],
            )),
        forall|a: int, k: int|
            0 <= a < successors.len() && 0 <= k < successors@[a]@.len() ==> #[trigger] successors@[a]@[k] < leaves.len(),
        forall|a: int, k: int, j: int|
            0 <= a < successors.len() && 0 <= k < j < successors@[a]@.len() ==> #[trigger] successors@[a]@[k] < #[trigger] successors@[a]@[j],
{
    let ghost ts = tasks@;
    let n = leaves.len();
    let mut successors: Vec<Vec<usize>> = Vec::new();
    let mut a: usize = 0;
    while a < n
        invariant
            ts == tasks@,
            n == leaves.len(),
            included_flags@ == included,
            included.len() == tasks.len(),
            family.parent@ == family_parents(ts, included),
            family.holds.len() == tasks.len(),
            forall|p: int| 0 <= p < tasks.len() ==> #[trigger] family.holds[p] == holds(ts, included, p),
            forall|k: int| 0 <= k < leaves.len() ==> #[trigger] leaves@[k] < tasks.len(),
            a <= n,
            successors.len() == a,
            forall|x: int, k: int|
                0 <= x < a && 0 <= k < successors@[x]@.len() ==> #[trigger] successors@[x]@[k] < n,
            forall|x: int, k: int, j: int|
                0 <= x < a && 0 <= k < j < successors@[x]@.len() ==> #[trigger] successors@[x]@[k] < #[trigger] successors@[x]@[j],
            forall|x: int, b: usize|
                0 <= x < a && b < n ==> (successors@[x]@.contains(b) <==> waits_on(ts, included, leaves@[x], leaves@[b as int])),
        decreases n - a,
    {
        let mut list: Vec<usize> = Vec::new();
        let mut b: usize = 0;
        while b < n
            invariant
                ts == tasks@,
                n == leaves.len(),
                included_flags@ == included,
                included.len() == tasks.len(),
                family.parent@ == family_parents(ts, included),
                family.holds.len() == tasks.len(),
                forall|p: int| 0 <= p < tasks.len() ==> #[trigger] family.holds[p] == holds(ts, included, p),
                forall|k: int| 0 <= k < leaves.len() ==> #[trigger] leaves@[k] < tasks.len(),
                a < n,
                b <= n,
                forall|k: int| 0 <= k < list@.len() ==> #[trigger] list@[k] < b,
                forall|k: int, j: int| 0 <= k < j < list@.len() ==> #[trigger] list@[k] < #[trigger] list@[j],
                forall|c: usize| c < b ==> (list@.contains(c) <==> waits_on(ts, included, leaves@[a as int], leaves@[c as int])),
            decreases n - b,
        {
            let ghost before = list@;
            let waiting = waits(tasks, family, Ghost(included), included_flags, leaves[a], leaves[b]);
            if waiting {
                list.push(b);
                proof {
                    assert(list@[list@.len() - 1] == b);
                }
            }
            proof {
                assert forall|c: usize| c < b + 1 implies (list@.contains(c) <==> waits_on(ts, included, leaves@[a as int], leaves@[c as int])) by {
                    if c < b {
                        if before.contains(c) {
                            let k = choose|k: int| 0 <= k < before.len() && before[k] == c;
                            assert(list@[k] == c);
                        }
                        if list@.contains(c) {
                            let k = choose|k: int| 0 <= k < list@.len() && list@[k] == c;
                            if k < before.len() {
                                assert(before[k] == c);
                            }
                        }
                    } else {
                        if list@.contains(c) {
                            let k = choose|k: int| 0 <= k < list@.len() && list@[k] == c;
                            if k < before.len() {
                                assert(before[k] < b);
                            }
                        }
                    }
                }
            }
            b = b + 1;
        }
        successors.push(list);
        a = a + 1;
    }
    proof {
        assert forall|x: usize, y: usize|
            x < leaves.len() && y < leaves.len() implies (#[trigger] edge(graph_of(&successors), x, y) <==> waits_on(
                ts,
                included,
                leaves@[x as int],
                leaves@[y as int],
            )) by {
            let g = graph_of(&successors);
            assert(g[x as int] == successors@[x as int]@);
            if edge(g, x, y) {
                let k = choose|k: int| 0 <= k < g[x as int].len() && #[trigger] g[x as int][k] == y;
                assert(successors@[x as int]@.contains(y));
            }
            if waits_on(ts, included, leaves@[x as int], leaves@[y as int]) {
                assert(successors@[x as int]@.contains(y));
                let k = choose|k: int| 0 <= k < successors@[x as int]@.len() && successors@[x as int]@[k] == y;
                assert(g[x as int][k] == y);
            }
        }
    }
    successors
}

} // verus!
