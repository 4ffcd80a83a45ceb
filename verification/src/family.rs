//! Which task the flow puts each task under, and which tasks each one holds.
use vstd::prelude::*;

use crate::graph::{count_true, lemma_count_true_bound, lemma_count_true_mark, lemma_pigeonhole};
use crate::growth::{lemma_position_at, parent_position, position_of, unique_coordinates};
use crate::layering::falses;
use crate::metadata::lemma_metadata_view;
use crate::task::TaskListItem;

verus! {

/// Where `k` steps up the parent links from `start` lead, if they lead anywhere.
pub open spec fn climb(parent: Seq<Option<usize>>, start: usize, k: nat) -> Option<usize>
    decreases k,
{
    if k == 0 {
        Some(start)
    } else {
        match climb(parent, start, (k - 1) as nat) {
            Some(x) => if x < parent.len() {
                parent[x as int]
            } else {
                None
            },
            None => None,
        }
    }
}

/// Following the parent links up from `start` leads back to it.
pub open spec fn on_parent_cycle(parent: Seq<Option<usize>>, start: usize) -> bool {
    exists|k: nat| k >= 1 && #[trigger] climb(parent, start, k) == Some(start)
}

/// Every parent link names a position.
pub open spec fn links_in_range(parent: Seq<Option<usize>>) -> bool {
    forall|x: int| 0 <= x < parent.len() ==> (#[trigger] parent[x] matches Some(p) ==> p < parent.len())
}

/// Two climbs that meet go on together.
proof fn lemma_climb_shift(parent: Seq<Option<usize>>, start: usize, a: nat, b: nat, t: nat)
    requires
        climb(parent, start, a) == climb(parent, start, b),
    ensures
        climb(parent, start, a + t) == climb(parent, start, b + t),
    decreases t,
{
    if t > 0 {
        lemma_climb_shift(parent, start, a, b, (t - 1) as nat);
        assert(climb(parent, start, a + t) == climb(parent, start, (a + (t - 1)) as nat + 1));
    }
}

/// A climb that stops stays stopped.
pub proof fn lemma_climb_stops(parent: Seq<Option<usize>>, start: usize, a: nat, b: nat)
    requires
        climb(parent, start, a) is None,
        a <= b,
    ensures
        climb(parent, start, b) is None,
    decreases b - a,
{
    if a < b {
        lemma_climb_stops(parent, start, a, (b - 1) as nat);
    }
}

/// Once a climb meets a position it held at step `i`, every later step repeats one of the steps
/// `1..=j`.
proof fn lemma_climb_repeats(parent: Seq<Option<usize>>, start: usize, i: nat, j: nat, k: nat)
    requires
        1 <= i <= j,
        climb(parent, start, j + 1) == climb(parent, start, i),
        k >= 1,
    ensures
        exists|m: nat| 1 <= m <= j && climb(parent, start, k) == #[trigger] climb(parent, start, m),
    decreases k,
{
    if k <= j {
        assert(climb(parent, start, k) == climb(parent, start, k));
    } else {
        let d = (j + 1 - i) as nat;
        lemma_climb_shift(parent, start, i, j + 1, (k - (j + 1)) as nat);
        assert(climb(parent, start, (k - d) as nat) == climb(parent, start, k));
        lemma_climb_repeats(parent, start, i, j, (k - d) as nat);
    }
}

/// Whether the parent links lead from `start` back to it. The walk stops on a position it met
/// before, which closes a cycle that does not pass through `start`.
pub fn climbs_back(start: usize, parent: &Vec<Option<usize>>) -> (back: bool)
    requires
        start < parent.len(),
        links_in_range(parent@),
    ensures
        back == on_parent_cycle(parent@, start),
{
    let ghost ps = parent@;
    let n = parent.len();
    let mut seen = falses(n);
    let mut at = start;
    let ghost mut j: nat = 0;
    proof {
        crate::graph::lemma_count_none_true(n as nat);
    }
    loop
        invariant
            ps == parent@,
            n == parent.len(),
            links_in_range(ps),
            start < n,
            at < n,
            seen.len() == n,
            climb(ps, start, j) == Some(at),
            count_true(seen@) == j,
            forall|x: int| 0 <= x < n ==> (#[trigger] seen@[x] <==> exists|m: nat|
                1 <= m <= j && #[trigger] climb(ps, start, m) == Some(x as usize)),
            forall|m: nat| 1 <= m <= j ==> #[trigger] climb(ps, start, m) != Some(start),
        decreases n - j,
    {
        proof {
            lemma_count_true_bound(seen@);
        }
        let above = match parent[at] {
            Some(above) => above,
            None => {
                proof {
                    assert(climb(ps, start, j + 1) is None);
                    assert forall|k: nat| k >= 1 implies #[trigger] climb(ps, start, k) != Some(start) by {
                        if k > j {
                            lemma_climb_stops(ps, start, j + 1, k);
                        }
                    }
                }
                return false;
            },
        };
        proof {
            assert(climb(ps, start, j + 1) == Some(above));
        }
        if above == start {
            return true;
        }
        if seen[above] {
            proof {
                let i = choose|m: nat| 1 <= m <= j && #[trigger] climb(ps, start, m) == Some(above);
                assert forall|k: nat| k >= 1 implies #[trigger] climb(ps, start, k) != Some(start) by {
                    lemma_climb_repeats(ps, start, i, j, k);
                }
            }
            return false;
        }
        proof {
            lemma_count_true_mark(seen@, above as int);
        }
        seen.set(above, true);
        at = above;
        proof {
            j = j + 1;
            assert forall|x: int| 0 <= x < n implies (#[trigger] seen@[x] <==> exists|m: nat|
                1 <= m <= j && #[trigger] climb(ps, start, m) == Some(x as usize)) by {
                if x == above {
                    assert(climb(ps, start, j) == Some(x as usize));
                }
            }
        }
    }
}

/// Climbing `a` steps and then `t` more is climbing `a + t`.
proof fn lemma_climb_from(parent: Seq<Option<usize>>, start: usize, a: nat, x: usize, t: nat)
    requires
        climb(parent, start, a) == Some(x),
    ensures
        climb(parent, start, a + t) == climb(parent, x, t),
    decreases t,
{
    if t > 0 {
        lemma_climb_from(parent, start, a, x, (t - 1) as nat);
        assert(climb(parent, start, a + t) == climb(parent, start, (a + (t - 1)) as nat + 1));
    }
}

/// The task the flow would put the task at `i` under: its parent, where both are in the flow.
pub open spec fn first_parent(ts: Seq<TaskListItem>, included: Seq<bool>, i: int) -> Option<usize> {
    if included[i] {
        match parent_position(ts, i) {
            Some(p) => if included[p] {
                Some(p as usize)
            } else {
                None
            },
            None => None,
        }
    } else {
        None
    }
}

/// Those parents, position by position.
pub open spec fn first_parents(ts: Seq<TaskListItem>, included: Seq<bool>) -> Seq<Option<usize>> {
    Seq::new(ts.len(), |i: int| first_parent(ts, included, i))
}

/// The task the flow puts the task at `i` under. A corrupt pair of files can make a task its own
/// ancestor: neither task can hold the other, so each task on such a cycle stands alone.
pub open spec fn family_parent(ts: Seq<TaskListItem>, included: Seq<bool>, i: int) -> Option<usize> {
    if on_parent_cycle(first_parents(ts, included), i as usize) {
        None
    } else {
        first_parent(ts, included, i)
    }
}

/// Those parents, position by position.
pub open spec fn family_parents(ts: Seq<TaskListItem>, included: Seq<bool>) -> Seq<Option<usize>> {
    Seq::new(ts.len(), |i: int| family_parent(ts, included, i))
}

/// The task at `p` holds some task of the flow.
pub open spec fn holds(ts: Seq<TaskListItem>, included: Seq<bool>, p: int) -> bool {
    exists|i: int| 0 <= i < ts.len() && #[trigger] family_parent(ts, included, i) == Some(p as usize)
}

/// Where each task of the flow sits, and which tasks hold others.
pub struct Family {
    pub parent: Vec<Option<usize>>,
    pub holds: Vec<bool>,
}

/// The family of the tasks in the flow: each under its parent where both are in it, except the
/// tasks of a parent cycle, and which tasks hold another.
pub fn family_of(tasks: &Vec<TaskListItem>, included: &Vec<bool>) -> (family: Family)
    requires
        included.len() == tasks.len(),
        unique_coordinates(tasks@),
    ensures
        family.parent@ == family_parents(tasks@, included@),
        family.holds.len() == tasks.len(),
        forall|p: int| 0 <= p < tasks.len() ==> #[trigger] family.holds[p] == holds(tasks@, included@, p),
{
    let ghost ts = tasks@;
    let n = tasks.len();
    let mut first: Vec<Option<usize>> = Vec::new();
    let mut i: usize = 0;
    while i < n
        invariant
            ts == tasks@,
            n == tasks.len(),
            included.len() == n,
            i <= n,
            first.len() == i,
            forall|k: int| 0 <= k < i ==> #[trigger] first@[k] == first_parent(ts, included@, k),
        decreases n - i,
    {
        let task = &tasks[i];
        proof {
            lemma_metadata_view(&task.metadata);
        }
        let mut above: Option<usize> = None;
        if included[i] {
            match task.metadata.parent() {
                Some(p) => {
                    match position_of(tasks, task.project.as_str(), p) {
                        Some(at) => {
                            proof {
                                lemma_position_at(ts, (ts[i as int].project@, p@));
                            }
                            if included[at] {
                                above = Some(at);
                            }
                        },
                        None => {},
                    }
                },
                None => {},
            }
        }
        first.push(above);
        i = i + 1;
    }
    proof {
        assert(first@ =~= first_parents(ts, included@));
        assert forall|x: int| 0 <= x < first@.len() implies (#[trigger] first@[x] matches Some(p) ==> p < first@.len()) by {
            if let Some(p) = parent_position(ts, x) {
                lemma_position_at(ts, (ts[x].project@, crate::metadata::parent_of(&ts[x].metadata)->0));
            }
        }
    }
    let mut parent: Vec<Option<usize>> = Vec::new();
    let mut i: usize = 0;
    while i < n
        invariant
            ts == tasks@,
            n == tasks.len(),
            included.len() == n,
            first@ == first_parents(ts, included@),
            links_in_range(first@),
            i <= n,
            parent.len() == i,
            forall|k: int| 0 <= k < i ==> #[trigger] parent@[k] == family_parent(ts, included@, k),
        decreases n - i,
    {
        let mut above = first[i];
        if above.is_some() && climbs_back(i, &first) {
            above = None;
        }
        proof {
            if first@[i as int] is None {
                assert(family_parent(ts, included@, i as int) == first_parent(ts, included@, i as int));
            }
        }
        parent.push(above);
        i = i + 1;
    }
    proof {
        assert(parent@ =~= family_parents(ts, included@));
    }
    let mut held = falses(n);
    let mut i: usize = 0;
    while i < n
        invariant
            ts == tasks@,
            n == tasks.len(),
            parent@ == family_parents(ts, included@),
            links_in_range(first@),
            first@ == first_parents(ts, included@),
            held.len() == n,
            i <= n,
            forall|p: int| 0 <= p < n ==> (#[trigger] held@[p] <==> exists|k: int|
                0 <= k < i && family_parent(ts, included@, k) == Some(p as usize)),
        decreases n - i,
    {
        match parent[i] {
            Some(p) => {
                proof {
                    assert(first@[i as int] == Some(p));
                }
                held.set(p, true);
                proof {
                    assert forall|q: int| 0 <= q < n implies (#[trigger] held@[q] <==> exists|k: int|
                        0 <= k < i + 1 && family_parent(ts, included@, k) == Some(q as usize)) by {
                        if q == p {
                            assert(family_parent(ts, included@, i as int) == Some(q as usize));
                        }
                    }
                }
            },
            None => {},
        }
        i = i + 1;
    }
    Family { parent, holds: held }
}

/// Where the family climbs, it climbs as the first parents do.
proof fn lemma_family_climbs_first(ts: Seq<TaskListItem>, included: Seq<bool>, x: usize, t: nat)
    requires
        climb(family_parents(ts, included), x, t) is Some,
    ensures
        climb(first_parents(ts, included), x, t) == climb(family_parents(ts, included), x, t),
    decreases t,
{
    if t > 0 {
        let fam = family_parents(ts, included);
        if climb(fam, x, (t - 1) as nat) is None {
            lemma_climb_stops(fam, x, (t - 1) as nat, t);
        }
        lemma_family_climbs_first(ts, included, x, (t - 1) as nat);
    }
}

/// The family links name positions.
pub proof fn lemma_family_in_range(ts: Seq<TaskListItem>, included: Seq<bool>)
    requires
        included.len() == ts.len(),
    ensures
        links_in_range(family_parents(ts, included)),
        links_in_range(first_parents(ts, included)),
{
    assert forall|x: int| 0 <= x < ts.len() implies (#[trigger] first_parents(ts, included)[x] matches Some(p) ==> p < ts.len()) by {
        if let Some(p) = parent_position(ts, x) {
            lemma_position_at(ts, (ts[x].project@, crate::metadata::parent_of(&ts[x].metadata)->0));
        }
    }
    assert forall|x: int| 0 <= x < ts.len() implies (#[trigger] family_parents(ts, included)[x] matches Some(p) ==> p < ts.len()) by {
        assert(first_parents(ts, included)[x] == first_parent(ts, included, x));
    }
}

/// No task sits on a cycle of the family: the climb from any task stops within as many steps as
/// there are tasks.
pub proof fn lemma_family_chain_ends(ts: Seq<TaskListItem>, included: Seq<bool>, i: usize)
    requires
        included.len() == ts.len(),
        i < ts.len(),
        ts.len() <= usize::MAX,
    ensures
        climb(family_parents(ts, included), i, ts.len()) is None,
{
    let fam = family_parents(ts, included);
    let first = first_parents(ts, included);
    let n = ts.len();
    lemma_family_in_range(ts, included);
    if climb(fam, i, n) is Some {
        assert forall|k: nat| k <= n implies #[trigger] climb(fam, i, k) is Some by {
            if climb(fam, i, k) is None {
                lemma_climb_stops(fam, i, k, n);
            }
        }
        assert forall|k: nat| k <= n implies (#[trigger] climb(fam, i, k))->0 < n by {
            lemma_climb_in_range(fam, i, k);
        }
        let w = Seq::new(n + 1, |k: int| climb(fam, i, k as nat)->0);
        assert forall|k: int| 0 <= k < w.len() implies #[trigger] w[k] < n by {
            assert(climb(fam, i, k as nat) is Some);
        }
        let (a, b) = lemma_pigeonhole(w, n);
        let x = w[a];
        assert(climb(fam, i, a as nat) == Some(x));
        assert(climb(fam, i, b as nat) == Some(x));
        let d = (b - a) as nat;
        lemma_climb_from(fam, i, a as nat, x, d);
        assert(climb(fam, x, d) == Some(x));
        lemma_family_climbs_first(ts, included, x, d);
        assert(on_parent_cycle(first, x));
        assert(fam[x as int] is None);
        assert(x < fam.len());
        assert(climb(fam, x, 0) == Some(x));
        assert(climb(fam, x, 1) == fam[x as int]);
        lemma_climb_stops(fam, x, 1, d);
    }
}

/// A climb that starts at a position stays among positions.
pub proof fn lemma_climb_in_range(parent: Seq<Option<usize>>, start: usize, k: nat)
    requires
        links_in_range(parent),
        start < parent.len(),
    ensures
        climb(parent, start, k) matches Some(x) ==> x < parent.len(),
    decreases k,
{
    if k > 0 {
        lemma_climb_in_range(parent, start, (k - 1) as nat);
    }
}

/// The tasks above the task at `i` in the family, nearest first.
pub fn above(family: &Family, Ghost(ts): Ghost<Seq<TaskListItem>>, Ghost(included): Ghost<Seq<bool>>, i: usize) -> (ancestors: Vec<usize>)
    requires
        family.parent@ == family_parents(ts, included),
        included.len() == ts.len(),
        i < ts.len(),
    ensures
        climb(family.parent@, i, (ancestors.len() + 1) as nat) is None,
        forall|m: int| 0 <= m < ancestors.len() ==> climb(family.parent@, i, (m + 1) as nat) == Some(#[trigger] ancestors@[m]),
{
    let ghost fam = family.parent@;
    let n = family.parent.len();
    proof {
        lemma_family_in_range(ts, included);
        lemma_family_chain_ends(ts, included, i);
    }
    let mut ancestors: Vec<usize> = Vec::new();
    let mut at = i;
    loop
        invariant
            fam == family.parent@,
            fam == family_parents(ts, included),
            n == fam.len(),
            links_in_range(fam),
            at < n,
            climb(fam, i, ancestors.len() as nat) == Some(at),
            climb(fam, i, n as nat) is None,
            forall|m: int| 0 <= m < ancestors.len() ==> climb(fam, i, (m + 1) as nat) == Some(#[trigger] ancestors@[m]),
        decreases n - ancestors.len(),
    {
        proof {
            if ancestors.len() >= n {
                lemma_climb_stops(fam, i, n as nat, ancestors.len() as nat);
            }
        }
        match family.parent[at] {
            Some(p) => {
                ancestors.push(p);
                at = p;
            },
            None => {
                return ancestors;
            },
        }
    }
}

/// The task at `l` sits somewhere below the one at `t` in the family.
pub open spec fn below_in_family(ts: Seq<TaskListItem>, included: Seq<bool>, l: usize, t: usize) -> bool {
    exists|k: nat| k >= 1 && #[trigger] climb(family_parents(ts, included), l, k) == Some(t)
}

/// The leaf at `l` is one a dependency on the task at `t` waits for: `t` itself where it holds
/// no task, or a leaf anywhere below it.
pub open spec fn leaf_under(ts: Seq<TaskListItem>, included: Seq<bool>, l: usize, t: usize) -> bool {
    if holds(ts, included, t as int) {
        !holds(ts, included, l as int) && below_in_family(ts, included, l, t)
    } else {
        l == t
    }
}

/// Whether the task at `t` is one of `ancestors`.
fn listed(ancestors: &Vec<usize>, t: usize) -> (found: bool)
    ensures
        found == exists|m: int| 0 <= m < ancestors.len() && ancestors@[m] == t,
{
    let mut m: usize = 0;
    while m < ancestors.len()
        invariant
            m <= ancestors.len(),
            forall|j: int| 0 <= j < m ==> ancestors@[j] != t,
        decreases ancestors.len() - m,
    {
        if ancestors[m] == t {
            return true;
        }
        m = m + 1;
    }
    false
}

/// Whether the leaf at `l` is one a dependency on the task at `t` waits for.
pub fn is_leaf_under(family: &Family, Ghost(ts): Ghost<Seq<TaskListItem>>, Ghost(included): Ghost<Seq<bool>>, l: usize, t: usize) -> (under: bool)
    requires
        family.parent@ == family_parents(ts, included),
        family.holds.len() == ts.len(),
        forall|p: int| 0 <= p < ts.len() ==> #[trigger] family.holds[p] == holds(ts, included, p),
        included.len() == ts.len(),
        l < ts.len(),
        t < ts.len(),
    ensures
        under == leaf_under(ts, included, l, t),
{
    if !family.holds[t] {
        return l == t;
    }
    if family.holds[l] {
        return false;
    }
    let ancestors = above(family, Ghost(ts), Ghost(included), l);
    let found = listed(&ancestors, t);
    proof {
        let fam = family.parent@;
        if found {
            let m = choose|m: int| 0 <= m < ancestors.len() && ancestors@[m] == t;
            assert(climb(fam, l, (m + 1) as nat) == Some(t));
        }
        if below_in_family(ts, included, l, t) {
            let k = choose|k: nat| k >= 1 && #[trigger] climb(fam, l, k) == Some(t);
            if k > ancestors.len() {
                lemma_climb_stops(fam, l, (ancestors.len() + 1) as nat, k);
            }
            assert(ancestors@[k - 1] == t);
        }
    }
    found
}

} // verus!
