//! Longest-path layering of the leaves a flow orders, and the cycles that stop it.
use vstd::prelude::*;
use crate::graph::{
    count_true, edge, edge_count, graph_of, has_cycle, is_cycle, is_cycle_report, is_layering,
    is_path, lemma_climbing_graph_has_no_cycle, lemma_count_none_true, lemma_count_true_all,
    lemma_count_true_bound, lemma_count_true_grow, lemma_count_true_mark, lemma_count_true_unmark,
    lemma_count_true_zero, lemma_edge_count_grows, lemma_marks_total_bound,
    lemma_marks_total_update, lemma_marks_total_zero, lemma_occurrences_take,
    lemma_occurrences_take_le, lemma_pending_bound, lemma_pending_mark, lemma_pending_positive,
    lemma_pending_zero, lemma_pigeonhole, lemma_pointed_set_has_cycle, marks_total, occurrences,
    pending_in, seqs_of, well_formed, within, reaches, reach_row, reach_count, lemma_reaches_step,
    lemma_count_true_take, behind_cycle, behind_cycles, lemma_pointed_member_behind_cycle,
};

verus! {

pub(crate) fn falses(n: usize) -> (v: Vec<bool>)
    ensures
        v@ == Seq::new(n as nat, |i: int| false),
{
    let mut v: Vec<bool> = Vec::new();
    while v.len() < n
        invariant
            v.len() <= n,
            forall|i: int| 0 <= i < v.len() ==> !v[i],
        decreases n - v.len(),
    {
        v.push(false);
    }
    assert(v@ =~= Seq::new(n as nat, |i: int| false));
    v
}

fn zeros(n: usize) -> (v: Vec<usize>)
    ensures
        v@ == Seq::new(n as nat, |i: int| 0usize),
{
    let mut v: Vec<usize> = Vec::new();
    while v.len() < n
        invariant
            v.len() <= n,
            forall|i: int| 0 <= i < v.len() ==> v[i] == 0,
        decreases n - v.len(),
    {
        v.push(0);
    }
    assert(v@ =~= Seq::new(n as nat, |i: int| 0usize));
    v
}

/// How many edges point at each position.
fn in_degrees(successors: &Vec<Vec<usize>>) -> (waiting: Vec<usize>)
    requires
        well_formed(graph_of(successors)),
        edge_count(graph_of(successors), successors.len() as int) <= usize::MAX,
    ensures
        waiting.len() == successors.len(),
        forall|t: int|
            0 <= t < successors.len() ==> waiting[t] == pending_in(
                graph_of(successors),
                Seq::new(successors.len() as nat, |i: int| false),
                t as usize,
                successors.len() as int,
            ),
{
    let n = successors.len();
    let ghost g = graph_of(successors);
    let ghost none = Seq::new(n as nat, |i: int| false);
    let mut waiting = zeros(n);
    let mut u: usize = 0;
    while u < n
        invariant
            n == successors.len(),
            g == graph_of(successors),
            none == Seq::new(n as nat, |i: int| false),
            well_formed(g),
            edge_count(g, n as int) <= usize::MAX,
            u <= n,
            waiting.len() == n,
            forall|t: int| 0 <= t < n ==> waiting[t] == pending_in(g, none, t as usize, u as int),
        decreases n - u,
    {
        let targets = &successors[u];
        let mut k: usize = 0;
        while k < targets.len()
            invariant
                n == successors.len(),
                g == graph_of(successors),
                none == Seq::new(n as nat, |i: int| false),
                well_formed(g),
                edge_count(g, n as int) <= usize::MAX,
                u < n,
                targets@ == g[u as int],
                k <= targets.len(),
                waiting.len() == n,
                forall|t: int|
                    0 <= t < n ==> waiting[t] == pending_in(g, none, t as usize, u as int)
                        + occurrences(g[u as int].take(k as int), t as usize),
            decreases targets.len() - k,
        {
            let target = targets[k];
            proof {
                assert(g[u as int][k as int] == target);
                assert(target < n);
                lemma_occurrences_take(g[u as int], k as int, target);
                lemma_occurrences_take_le(g[u as int], k as int + 1, target);
                lemma_pending_bound(g, none, target, u as int + 1);
                lemma_edge_count_grows(g, u as int + 1, n as int);
                assert(pending_in(g, none, target, u as int + 1) == pending_in(
                    g,
                    none,
                    target,
                    u as int,
                ) + occurrences(g[u as int], target));
            }
            waiting.set(target, waiting[target] + 1);
            proof {
                assert forall|t: int| 0 <= t < n implies waiting[t] == pending_in(
                    g,
                    none,
                    t as usize,
                    u as int,
                ) + occurrences(g[u as int].take(k as int + 1), t as usize) by {
                    lemma_occurrences_take(g[u as int], k as int, t as usize);
                }
            }
            k = k + 1;
        }
        proof {
            assert(g[u as int].take(k as int) =~= g[u as int]);
        }
        u = u + 1;
    }
    waiting
}

/// The first position still to do that waits for nothing, if any.
fn first_ready(done: &Vec<bool>, waiting: &Vec<usize>) -> (next: Option<usize>)
    requires
        done.len() == waiting.len(),
    ensures
        match next {
            Some(i) => i < done.len() && !done[i as int] && waiting[i as int] == 0,
            None => forall|i: int| 0 <= i < done.len() ==> done[i] || waiting[i] > 0,
        },
{
    let mut i: usize = 0;
    while i < done.len()
        invariant
            done.len() == waiting.len(),
            i <= done.len(),
            forall|j: int| 0 <= j < i ==> done[j] || waiting[j] > 0,
        decreases done.len() - i,
    {
        if !done[i] && waiting[i] == 0 {
            return Some(i);
        }
        i = i + 1;
    }
    None
}

/// Longest-path layering: a leaf lands one wave behind the last thing it waits for, so a person
/// can start wave `k` once wave `k-1` is complete. Leaves are taken smallest first among those
/// that wait for nothing left. The members of a cycle never come ready, and the layering fails on
/// them rather than answering with an order that does not exist. What it leaves are the positions
/// some cycle leads to, and it names the cycles the cut walk finds among them.
#[verifier::rlimit(40)]
pub fn layer(successors: &Vec<Vec<usize>>) -> (result: Result<Vec<usize>, Vec<Vec<usize>>>)
    requires
        well_formed(graph_of(successors)),
        edge_count(graph_of(successors), successors.len() as int) <= usize::MAX,
    ensures
        match result {
            Ok(wave) => is_layering(graph_of(successors), wave@) && !has_cycle(
                graph_of(successors),
            ) && forall|v: int| 0 <= v < wave.len() ==> #[trigger] wave@[v] <= successors.len(),
            Err(cycles) => has_cycle(graph_of(successors)) && cycles.len() > 0 && is_cycle_report(
                graph_of(successors),
                seqs_of(&cycles),
            ) && seqs_of(&cycles) == cut_walk_reports(
                graph_of(successors),
                behind_cycles(graph_of(successors)),
            ),
        },
{
    let n = successors.len();
    let ghost g = graph_of(successors);
    let mut waiting = in_degrees(successors);
    let mut done = falses(n);
    let mut wave = zeros(n);
    let mut layered: usize = 0;
    proof {
        lemma_count_none_true(n as nat);
    }
    let mut next = first_ready(&done, &waiting);
    while next.is_some()
        invariant
            n == successors.len(),
            g == graph_of(successors),
            well_formed(g),
            waiting.len() == n,
            done.len() == n,
            wave.len() == n,
            layered == count_true(done@),
            match next {
                Some(i) => i < n && !done[i as int] && waiting[i as int] == 0,
                None => forall|i: int| 0 <= i < n ==> done[i] || waiting[i] > 0,
            },
            forall|t: int| 0 <= t < n ==> waiting[t] == pending_in(g, done@, t as usize, n as int),
            forall|v: int| 0 <= v < n ==> wave[v] <= layered,
            forall|u: usize, v: usize|
                done@[u as int] && #[trigger] edge(g, u, v) ==> wave[u as int] < wave[v as int],
            forall|v: usize|
                v < n && #[trigger] wave@[v as int] > 0 ==> exists|u: usize|
                    #[trigger] edge(g, u, v) && done@[u as int] && wave[u as int] + 1 == wave[v as int],
            forall|u: usize, p: usize| done@[u as int] && #[trigger] edge(g, p, u) ==> done@[p as int],
        decreases n - layered,
    {
        let node = next.unwrap();
        let ghost done_old = done@;
        let ghost wave_old = wave@;
        proof {
            lemma_pending_zero(g, done@, node, n as int);
            lemma_count_true_mark(done@, node as int);
            lemma_count_true_bound(done@.update(node as int, true));
            lemma_count_true_bound(done@);
        }
        done.set(node, true);
        layered = layered + 1;
        proof {
            assert forall|t: int| 0 <= t < n implies waiting[t] + occurrences(
                g[node as int].take(0),
                t as usize,
            ) == pending_in(g, done@, t as usize, n as int) + occurrences(g[node as int], t as usize) by {
                lemma_pending_mark(g, done_old, node as int, t as usize, n as int);
                assert(g[node as int].take(0) =~= Seq::<usize>::empty());
            }
        }
        let targets = &successors[node];
        let mut k: usize = 0;
        while k < targets.len()
            invariant
                n == successors.len(),
                g == graph_of(successors),
                well_formed(g),
                node < n,
                !done_old[node as int],
                done_old.len() == n,
                done@ == done_old.update(node as int, true),
                targets@ == g[node as int],
                k <= targets.len(),
                waiting.len() == n,
                wave.len() == n,
                wave_old.len() == n,
                1 <= layered <= n,
                wave_old[node as int] < layered,
                forall|u: usize| u < n && !done_old[u as int] ==> !edge(g, u, node),
                forall|u: usize, p: usize|
                    done_old[u as int] && #[trigger] edge(g, p, u) ==> done_old[p as int],
                forall|t: int|
                    0 <= t < n ==> waiting[t] + occurrences(g[node as int].take(k as int), t as usize)
                        == pending_in(g, done@, t as usize, n as int) + occurrences(
                        g[node as int],
                        t as usize,
                    ),
                forall|v: int| 0 <= v < n ==> wave[v] <= layered,
                forall|v: int| 0 <= v < n ==> wave[v] >= wave_old[v],
                forall|u: int| 0 <= u < n && done@[u] ==> wave[u] == wave_old[u],
                forall|j: int| 0 <= j < k ==> wave[node as int] < wave[g[node as int][j] as int],
                forall|v: usize|
                    v < n && #[trigger] wave@[v as int] > 0 ==> exists|u: usize|
                        #[trigger] edge(g, u, v) && done@[u as int] && wave[u as int] + 1
                            == wave[v as int],
            decreases targets.len() - k,
        {
            let target = targets[k];
            proof {
                assert(g[node as int][k as int] == target);
                assert(edge(g, node, target));
                assert(target < n);
                if done_old[target as int] {
                    assert(done_old[node as int]);
                }
                assert(target != node);
                lemma_occurrences_take(g[node as int], k as int, target);
                lemma_occurrences_take_le(g[node as int], k as int + 1, target);
            }
            let ghost wave_before = wave@;
            let w = wave[node] + 1;
            if wave[target] < w {
                wave.set(target, w);
            }
            proof {
                assert forall|v: usize|
                    v < n && #[trigger] wave@[v as int] > 0 implies exists|u: usize|
                        #[trigger] edge(g, u, v) && done@[u as int] && wave[u as int] + 1
                            == wave[v as int] by {
                    if v == target && wave@[v as int] != wave_before[v as int] {
                        assert(edge(g, node, v) && done@[node as int] && wave[node as int] + 1
                            == wave[v as int]);
                    } else {
                        assert(wave_before[v as int] > 0);
                        let u = choose|u: usize|
                            #[trigger] edge(g, u, v) && done@[u as int] && wave_before[u as int]
                                + 1 == wave_before[v as int];
                        assert(wave[u as int] == wave_before[u as int]);
                        assert(edge(g, u, v) && done@[u as int] && wave[u as int] + 1
                            == wave[v as int]);
                    }
                }
            }
            waiting.set(target, waiting[target] - 1);
            proof {
                assert forall|t: int|
                    0 <= t < n implies waiting[t] + occurrences(
                    g[node as int].take(k as int + 1),
                    t as usize,
                ) == pending_in(g, done@, t as usize, n as int) + occurrences(
                    g[node as int],
                    t as usize,
                ) by {
                    lemma_occurrences_take(g[node as int], k as int, t as usize);
                }
            }
            k = k + 1;
        }
        proof {
            assert(g[node as int].take(k as int) =~= g[node as int]);
            lemma_pending_mark(g, done_old, node as int, 0, n as int);
            assert forall|t: int| 0 <= t < n implies waiting[t] == pending_in(
                g,
                done@,
                t as usize,
                n as int,
            ) by {
                lemma_pending_mark(g, done_old, node as int, t as usize, n as int);
            }
            assert forall|u: usize, v: usize|
                done@[u as int] && #[trigger] edge(g, u, v) implies wave[u as int] < wave[v as int] by {
                if u == node {
                    let j = choose|j: int| 0 <= j < g[u as int].len() && #[trigger] g[u as int][j] == v;
                    assert(wave[node as int] < wave[g[node as int][j] as int]);
                } else {
                    assert(done_old[u as int]);
                    assert(v < n);
                }
            }
            assert forall|u: usize, p: usize|
                done@[u as int] && #[trigger] edge(g, p, u) implies done@[p as int] by {
                if u != node {
                    assert(done_old[p as int]);
                }
            }
        }
        next = first_ready(&done, &waiting);
    }
    if layered == n {
        proof {
            lemma_count_true_bound(done@);
            lemma_climbing_graph_has_no_cycle(g, wave@);
        }
        Ok(wave)
    } else {
        let left = undone(&done);
        proof {
            lemma_unlayered_cycle(g, done@, left@, layered as nat);
            lemma_left_behind_cycles(g, done@, wave@, left@);
        }
        let cycles = rings(left, successors);
        Err(cycles)
    }
}

/// How a walk ended: on a position it stood on already, at this index of its path, or on a
/// position with no step left.
enum WalkEnd {
    Closed(usize),
    Stuck,
}

/// The first successor of `u`, from slot `k` on, that is still left and whose step is not cut.
pub open spec fn step_from(g: Seq<Seq<usize>>, left: Seq<bool>, cut: Seq<Seq<bool>>, u: int, k: int) -> Option<usize>
    decreases g[u].len() - k,
{
    if k < 0 || k >= g[u].len() {
        None
    } else if left[g[u][k] as int] && !cut[u][k] {
        Some(g[u][k])
    } else {
        step_from(g, left, cut, u, k + 1)
    }
}

/// The first place, from `k` on, where `x` stands in `path`.
pub open spec fn place_from(path: Seq<usize>, x: usize, k: int) -> Option<int>
    decreases path.len() - k,
{
    if k < 0 || k >= path.len() {
        None
    } else if path[k] == x {
        Some(k)
    } else {
        place_from(path, x, k + 1)
    }
}

/// The walk from `current`, after the positions of `path`: each step the first uncut one into a
/// position still left, until it meets a position of its path again (the place where it stands
/// there closes a cycle) or finds no step (`None`).
pub open spec fn walk_spec(g: Seq<Seq<usize>>, left: Seq<bool>, cut: Seq<Seq<bool>>, path: Seq<usize>, current: usize) -> (
    Seq<usize>,
    Option<int>,
)
    decreases g.len() - path.len(),
{
    match place_from(path, current, 0) {
        Some(at) => (path, Some(at)),
        None => if path.len() >= g.len() {
            (path.push(current), None)
        } else {
            match step_from(g, left, cut, current as int, 0) {
                Some(next) => walk_spec(g, left, cut, path.push(current), next),
                None => (path.push(current), None),
            }
        },
    }
}

/// The first position, from `k` on, still left.
pub open spec fn first_left(left: Seq<bool>, k: int) -> Option<usize>
    decreases left.len() - k,
{
    if k < 0 || k >= left.len() {
        None
    } else if left[k] {
        Some(k as usize)
    } else {
        first_left(left, k + 1)
    }
}

/// The cut marks with every step from `last` to `v` cut as well.
pub open spec fn cut_step(g: Seq<Seq<usize>>, cut: Seq<Seq<bool>>, last: usize, v: usize) -> Seq<Seq<bool>> {
    cut.update(last as int, Seq::new(cut[last as int].len(), |k: int| cut[last as int][k] || g[last as int][k] == v))
}

/// Some report already names the members of `c`.
pub open spec fn names_members(cycles: Seq<Seq<usize>>, c: Seq<usize>) -> bool {
    exists|i: int| 0 <= i < cycles.len() && #[trigger] cycles[i].to_set() == c.to_set()
}

/// The reports of the cut walk, in at most `rounds` more rounds: while a position is left, walk
/// from the first one; a walk that closes a cycle cuts its closing step and reports the cycle,
/// from where the walk met it, unless a report already names its members; a walk that finds no
/// step drops the position it stopped on.
pub open spec fn rings_spec(g: Seq<Seq<usize>>, left: Seq<bool>, cut: Seq<Seq<bool>>, cycles: Seq<Seq<usize>>, rounds: nat) -> Seq<
    Seq<usize>,
>
    decreases rounds,
{
    if rounds == 0 {
        cycles
    } else {
        match first_left(left, 0) {
            None => cycles,
            Some(start) => {
                let (path, end) = walk_spec(g, left, cut, Seq::empty(), start);
                match end {
                    Some(at) => {
                        let cycle = path.subrange(at, path.len() as int);
                        let more = if names_members(cycles, cycle) {
                            cycles
                        } else {
                            cycles.push(cycle)
                        };
                        rings_spec(g, left, cut_step(g, cut, path.last(), path[at]), more, (rounds - 1) as nat)
                    },
                    None => rings_spec(g, left.update(path.last() as int, false), cut, cycles, (rounds - 1) as nat),
                }
            },
        }
    }
}

/// No step cut.
pub open spec fn no_cut(g: Seq<Seq<usize>>) -> Seq<Seq<bool>> {
    Seq::new(g.len(), |u: int| Seq::new(g[u].len(), |k: int| false))
}

/// The reports of the cut walk over the positions `left`: it runs round after round until no
/// position is left, which takes fewer rounds than the positions and the steps together.
pub open spec fn cut_walk_reports(g: Seq<Seq<usize>>, left: Seq<bool>) -> Seq<Seq<usize>> {
    rings_spec(g, left, no_cut(g), Seq::empty(), count_true(left) + edge_count(g, g.len() as int) + 1)
}

/// The first marked position, if any.
fn first_marked(marks: &Vec<bool>) -> (first: Option<usize>)
    ensures
        match first {
            Some(i) => i < marks.len() && marks[i as int],
            None => forall|i: int| 0 <= i < marks.len() ==> !marks[i],
        },
        first == first_left(marks@, 0),
{
    let mut i: usize = 0;
    while i < marks.len()
        invariant
            i <= marks.len(),
            forall|j: int| 0 <= j < i ==> !marks[j],
            first_left(marks@, 0) == first_left(marks@, i as int),
        decreases marks.len() - i,
    {
        if marks[i] {
            return Some(i);
        }
        i = i + 1;
    }
    None
}

/// Where `x` stands in `path`, if it does.
fn position_of(path: &Vec<usize>, x: usize) -> (at: Option<usize>)
    ensures
        match at {
            Some(i) => i < path.len() && path[i as int] == x,
            None => !path@.contains(x),
        },
        place_from(path@, x, 0) == match at {
            Some(i) => Some(i as int),
            None => None,
        },
{
    let mut i: usize = 0;
    while i < path.len()
        invariant
            i <= path.len(),
            forall|j: int| 0 <= j < i ==> path[j] != x,
            place_from(path@, x, 0) == place_from(path@, x, i as int),
        decreases path.len() - i,
    {
        if path[i] == x {
            return Some(i);
        }
        i = i + 1;
    }
    None
}

/// The first step out of `current` that stays among the marked positions and is not cut.
fn first_step(successors: &Vec<Vec<usize>>, left: &Vec<bool>, cut: &Vec<Vec<bool>>, current: usize) -> (step: Option<usize>)
    requires
        well_formed(graph_of(successors)),
        current < successors.len(),
        left.len() == successors.len(),
        cut.len() == successors.len(),
        cut[current as int].len() == successors[current as int].len(),
    ensures
        match step {
            Some(next) => exists|k: int|
                0 <= k < successors[current as int].len() && successors[current as int][k] == next
                    && !cut[current as int][k] && left[next as int],
            None => forall|k: int|
                0 <= k < successors[current as int].len() ==> !left[successors[current as int][k] as int]
                    || cut[current as int][k],
        },
        step == step_from(graph_of(successors), left@, flags_of(cut), current as int, 0),
{
    let targets = &successors[current];
    let flags = &cut[current];
    proof {
        assert(flags_of(cut)[current as int] == flags@);
        assert(graph_of(successors)[current as int] == targets@);
    }
    let mut k: usize = 0;
    while k < targets.len()
        invariant
            well_formed(graph_of(successors)),
            current < successors.len(),
            left.len() == successors.len(),
            targets@ == successors[current as int]@,
            flags@ == cut[current as int]@,
            flags.len() == targets.len(),
            k <= targets.len(),
            forall|j: int| 0 <= j < k ==> !left[targets[j] as int] || flags[j],
            flags_of(cut)[current as int] == flags@,
            graph_of(successors)[current as int] == targets@,
            step_from(graph_of(successors), left@, flags_of(cut), current as int, 0) == step_from(
                graph_of(successors),
                left@,
                flags_of(cut),
                current as int,
                k as int,
            ),
        decreases targets.len() - k,
    {
        let next = targets[k];
        proof {
            assert(graph_of(successors)[current as int][k as int] == next);
        }
        if left[next] && !flags[k] {
            return Some(next);
        }
        k = k + 1;
    }
    None
}

/// Walks from `current` one step at a time, each step the first uncut one into a marked
/// position, until it meets a position of its path again or finds no step.
fn walk(
    successors: &Vec<Vec<usize>>,
    left: &Vec<bool>,
    cut: &Vec<Vec<bool>>,
    path: Vec<usize>,
    current: usize,
) -> (out: (Vec<usize>, WalkEnd))
    requires
        well_formed(graph_of(successors)),
        successors.len() <= usize::MAX,
        left.len() == successors.len(),
        cut.len() == successors.len(),
        forall|u: int| 0 <= u < successors.len() ==> #[trigger] cut[u].len() == successors[u].len(),
        current < successors.len(),
        left[current as int],
        path@.no_duplicates(),
        within(path@, left@),
        path.len() > 0 ==> is_path(graph_of(successors), path@),
        path.len() > 0 ==> exists|k: int|
            0 <= k < successors[path@.last() as int].len()
                && successors[path@.last() as int][k] == current && !cut[path@.last() as int][k],
    ensures
        out.0.len() > 0,
        out.0@.no_duplicates(),
        within(out.0@, left@),
        is_path(graph_of(successors), out.0@),
        out.0.len() >= path.len(),
        out.0@.take(path.len() as int) == path@,
        path.len() == 0 ==> out.0@[0] == current,
        match out.1 {
            WalkEnd::Closed(first) => first < out.0.len() && exists|k: int|
                0 <= k < successors[out.0@.last() as int].len() && successors[out.0@.last() as int][k]
                    == out.0@[first as int] && !cut[out.0@.last() as int][k],
            WalkEnd::Stuck => forall|k: int|
                0 <= k < successors[out.0@.last() as int].len() ==> !left[successors[out.0@.last() as int][k] as int]
                    || cut[out.0@.last() as int][k],
        },
        (out.0@, match out.1 {
            WalkEnd::Closed(first) => Some(first as int),
            WalkEnd::Stuck => None,
        }) == walk_spec(graph_of(successors), left@, flags_of(cut), path@, current),
    decreases successors.len() - path.len(),
{
    let ghost g = graph_of(successors);
    proof {
        assert forall|k: int| 0 <= k < path.len() implies #[trigger] path@[k] < successors.len() by {
            if path.len() > 0 {
                assert(is_path(g, path@));
            }
        }
    }
    match position_of(&path, current) {
        Some(first) => {
            assert(path@.take(path.len() as int) =~= path@);
            (path, WalkEnd::Closed(first))
        },
        None => {
            let ghost before = path@;
            let mut path = path;
            path.push(current);
            proof {
                assert(path@ == before.push(current));
                assert forall|i: int, j: int|
                    0 <= i < j < path.len() implies path@[i] != path@[j] by {
                    if j == path.len() - 1 {
                        assert(before.contains(path@[i]) || path@[i] != current);
                    }
                }
                assert(path@.no_duplicates());
                assert forall|k: int| 0 <= k < path.len() implies #[trigger] left@[path@[k] as int] by {
                    if k < before.len() {
                        assert(left@[before[k] as int]);
                    }
                }
                if before.len() > 0 {
                    let k = choose|k: int|
                        0 <= k < successors[before.last() as int].len()
                            && successors[before.last() as int][k] == current
                            && !cut[before.last() as int][k];
                    assert(g[before.last() as int][k] == current);
                    assert(edge(g, before.last(), current));
                    assert forall|i: int| 0 <= i < path.len() - 1 implies edge(
                        g,
                        #[trigger] path@[i],
                        path@[i + 1],
                    ) by {
                        if i < before.len() - 1 {
                            assert(edge(g, before[i], before[i + 1]));
                        }
                    }
                }
                assert(is_path(g, path@));
                if path.len() > successors.len() {
                    let (i, j) = lemma_pigeonhole(path@.take(successors.len() + 1), successors.len() as nat);
                    assert(path@[i] == path@[j]);
                }
            }
            match first_step(successors, left, cut, current) {
                Some(next) => {
                    proof {
                        let k = choose|k: int|
                            0 <= k < successors[current as int].len() && successors[current as int][k] == next
                                && !cut[current as int][k] && left[next as int];
                        assert(g[current as int][k] == next);
                        assert(path@.last() == current);
                        assert(successors[path@.last() as int][k] == next && !cut[path@.last() as int][k]);
                    }
                    let out = walk(successors, left, cut, path, next);
                    proof {
                        assert(out.0@[0] == out.0@.take(before.len() as int + 1)[0]);
                        assert(out.0@.take(before.len() as int) =~= out.0@.take(before.len() as int + 1).take(before.len() as int));
                    }
                    out
                },
                None => {
                    assert(path@.take(path.len() as int) =~= path@);
                    (path, WalkEnd::Stuck)
                },
            }
        },
    }
}

/// The cut marks, row by row, as sequences.
spec fn flags_of(cut: &Vec<Vec<bool>>) -> Seq<Seq<bool>> {
    Seq::new(cut@.len(), |u: int| cut@[u]@)
}

/// One unmarked row per successor list.
fn no_cuts(successors: &Vec<Vec<usize>>) -> (cut: Vec<Vec<bool>>)
    ensures
        cut.len() == successors.len(),
        forall|u: int| 0 <= u < successors.len() ==> #[trigger] cut[u].len() == successors[u].len(),
        marks_total(flags_of(&cut), successors.len() as int) == 0,
        flags_of(&cut) == no_cut(graph_of(successors)),
{
    let mut cut: Vec<Vec<bool>> = Vec::new();
    let mut u: usize = 0;
    while u < successors.len()
        invariant
            u <= successors.len(),
            cut.len() == u,
            forall|v: int| 0 <= v < u ==> #[trigger] cut[v]@ == Seq::new(
                successors[v].len() as nat,
                |i: int| false,
            ),
        decreases successors.len() - u,
    {
        cut.push(falses(successors[u].len()));
        u = u + 1;
    }
    proof {
        assert forall|v: int| 0 <= v < cut.len() implies count_true(#[trigger] flags_of(&cut)[v])
            == 0 by {
            lemma_count_none_true(successors[v].len() as nat);
        }
        lemma_marks_total_zero(flags_of(&cut), cut.len() as int);
        assert(flags_of(&cut) =~= no_cut(graph_of(successors)));
    }
    cut
}

/// `row` with every slot that points at `v` marked as well.
fn cut_pair(row: &Vec<bool>, targets: &Vec<usize>, v: usize) -> (out: Vec<bool>)
    requires
        row.len() == targets.len(),
    ensures
        out.len() == row.len(),
        forall|k: int| 0 <= k < row.len() ==> out[k] == (row[k] || targets[k] == v),
{
    let mut out: Vec<bool> = Vec::new();
    let mut k: usize = 0;
    while k < row.len()
        invariant
            row.len() == targets.len(),
            k <= row.len(),
            out.len() == k,
            forall|j: int| 0 <= j < k ==> out[j] == (row[j] || targets[j] == v),
        decreases row.len() - k,
    {
        out.push(row[k] || targets[k] == v);
        k = k + 1;
    }
    out
}

/// The part of `path` from `at` on.
fn tail_from(path: &Vec<usize>, at: usize) -> (tail: Vec<usize>)
    requires
        at <= path.len(),
    ensures
        tail@ == path@.subrange(at as int, path.len() as int),
{
    let mut tail: Vec<usize> = Vec::new();
    let mut k: usize = at;
    while k < path.len()
        invariant
            at <= k <= path.len(),
            tail@ == path@.subrange(at as int, k as int),
        decreases path.len() - k,
    {
        tail.push(path[k]);
        proof {
            assert(tail@ =~= path@.subrange(at as int, k + 1));
        }
        k = k + 1;
    }
    tail
}

/// Whether `x` occurs in `v`.
fn holds(v: &Vec<usize>, x: usize) -> (r: bool)
    ensures
        r == v@.contains(x),
{
    let mut i: usize = 0;
    while i < v.len()
        invariant
            i <= v.len(),
            forall|j: int| 0 <= j < i ==> v[j] != x,
        decreases v.len() - i,
    {
        if v[i] == x {
            return true;
        }
        i = i + 1;
    }
    false
}

/// Whether every member of `a` occurs in `b`.
fn all_held(a: &Vec<usize>, b: &Vec<usize>) -> (r: bool)
    ensures
        r == forall|k: int| 0 <= k < a.len() ==> b@.contains(#[trigger] a@[k]),
{
    let mut i: usize = 0;
    while i < a.len()
        invariant
            i <= a.len(),
            forall|k: int| 0 <= k < i ==> b@.contains(#[trigger] a@[k]),
        decreases a.len() - i,
    {
        if !holds(b, a[i]) {
            return false;
        }
        i = i + 1;
    }
    true
}

/// Whether two lists name the same positions.
fn same_members(a: &Vec<usize>, b: &Vec<usize>) -> (r: bool)
    ensures
        r == (a@.to_set() == b@.to_set()),
{
    let ab = all_held(a, b);
    let ba = all_held(b, a);
    proof {
        if ab && ba {
            assert forall|x: usize| a@.to_set().contains(x) == b@.to_set().contains(x) by {
                if a@.contains(x) {
                    let k = choose|k: int| 0 <= k < a.len() && a@[k] == x;
                    assert(b@.contains(a@[k]));
                }
                if b@.contains(x) {
                    let k = choose|k: int| 0 <= k < b.len() && b@[k] == x;
                    assert(a@.contains(b@[k]));
                }
            }
            assert(a@.to_set() =~= b@.to_set());
        } else if !ab {
            let k = choose|k: int| 0 <= k < a.len() && !b@.contains(#[trigger] a@[k]);
            assert(a@.to_set().contains(a@[k]));
            assert(!b@.to_set().contains(a@[k]));
        } else {
            let k = choose|k: int| 0 <= k < b.len() && !a@.contains(#[trigger] b@[k]);
            assert(b@.to_set().contains(b@[k]));
            assert(!a@.to_set().contains(b@[k]));
        }
    }
    ab && ba
}

/// Whether a report already names the members of `cycle`.
fn named_before(cycles: &Vec<Vec<usize>>, cycle: &Vec<usize>) -> (r: bool)
    ensures
        r == exists|i: int| 0 <= i < cycles.len() && #[trigger] cycles[i]@.to_set() == cycle@.to_set(),
{
    let mut i: usize = 0;
    while i < cycles.len()
        invariant
            i <= cycles.len(),
            forall|j: int| 0 <= j < i ==> #[trigger] cycles[j]@.to_set() != cycle@.to_set(),
        decreases cycles.len() - i,
    {
        if same_members(&cycles[i], cycle) {
            return true;
        }
        i = i + 1;
    }
    false
}

/// The cycles among the positions layering could not reach. The walk follows one step at a time
/// until it meets a position it stands on already, which closes a cycle. It then cuts that one step
/// and walks again, so a second cycle through a position of the first one still gets its own
/// report; a walk that runs out of steps drops the position it stopped on. Each round cuts a step or
/// drops a position, so the search ends. Two cycles over the same positions read as one report.
fn rings(left: Vec<bool>, successors: &Vec<Vec<usize>>) -> (cycles: Vec<Vec<usize>>)
    requires
        well_formed(graph_of(successors)),
        left.len() == successors.len(),
    ensures
        is_cycle_report(graph_of(successors), seqs_of(&cycles)),
        forall|i: int| 0 <= i < cycles.len() ==> within(#[trigger] cycles[i]@, left@),
        (exists|c: Seq<usize>| is_cycle(graph_of(successors), c) && within(c, left@)) ==> cycles.len()
            > 0,
        seqs_of(&cycles) == cut_walk_reports(graph_of(successors), left@),
{
    let n = successors.len();
    let ghost g = graph_of(successors);
    let ghost initial = left@;
    let ghost mut rounds: nat = count_true(initial) + edge_count(g, n as int) + 1;
    let mut left = left;
    let mut cut = no_cuts(successors);
    let mut cycles: Vec<Vec<usize>> = Vec::new();
    let mut start = first_marked(&left);
    proof {
        assert(seqs_of(&cycles) =~= Seq::<Seq<usize>>::empty());
        lemma_marks_total_bound(g, flags_of(&cut), n as int);
    }
    while start.is_some()
        invariant
            n == successors.len(),
            g == graph_of(successors),
            well_formed(g),
            left.len() == n,
            initial.len() == n,
            cut.len() == n,
            forall|u: int| 0 <= u < n ==> #[trigger] cut[u].len() == successors[u].len(),
            forall|i: int| 0 <= i < n && left[i] ==> initial[i],
            match start {
                Some(i) => i < n && left[i as int],
                None => forall|i: int| 0 <= i < n ==> !left[i],
            },
            is_cycle_report(g, seqs_of(&cycles)),
            forall|i: int| 0 <= i < cycles.len() ==> within(#[trigger] cycles[i]@, initial),
            cycles.len() == 0 ==> marks_total(flags_of(&cut), n as int) == 0,
            cycles.len() == 0 ==> forall|c: Seq<usize>|
                is_cycle(g, c) && within(c, initial) ==> #[trigger] within(c, left@),
            start == first_left(left@, 0),
            rings_spec(g, left@, flags_of(&cut), seqs_of(&cycles), rounds) == cut_walk_reports(g, initial),
            rounds >= count_true(left@) + (edge_count(g, n as int) - marks_total(flags_of(&cut), n as int)) + 1,
            marks_total(flags_of(&cut), n as int) <= edge_count(g, n as int),
        decreases count_true(left@) + (edge_count(g, n as int) - marks_total(
            flags_of(&cut),
            n as int,
        )),
    {
        let first = start.unwrap();
        let ghost left_before = left@;
        let ghost flags_before = flags_of(&cut);
        proof {
            assert forall|u: int| 0 <= u < n implies #[trigger] flags_before[u].len() == g[u].len() by {
                assert(cut[u].len() == successors[u].len());
            }
            lemma_marks_total_bound(g, flags_before, n as int);
        }
        let ghost cycles_before = seqs_of(&cycles);
        let empty: Vec<usize> = Vec::new();
        proof {
            assert(empty@ =~= Seq::<usize>::empty());
            assert(rounds > 0);
        }
        let (path, end) = walk(successors, &left, &cut, empty, first);
        let last = path[path.len() - 1];
        proof {
            assert(is_path(g, path@));
            assert(path@[path.len() - 1] == path@.last());
        }
        match end {
            WalkEnd::Closed(at) => {
                let current = path[at];
                let cycle = tail_from(&path, at);
                let ghost k0 = choose|k: int|
                    0 <= k < successors[last as int].len() && successors[last as int][k] == current
                        && !cut[last as int][k];
                let row = cut_pair(&cut[last], &successors[last], current);
                proof {
                    assert(flags_before[last as int] == cut[last as int]@);
                    assert(g[last as int] == successors[last as int]@);
                    assert(row@ =~= Seq::new(
                        flags_before[last as int].len(),
                        |k: int| flags_before[last as int][k] || g[last as int][k] == current,
                    ));
                    lemma_count_true_grow(cut[last as int]@, row@, k0);
                    lemma_marks_total_update(flags_before, last as int, row@, n as int);
                }
                cut.set(last, row);
                proof {
                    assert(flags_of(&cut) =~= flags_before.update(last as int, row@));
                    assert(flags_of(&cut) =~~= cut_step(g, flags_before, last, current));
                    assert forall|u: int| 0 <= u < n implies #[trigger] flags_of(&cut)[u].len() == g[u].len() by {
                        assert(cut[u].len() == successors[u].len());
                    }
                    lemma_marks_total_bound(g, flags_of(&cut), n as int);
                    assert(g[last as int][k0] == current);
                    lemma_closed_cycle(g, path@, at as int, left@, initial);
                }
                let named = named_before(&cycles, &cycle);
                proof {
                    assert(names_members(cycles_before, cycle@) == named) by {
                        if named {
                            let i = choose|i: int| 0 <= i < cycles.len() && #[trigger] cycles[i]@.to_set() == cycle@.to_set();
                            assert(cycles_before[i] == cycles[i]@);
                        }
                        if names_members(cycles_before, cycle@) {
                            let i = choose|i: int| 0 <= i < cycles_before.len() && #[trigger] cycles_before[i].to_set() == cycle@.to_set();
                            assert(cycles_before[i] == cycles[i]@);
                        }
                    }
                }
                if !named {
                    let ghost before = seqs_of(&cycles);
                    cycles.push(cycle);
                    proof {
                        assert(seqs_of(&cycles) =~= before.push(cycle@));
                    }
                }
            },
            WalkEnd::Stuck => {
                proof {
                    lemma_count_true_unmark(left@, last as int);
                    if cycles.len() == 0 {
                        lemma_marks_total_zero(flags_before, n as int);
                        assert(count_true(flags_before[last as int]) == 0);
                        lemma_count_true_zero(flags_before[last as int]);
                        lemma_stuck_leaves_cycles(g, initial, left@, cut[last as int]@, last);
                    }
                }
                left.set(last, false);
            },
        }
        proof {
            assert(rings_spec(g, left@, flags_of(&cut), seqs_of(&cycles), (rounds - 1) as nat) == cut_walk_reports(g, initial));
            rounds = (rounds - 1) as nat;
        }
        start = first_marked(&left);
    }
    proof {
        if exists|c: Seq<usize>| is_cycle(g, c) && within(c, initial) {
            let c = choose|c: Seq<usize>| is_cycle(g, c) && within(c, initial);
            if cycles.len() == 0 {
                assert(within(c, left@));
                assert(left@[c[0] as int]);
            }
        }
    }
    cycles
}

/// The part of a path from a position its last step points back at is a cycle.
proof fn lemma_closed_cycle(g: Seq<Seq<usize>>, path: Seq<usize>, at: int, left: Seq<bool>, initial: Seq<bool>)
    requires
        is_path(g, path),
        path.no_duplicates(),
        0 <= at < path.len(),
        edge(g, path.last(), path[at]),
        within(path, left),
        left.len() == initial.len(),
        forall|i: int| 0 <= i < left.len() && left[i] ==> initial[i],
        forall|k: int| 0 <= k < path.len() ==> #[trigger] path[k] < left.len(),
    ensures
        is_cycle(g, path.subrange(at, path.len() as int)),
        path.subrange(at, path.len() as int).no_duplicates(),
        within(path.subrange(at, path.len() as int), initial),
{
    let cycle = path.subrange(at, path.len() as int);
    assert(cycle.last() == path.last());
    assert forall|i: int| 0 <= i < cycle.len() - 1 implies edge(g, #[trigger] cycle[i], cycle[i + 1]) by {
        assert(edge(g, path[at + i], path[at + i + 1]));
    }
    assert forall|k: int| 0 <= k < cycle.len() implies #[trigger] initial[cycle[k] as int] by {
        assert(left[path[at + k] as int]);
    }
}

/// Dropping a position with no step into the marked set keeps every cycle of that set whole,
/// while no step is cut.
proof fn lemma_stuck_leaves_cycles(g: Seq<Seq<usize>>, initial: Seq<bool>, left: Seq<bool>, flags: Seq<bool>, last: usize)
    requires
        last < g.len(),
        left.len() == g.len(),
        flags.len() == g[last as int].len(),
        forall|k: int| 0 <= k < flags.len() ==> !flags[k],
        forall|k: int|
            0 <= k < g[last as int].len() ==> !left[g[last as int][k] as int] || flags[k],
        forall|c: Seq<usize>| is_cycle(g, c) && within(c, initial) ==> #[trigger] within(c, left),
    ensures
        forall|c: Seq<usize>|
            is_cycle(g, c) && within(c, initial) ==> #[trigger] within(c, left.update(last as int, false)),
{
    assert forall|c: Seq<usize>| is_cycle(g, c) && within(c, initial) implies #[trigger] within(
        c,
        left.update(last as int, false),
    ) by {
        assert(within(c, left));
        if exists|k: int| 0 <= k < c.len() && c[k] == last {
            let k = choose|k: int| 0 <= k < c.len() && c[k] == last;
            let after = if k == c.len() - 1 {
                0
            } else {
                k + 1
            };
            assert(edge(g, c[k], c[after]));
            let j = choose|j: int| 0 <= j < g[last as int].len() && #[trigger] g[last as int][j] == c[after];
            assert(!left[g[last as int][j] as int] || flags[j]);
            assert(left[c[after] as int]);
        }
    }
}

/// Along a path that ends on a done position, every position is done, when each done position
/// has all that point at it done.
proof fn lemma_done_along(g: Seq<Seq<usize>>, done: Seq<bool>, p: Seq<usize>, i: int)
    requires
        is_path(g, p),
        0 <= i < p.len(),
        done[p.last() as int],
        forall|u: usize, x: usize| done[u as int] && #[trigger] edge(g, x, u) ==> done[x as int],
    ensures
        done[p[i] as int],
    decreases p.len() - i,
{
    if i < p.len() - 1 {
        lemma_done_along(g, done, p, i + 1);
        assert(edge(g, p[i], p[i + 1]));
    }
}

/// Along a path of done positions whose edges climb, the waves climb by one a step at least.
proof fn lemma_climb_done(g: Seq<Seq<usize>>, done: Seq<bool>, w: Seq<usize>, c: Seq<usize>, i: int)
    requires
        is_path(g, c),
        0 <= i < c.len(),
        forall|k: int| 0 <= k < c.len() ==> done[#[trigger] c[k] as int],
        forall|u: usize, v: usize| done[u as int] && #[trigger] edge(g, u, v) ==> w[u as int] < w[v as int],
    ensures
        w[c[i] as int] >= w[c[0] as int] + i,
    decreases i,
{
    if i > 0 {
        lemma_climb_done(g, done, w, c, i - 1);
        assert(edge(g, c[i - 1], c[i]));
        assert(done[c[i - 1] as int]);
    }
}

/// The positions layering leaves are exactly those some cycle leads to: a done position has all
/// that point at it done and climbs above them, so no cycle leads to it; one not done is pointed
/// at by another not done, and walking back among those meets a cycle.
proof fn lemma_left_behind_cycles(g: Seq<Seq<usize>>, done: Seq<bool>, w: Seq<usize>, left: Seq<bool>)
    requires
        well_formed(g),
        g.len() <= usize::MAX,
        done.len() == g.len(),
        w.len() == g.len(),
        left.len() == g.len(),
        forall|i: int| 0 <= i < g.len() ==> left[i] == !done[i],
        forall|i: int| 0 <= i < g.len() ==> done[i] || pending_in(g, done, i as usize, g.len() as int) > 0,
        forall|u: usize, x: usize| done[u as int] && #[trigger] edge(g, x, u) ==> done[x as int],
        forall|u: usize, v: usize| done[u as int] && #[trigger] edge(g, u, v) ==> w[u as int] < w[v as int],
    ensures
        left == behind_cycles(g),
{
    let n = g.len();
    let members = |v: usize| v < n && !done[v as int];
    assert forall|v: usize| v < g.len() && #[trigger] members(v) implies exists|u: usize|
        u < g.len() && members(u) && #[trigger] edge(g, u, v) by {
        let u = lemma_pending_positive(g, done, v, n as int);
        assert(members(u));
    }
    assert forall|i: int| 0 <= i < n implies left[i] == behind_cycles(g)[i] by {
        let v = i as usize;
        if done[i] {
            if behind_cycle(g, v) {
                let (c, p): (Seq<usize>, Seq<usize>) = choose|c: Seq<usize>, p: Seq<usize>|
                    #![trigger is_cycle(g, c), is_path(g, p)]
                    is_cycle(g, c) && is_path(g, p) && p[0] == c[0] && p.last() == v;
                lemma_done_along(g, done, p, 0);
                assert(edge(g, c.last(), c[0]));
                assert(done[c.last() as int]);
                assert forall|k: int| 0 <= k < c.len() implies done[#[trigger] c[k] as int] by {
                    lemma_done_along(g, done, c, k);
                }
                lemma_climb_done(g, done, w, c, c.len() - 1);
                assert(w[c.last() as int] < w[c[0] as int]);
            }
        } else {
            assert(members(v));
            lemma_pointed_member_behind_cycle(g, members, v);
        }
    }
    assert(left =~= behind_cycles(g));
}

/// When fewer than all positions are done and every one not done still has a pending edge into
/// it, the positions not done hold a cycle.
proof fn lemma_unlayered_cycle(g: Seq<Seq<usize>>, done: Seq<bool>, left: Seq<bool>, layered: nat)
    requires
        well_formed(g),
        g.len() <= usize::MAX,
        done.len() == g.len(),
        left.len() == g.len(),
        layered == count_true(done),
        layered != g.len(),
        forall|i: int| 0 <= i < g.len() ==> left[i] == !done[i],
        forall|i: int| 0 <= i < g.len() ==> done[i] || pending_in(g, done, i as usize, g.len() as int) > 0,
    ensures
        exists|c: Seq<usize>| is_cycle(g, c) && within(c, left),
{
    let n = g.len();
    let members = |v: usize| v < n && !done[v as int];
    if forall|i: int| 0 <= i < n ==> done[i] {
        lemma_count_true_all(done);
    }
    let i = choose|i: int| 0 <= i < n && !done[i];
    assert(members(i as usize));
    assert forall|v: usize| v < g.len() && #[trigger] members(v) implies exists|u: usize|
        u < g.len() && members(u) && #[trigger] edge(g, u, v) by {
        let u = lemma_pending_positive(g, done, v, n as int);
        assert(members(u));
    }
    let c = lemma_pointed_set_has_cycle(g, members);
    assert forall|k: int| 0 <= k < c.len() implies #[trigger] left[c[k] as int] by {
        assert(members(c[k]));
    }
    assert(within(c, left));
}

/// How many flags are set.
fn count_marked(flags: &Vec<bool>) -> (count: usize)
    ensures
        count == count_true(flags@),
{
    let mut count: usize = 0;
    let mut i: usize = 0;
    while i < flags.len()
        invariant
            i <= flags.len(),
            count == count_true(flags@.take(i as int)),
            count <= i,
        decreases flags.len() - i,
    {
        proof {
            lemma_count_true_take(flags@, i as int);
        }
        if flags[i] {
            count = count + 1;
        }
        i = i + 1;
    }
    proof {
        assert(flags@.take(i as int) =~= flags@);
    }
    count
}

/// The first position not yet counted that stands in the highest wave of those left.
fn deepest_left(counted: &Vec<bool>, wave_of: &Vec<usize>) -> (node: usize)
    requires
        counted.len() == wave_of.len(),
        exists|i: int| 0 <= i < counted.len() && !counted[i],
    ensures
        node < counted.len(),
        !counted[node as int],
        forall|v: int| 0 <= v < counted.len() && !counted[v] ==> wave_of[v] <= wave_of[node as int],
{
    let mut best: Option<usize> = None;
    let mut i: usize = 0;
    while i < counted.len()
        invariant
            counted.len() == wave_of.len(),
            i <= counted.len(),
            match best {
                Some(b) => b < i && !counted[b as int] && forall|v: int|
                    0 <= v < i && !counted[v] ==> wave_of[v] <= wave_of[b as int],
                None => forall|v: int| 0 <= v < i ==> counted[v],
            },
        decreases counted.len() - i,
    {
        if !counted[i] {
            match best {
                Some(b) => {
                    if wave_of[i] > wave_of[b] {
                        best = Some(i);
                    }
                },
                None => {
                    best = Some(i);
                },
            }
        }
        i = i + 1;
    }
    match best {
        Some(b) => b,
        None => {
            proof {
                let i = choose|i: int| 0 <= i < counted.len() && !counted[i];
                assert(counted[i]);
            }
            0
        },
    }
}

/// The positions `node` reaches, from what its successors reach.
fn reach_of(successors: &Vec<Vec<usize>>, rows: &Vec<Vec<bool>>, node: usize) -> (row: Vec<bool>)
    requires
        well_formed(graph_of(successors)),
        node < successors.len(),
        rows.len() == successors.len(),
        forall|k: int| 0 <= k < successors[node as int].len() ==> #[trigger] rows[successors[node as int][k] as int]@
            == reach_row(graph_of(successors), successors[node as int][k]),
    ensures
        row@ == reach_row(graph_of(successors), node),
{
    let n = successors.len();
    let ghost g = graph_of(successors);
    let targets = &successors[node];
    let mut row = falses(n);
    let mut k: usize = 0;
    while k < targets.len()
        invariant
            n == successors.len(),
            g == graph_of(successors),
            well_formed(g),
            node < n,
            rows.len() == n,
            targets@ == g[node as int],
            forall|j: int| 0 <= j < targets.len() ==> #[trigger] rows[targets[j] as int]@ == reach_row(g, targets[j]),
            k <= targets.len(),
            row.len() == n,
            forall|v: int| 0 <= v < n ==> row[v] == exists|j: int|
                0 <= j < k && (#[trigger] targets[j] == v || reaches(g, targets[j], v as usize)),
        decreases targets.len() - k,
    {
        let t = targets[k];
        proof {
            assert(g[node as int][k as int] == t);
            assert(t < n);
        }
        let ghost before = row@;
        row.set(t, true);
        let reach = &rows[t];
        let mut v: usize = 0;
        while v < n
            invariant
                n == successors.len(),
                g == graph_of(successors),
                t < n,
                reach@ == reach_row(g, t),
                row.len() == n,
                before.len() == n,
                v <= n,
                forall|x: int| 0 <= x < n ==> #[trigger] row[x] == (before[x] || x == t || (x < v && reaches(g, t, x as usize))),
            decreases n - v,
        {
            if reach[v] {
                row.set(v, true);
            }
            v = v + 1;
        }
        proof {
            assert forall|x: int| 0 <= x < n implies row[x] == exists|j: int|
                0 <= j < k + 1 && (#[trigger] targets[j] == x || reaches(g, targets[j], x as usize)) by {
                let here = targets[k as int] == x || reaches(g, targets[k as int], x as usize);
                assert(v == n);
                assert(t == targets[k as int]);
                assert(row[x] == (before[x] || x == t || (x < v && reaches(g, t, x as usize))));
                assert(row[x] == (before[x] || here));
                if here {
                    assert(0 <= k < k + 1 && (targets[k as int] == x || reaches(g, targets[k as int], x as usize)));
                }
                if exists|j: int| 0 <= j < k + 1 && (#[trigger] targets[j] == x || reaches(g, targets[j], x as usize)) {
                    let j = choose|j: int| 0 <= j < k + 1 && (#[trigger] targets[j] == x || reaches(g, targets[j], x as usize));
                    if j < k {
                        assert(before[x]);
                    } else {
                        assert(here);
                    }
                }
            }
        }
        k = k + 1;
    }
    proof {
        assert forall|v: int| 0 <= v < n implies row[v] == reach_row(g, node)[v] by {
            lemma_reaches_step(g, node, v as usize);
            if row[v] {
                let j = choose|j: int| 0 <= j < k && (#[trigger] targets[j] == v || reaches(g, targets[j], v as usize));
                assert(edge(g, node, targets[j]));
            }
            if reaches(g, node, v as usize) {
                let t = choose|t: usize| #[trigger] edge(g, node, t) && (t == v || reaches(g, t, v as usize));
                let j = choose|j: int| 0 <= j < g[node as int].len() && #[trigger] g[node as int][j] == t;
                assert(targets[j] == t);
            }
        }
        assert(row@ =~= reach_row(g, node));
    }
    row
}

/// How much work waits for each leaf, directly or through another leaf. A leaf waits only behind
/// lower waves, so counting from the highest wave down gives each leaf its followers counted
/// already.
pub fn blocks_counts(successors: &Vec<Vec<usize>>, wave_of: &Vec<usize>) -> (blocks: Vec<usize>)
    requires
        well_formed(graph_of(successors)),
        wave_of.len() == successors.len(),
        forall|u: usize, v: usize| #[trigger] edge(graph_of(successors), u, v) ==> wave_of[u as int] < wave_of[v as int],
    ensures
        blocks.len() == successors.len(),
        forall|u: int| 0 <= u < successors.len() ==> blocks[u] == reach_count(graph_of(successors), u as usize),
{
    let n = successors.len();
    let ghost g = graph_of(successors);
    let mut rows: Vec<Vec<bool>> = Vec::new();
    while rows.len() < n
        invariant
            rows.len() <= n,
        decreases n - rows.len(),
    {
        rows.push(Vec::new());
    }
    let mut blocks = zeros(n);
    let mut counted = falses(n);
    let mut count: usize = 0;
    proof {
        lemma_count_none_true(n as nat);
    }
    while count < n
        invariant
            n == successors.len(),
            g == graph_of(successors),
            well_formed(g),
            wave_of.len() == n,
            forall|u: usize, v: usize| #[trigger] edge(g, u, v) ==> wave_of[u as int] < wave_of[v as int],
            rows.len() == n,
            blocks.len() == n,
            counted.len() == n,
            count == count_true(counted@),
            forall|u: int| 0 <= u < n && counted[u] ==> #[trigger] rows[u]@ == reach_row(g, u as usize),
            forall|u: int| 0 <= u < n && counted[u] ==> #[trigger] blocks[u] == reach_count(g, u as usize),
            forall|u: int, v: int| 0 <= u < n && 0 <= v < n && counted[u] && !counted[v] ==> wave_of[v] <= wave_of[u],
        decreases n - count,
    {
        proof {
            if forall|i: int| 0 <= i < n ==> counted[i] {
                lemma_count_true_all(counted@);
            }
        }
        let node = deepest_left(&counted, wave_of);
        proof {
            assert forall|k: int| 0 <= k < successors[node as int].len() implies #[trigger] rows[successors[node as int][k] as int]@
                == reach_row(g, successors[node as int][k]) by {
                let t = successors[node as int][k];
                assert(g[node as int][k] == t);
                assert(edge(g, node, t));
                assert(t < n);
                assert(counted[t as int]);
            }
            lemma_count_true_mark(counted@, node as int);
            lemma_count_true_bound(counted@.update(node as int, true));
        }
        let row = reach_of(successors, &rows, node);
        let reached = count_marked(&row);
        blocks.set(node, reached);
        rows.set(node, row);
        counted.set(node, true);
        count = count + 1;
    }
    proof {
        lemma_count_true_bound(counted@);
    }
    blocks
}

/// The positions not done.
fn undone(done: &Vec<bool>) -> (left: Vec<bool>)
    ensures
        left.len() == done.len(),
        forall|i: int| 0 <= i < done.len() ==> left[i] == !done[i],
{
    let mut left: Vec<bool> = Vec::new();
    let mut i: usize = 0;
    while i < done.len()
        invariant
            i <= done.len(),
            left.len() == i,
            forall|j: int| 0 <= j < i ==> left[j] == !done[j],
        decreases done.len() - i,
    {
        left.push(!done[i]);
        i = i + 1;
    }
    left
}

} // verus!
