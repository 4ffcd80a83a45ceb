//! Directed graphs over positions `0..n`, given as the list of successors of each position: the
//! edges, paths, cycles, and reachability the flow is stated in.
use vstd::prelude::*;
use vstd::set_lib::*;

verus! {

/// The lists a list of lists holds, as sequences.
pub open spec fn seqs_of(lists: &Vec<Vec<usize>>) -> Seq<Seq<usize>> {
    Seq::new(lists@.len(), |u: int| lists@[u]@)
}

/// The graph a list of successor lists spells.
pub open spec fn graph_of(successors: &Vec<Vec<usize>>) -> Seq<Seq<usize>> {
    seqs_of(successors)
}

/// Every member of `c` is marked in `marks`.
pub open spec fn within(c: Seq<usize>, marks: Seq<bool>) -> bool {
    forall|k: int| 0 <= k < c.len() ==> #[trigger] marks[c[k] as int]
}

/// A report of cycles: each one a cycle that visits no position twice, and no two over the same
/// positions.
pub open spec fn is_cycle_report(g: Seq<Seq<usize>>, r: Seq<Seq<usize>>) -> bool {
    &&& forall|i: int| 0 <= i < r.len() ==> is_cycle(g, #[trigger] r[i]) && r[i].no_duplicates()
    &&& forall|i: int, j: int|
        0 <= i < j < r.len() ==> (#[trigger] r[i]).to_set() != (#[trigger] r[j]).to_set()
}

/// Each edge climbs at least one wave, and a position above wave zero sits exactly one wave
/// behind something that points at it: every position lands one wave behind the last thing it
/// waits for.
pub open spec fn is_layering(g: Seq<Seq<usize>>, w: Seq<usize>) -> bool {
    &&& w.len() == g.len()
    &&& forall|u: usize, v: usize| #[trigger] edge(g, u, v) ==> w[u as int] < w[v as int]
    &&& forall|v: usize|
        v < w.len() && #[trigger] w[v as int] > 0 ==> exists|u: usize|
            #[trigger] edge(g, u, v) && w[u as int] + 1 == w[v as int]
}

/// Some walk of at least one edge leads from `u` to `v`.
pub open spec fn reaches(g: Seq<Seq<usize>>, u: usize, v: usize) -> bool {
    exists|p: Seq<usize>| #[trigger] is_path(g, p) && p.len() >= 2 && p[0] == u && p.last() == v
}

/// Which positions `u` reaches, position by position.
pub open spec fn reach_row(g: Seq<Seq<usize>>, u: usize) -> Seq<bool> {
    Seq::new(g.len(), |v: int| reaches(g, u, v as usize))
}

/// How many positions `u` reaches.
pub open spec fn reach_count(g: Seq<Seq<usize>>, u: usize) -> nat {
    count_true(reach_row(g, u))
}

/// How many positions below `m` carry a mark, row by row.
pub open spec fn marks_total(rows: Seq<Seq<bool>>, m: int) -> nat
    decreases m,
{
    if m <= 0 {
        0
    } else {
        marks_total(rows, m - 1) + count_true(rows[m - 1])
    }
}

/// Every successor names a position of the graph.
pub open spec fn well_formed(g: Seq<Seq<usize>>) -> bool {
    forall|u: int, k: int| 0 <= u < g.len() && 0 <= k < g[u].len() ==> #[trigger] g[u][k] < g.len()
}

/// `u` lists `v` among its successors.
pub open spec fn edge(g: Seq<Seq<usize>>, u: usize, v: usize) -> bool {
    u < g.len() && exists|k: int| 0 <= k < g[u as int].len() && #[trigger] g[u as int][k] == v
}

/// A walk along edges.
pub open spec fn is_path(g: Seq<Seq<usize>>, p: Seq<usize>) -> bool {
    &&& p.len() >= 1
    &&& forall|i: int| 0 <= i < p.len() ==> #[trigger] p[i] < g.len()
    &&& forall|i: int| 0 <= i < p.len() - 1 ==> edge(g, #[trigger] p[i], p[i + 1])
}

/// A walk that returns to where it started: its members in order, the edge from the last back
/// to the first included.
pub open spec fn is_cycle(g: Seq<Seq<usize>>, c: Seq<usize>) -> bool {
    &&& is_path(g, c)
    &&& edge(g, c.last(), c[0])
}

/// Some cycle leads to `v`: a walk that starts on a cycle ends there, or `v` lies on one.
pub open spec fn behind_cycle(g: Seq<Seq<usize>>, v: usize) -> bool {
    exists|c: Seq<usize>, p: Seq<usize>|
        #![trigger is_cycle(g, c), is_path(g, p)]
        is_cycle(g, c) && is_path(g, p) && p[0] == c[0] && p.last() == v
}

/// Which positions some cycle leads to, position by position.
pub open spec fn behind_cycles(g: Seq<Seq<usize>>) -> Seq<bool> {
    Seq::new(g.len(), |v: int| behind_cycle(g, v as usize))
}

/// Some walk returns to where it started.
pub open spec fn has_cycle(g: Seq<Seq<usize>>) -> bool {
    exists|c: Seq<usize>| is_cycle(g, c)
}

/// How often `t` occurs in `s`.
pub open spec fn occurrences(s: Seq<usize>, t: usize) -> nat
    decreases s.len(),
{
    if s.len() == 0 {
        0
    } else {
        occurrences(s.drop_last(), t) + if s.last() == t {
            1nat
        } else {
            0nat
        }
    }
}

/// How many edges into `t` leave a position below `m` that is not `done`.
pub open spec fn pending_in(g: Seq<Seq<usize>>, done: Seq<bool>, t: usize, m: int) -> nat
    decreases m,
{
    if m <= 0 {
        0
    } else {
        pending_in(g, done, t, m - 1) + if !done[m - 1] {
            occurrences(g[m - 1], t)
        } else {
            0nat
        }
    }
}

/// How many positions are `done`.
pub open spec fn count_true(done: Seq<bool>) -> nat
    decreases done.len(),
{
    if done.len() == 0 {
        0
    } else {
        count_true(done.drop_last()) + if done.last() {
            1nat
        } else {
            0nat
        }
    }
}

/// The number of edges.
pub open spec fn edge_count(g: Seq<Seq<usize>>, m: int) -> nat
    decreases m,
{
    if m <= 0 {
        0
    } else {
        edge_count(g, m - 1) + g[m - 1].len()
    }
}

pub proof fn lemma_occurrences_take(s: Seq<usize>, k: int, t: usize)
    requires
        0 <= k < s.len(),
    ensures
        occurrences(s.take(k + 1), t) == occurrences(s.take(k), t) + if s[k] == t {
            1nat
        } else {
            0nat
        },
{
    assert(s.take(k + 1).drop_last() =~= s.take(k));
}

pub proof fn lemma_occurrences_zero(s: Seq<usize>, t: usize)
    ensures
        occurrences(s, t) == 0 <==> forall|k: int| 0 <= k < s.len() ==> s[k] != t,
    decreases s.len(),
{
    if s.len() > 0 {
        lemma_occurrences_zero(s.drop_last(), t);
        assert(forall|k: int| 0 <= k < s.len() - 1 ==> s.drop_last()[k] == s[k]);
    }
}

pub proof fn lemma_occurrences_bound(s: Seq<usize>, t: usize)
    ensures
        occurrences(s, t) <= s.len(),
    decreases s.len(),
{
    if s.len() > 0 {
        lemma_occurrences_bound(s.drop_last(), t);
    }
}

/// Marking one more position done removes exactly its edges from the count.
pub proof fn lemma_pending_mark(g: Seq<Seq<usize>>, done: Seq<bool>, x: int, t: usize, m: int)
    requires
        0 <= x < done.len(),
        m <= done.len(),
        m <= g.len(),
        !done[x],
    ensures
        pending_in(g, done.update(x, true), t, m) + if x < m {
            occurrences(g[x], t)
        } else {
            0nat
        } == pending_in(g, done, t, m),
    decreases m,
{
    if m > 0 {
        lemma_pending_mark(g, done, x, t, m - 1);
    }
}

/// A position that is not done contributes all its edges to the count.
pub proof fn lemma_pending_covers(g: Seq<Seq<usize>>, done: Seq<bool>, x: int, t: usize, m: int)
    requires
        0 <= x < m,
        m <= done.len(),
        m <= g.len(),
        !done[x],
    ensures
        pending_in(g, done, t, m) >= occurrences(g[x], t),
    decreases m,
{
    if x < m - 1 {
        lemma_pending_covers(g, done, x, t, m - 1);
    }
}

/// No pending edge into `t` means no position still to do has an edge into it.
pub proof fn lemma_pending_zero(g: Seq<Seq<usize>>, done: Seq<bool>, t: usize, m: int)
    requires
        m <= done.len(),
        m <= g.len(),
        pending_in(g, done, t, m) == 0,
    ensures
        forall|u: usize| u < m && !done[u as int] ==> !edge(g, u, t),
    decreases m,
{
    if m > 0 {
        lemma_pending_zero(g, done, t, m - 1);
        if !done[m - 1] {
            lemma_occurrences_zero(g[m - 1], t);
        }
    }
}

/// A pending edge into `t` leaves some position still to do.
pub proof fn lemma_pending_positive(g: Seq<Seq<usize>>, done: Seq<bool>, t: usize, m: int) -> (u:
    usize)
    requires
        0 <= m <= done.len(),
        m <= g.len(),
        g.len() <= usize::MAX,
        pending_in(g, done, t, m) > 0,
    ensures
        u < m,
        !done[u as int],
        edge(g, u, t),
    decreases m,
{
    if pending_in(g, done, t, m - 1) > 0 {
        lemma_pending_positive(g, done, t, m - 1)
    } else {
        lemma_occurrences_zero(g[m - 1], t);
        let k = choose|k: int| 0 <= k < g[m - 1].len() && #[trigger] g[m - 1][k] == t;
        let u = (m - 1) as usize;
        assert(g[u as int][k] == t);
        u
    }
}

pub proof fn lemma_count_true_mark(done: Seq<bool>, x: int)
    requires
        0 <= x < done.len(),
        !done[x],
    ensures
        count_true(done.update(x, true)) == count_true(done) + 1,
    decreases done.len(),
{
    if x < done.len() - 1 {
        assert(done.update(x, true).drop_last() =~= done.drop_last().update(x, true));
        lemma_count_true_mark(done.drop_last(), x);
    } else {
        assert(done.update(x, true).drop_last() =~= done.drop_last());
    }
}

pub proof fn lemma_count_true_bound(done: Seq<bool>)
    ensures
        count_true(done) <= done.len(),
        count_true(done) == done.len() ==> forall|i: int| 0 <= i < done.len() ==> done[i],
    decreases done.len(),
{
    if done.len() > 0 {
        lemma_count_true_bound(done.drop_last());
        if count_true(done) == done.len() {
            assert forall|i: int| 0 <= i < done.len() implies done[i] by {
                if i < done.len() - 1 {
                    assert(done[i] == done.drop_last()[i]);
                }
            }
        }
    }
}

pub proof fn lemma_count_none_true(n: nat)
    ensures
        count_true(Seq::new(n, |i: int| false)) == 0,
    decreases n,
{
    if n > 0 {
        assert(Seq::new(n, |i: int| false).drop_last() =~= Seq::new((n - 1) as nat, |i: int| false));
        lemma_count_none_true((n - 1) as nat);
    }
}

/// A path that holds some position twice contains a cycle.
pub proof fn lemma_repeat_is_cycle(g: Seq<Seq<usize>>, p: Seq<usize>, i: int, j: int) -> (c: Seq<
    usize,
>)
    requires
        is_path(g, p),
        0 <= i < j < p.len(),
        p[i] == p[j],
    ensures
        is_cycle(g, c),
        c == p.subrange(i, j),
{
    let c = p.subrange(i, j);
    assert(c.last() == p[j - 1]);
    assert(edge(g, p[j - 1], p[j]));
    c
}

/// A finite set of positions each of which some member of the set points at holds a cycle.
pub proof fn lemma_pointed_set_has_cycle(g: Seq<Seq<usize>>, members: spec_fn(usize) -> bool) -> (c:
    Seq<usize>)
    requires
        g.len() <= usize::MAX,
        exists|v: usize| v < g.len() && #[trigger] members(v),
        forall|v: usize|
            v < g.len() && #[trigger] members(v) ==> exists|u: usize|
                u < g.len() && members(u) && #[trigger] edge(g, u, v),
    ensures
        is_cycle(g, c),
        forall|k: int| 0 <= k < c.len() ==> members(#[trigger] c[k]),
{
    let start = choose|v: usize| v < g.len() && #[trigger] members(v);
    let n = g.len();
    let walk = backward_walk(g, members, start, n + 1);
    lemma_backward_walk(g, members, start, n + 1);
    // The walk visits n + 1 positions below n, so one repeats.
    let (i, j) = lemma_pigeonhole(walk, n);
    // Read backwards, the walk runs along the edges.
    let forward = walk.reverse();
    assert forall|k: int| 0 <= k < forward.len() implies members(#[trigger] forward[k]) by {
        assert(forward[k] == walk[walk.len() - 1 - k]);
    }
    assert forall|k: int| 0 <= k < forward.len() - 1 implies edge(
        g,
        #[trigger] forward[k],
        forward[k + 1],
    ) by {
        let a = walk.len() - 1 - k;
        assert(forward[k] == walk[a]);
        assert(forward[k + 1] == walk[a - 1]);
        assert(edge(g, walk[(a - 1) + 1], walk[a - 1]));
    }
    assert forall|k: int| 0 <= k < forward.len() implies #[trigger] forward[k] < g.len() by {
        assert(forward[k] == walk[walk.len() - 1 - k]);
    }
    let ri = walk.len() - 1 - j;
    let rj = walk.len() - 1 - i;
    assert(forward[ri] == walk[j]);
    assert(forward[rj] == walk[i]);
    let c = lemma_repeat_is_cycle(g, forward, ri, rj);
    assert forall|k: int| 0 <= k < c.len() implies members(#[trigger] c[k]) by {
        assert(c[k] == forward[ri + k]);
    }
    c
}

/// In a finite set of positions each of which some member of the set points at, a cycle leads to
/// every member.
pub proof fn lemma_pointed_member_behind_cycle(g: Seq<Seq<usize>>, members: spec_fn(usize) -> bool, v: usize)
    requires
        g.len() <= usize::MAX,
        v < g.len(),
        members(v),
        forall|x: usize|
            x < g.len() && #[trigger] members(x) ==> exists|u: usize|
                u < g.len() && members(u) && #[trigger] edge(g, u, x),
    ensures
        behind_cycle(g, v),
{
    let n = g.len();
    let walk = backward_walk(g, members, v, n + 1);
    lemma_backward_walk(g, members, v, n + 1);
    let (i, j) = lemma_pigeonhole(walk, n);
    let forward = walk.reverse();
    assert forall|k: int| 0 <= k < forward.len() - 1 implies edge(
        g,
        #[trigger] forward[k],
        forward[k + 1],
    ) by {
        let a = walk.len() - 1 - k;
        assert(forward[k] == walk[a]);
        assert(forward[k + 1] == walk[a - 1]);
        assert(edge(g, walk[(a - 1) + 1], walk[a - 1]));
    }
    assert forall|k: int| 0 <= k < forward.len() implies #[trigger] forward[k] < g.len() by {
        assert(forward[k] == walk[walk.len() - 1 - k]);
    }
    let ri = walk.len() - 1 - j;
    let rj = walk.len() - 1 - i;
    assert(forward[ri] == walk[j]);
    assert(forward[rj] == walk[i]);
    let c = lemma_repeat_is_cycle(g, forward, ri, rj);
    let p = forward.subrange(ri, forward.len() as int);
    assert forall|k: int| 0 <= k < p.len() - 1 implies edge(g, #[trigger] p[k], p[k + 1]) by {
        assert(edge(g, forward[ri + k], forward[ri + k + 1]));
    }
    assert(forward.last() == walk[0]);
    assert(is_path(g, p) && p[0] == c[0] && p.last() == v);
}

/// A walk against the edges: each position is pointed at by the next, all inside `members`.
pub open spec fn backward_walk(
    g: Seq<Seq<usize>>,
    members: spec_fn(usize) -> bool,
    start: usize,
    len: nat,
) -> Seq<usize>
    decreases len,
{
    if len <= 1 {
        seq![start]
    } else {
        let before = backward_walk(g, members, start, (len - 1) as nat);
        let last = before.last();
        before.push(choose|u: usize| u < g.len() && members(u) && #[trigger] edge(g, u, last))
    }
}

pub proof fn lemma_backward_walk(
    g: Seq<Seq<usize>>,
    members: spec_fn(usize) -> bool,
    start: usize,
    len: nat,
)
    requires
        start < g.len(),
        members(start),
        forall|v: usize|
            v < g.len() && #[trigger] members(v) ==> exists|u: usize|
                u < g.len() && members(u) && #[trigger] edge(g, u, v),
    ensures
        backward_walk(g, members, start, len)[0] == start,
        backward_walk(g, members, start, len).len() == if len == 0 {
            1
        } else {
            len
        },
        forall|k: int|
            0 <= k < backward_walk(g, members, start, len).len() ==> #[trigger] backward_walk(
                g,
                members,
                start,
                len,
            )[k] < g.len() && members(backward_walk(g, members, start, len)[k]),
        forall|k: int|
            0 <= k < backward_walk(g, members, start, len).len() - 1 ==> edge(
                g,
                #[trigger] backward_walk(g, members, start, len)[k + 1],
                backward_walk(g, members, start, len)[k],
            ),
    decreases len,
{
    if len > 1 {
        lemma_backward_walk(g, members, start, (len - 1) as nat);
        let before = backward_walk(g, members, start, (len - 1) as nat);
        let last = before.last();
        assert(members(last));
    }
}

/// Among `n + 1` positions below `n`, two are equal.
pub proof fn lemma_pigeonhole(s: Seq<usize>, n: nat) -> (pair: (int, int))
    requires
        n <= usize::MAX + 1,
        s.len() == n + 1,
        forall|k: int| 0 <= k < s.len() ==> #[trigger] s[k] < n,
    ensures
        0 <= pair.0 < pair.1 < s.len(),
        s[pair.0] == s[pair.1],
{
    if s.no_duplicates() {
        s.unique_seq_to_set();
        let range = Set::new(|x: usize| x < n);
        assert(s.to_set().subset_of(range));
        lemma_range_len(n);
        vstd::set_lib::lemma_len_subset(s.to_set(), range);
        assert(false);
        (0, 1)
    } else {
        let (i, j) = choose|i: int, j: int| 0 <= i < s.len() && 0 <= j < s.len() && i != j && s[i] == s[j];
        if i < j {
            (i, j)
        } else {
            (j, i)
        }
    }
}

/// The positions below `n` are `n` many.
pub proof fn lemma_range_len(n: nat)
    requires
        n <= usize::MAX + 1,
    ensures
        Set::new(|x: usize| x < n).finite(),
        Set::new(|x: usize| x < n).len() == n,
    decreases n,
{
    if n == 0 {
        assert(Set::new(|x: usize| x < n) =~= Set::empty());
    } else {
        lemma_range_len((n - 1) as nat);
        let smaller = Set::new(|x: usize| x < (n - 1) as nat);
        assert(Set::new(|x: usize| x < n) =~= smaller.insert((n - 1) as usize));
    }
}

/// Along a path whose edges each climb a wave, the `i`-th step stands at least `i` waves up.
proof fn lemma_climb(g: Seq<Seq<usize>>, w: Seq<usize>, c: Seq<usize>, i: int)
    requires
        is_path(g, c),
        0 <= i < c.len(),
        forall|u: usize, v: usize| #[trigger] edge(g, u, v) ==> w[u as int] < w[v as int],
    ensures
        w[c[i] as int] >= w[c[0] as int] + i,
    decreases i,
{
    if i > 0 {
        lemma_climb(g, w, c, i - 1);
        assert(edge(g, c[i - 1], c[i]));
    }
}

/// A graph whose edges each climb a wave holds no cycle.
pub proof fn lemma_climbing_graph_has_no_cycle(g: Seq<Seq<usize>>, w: Seq<usize>)
    requires
        forall|u: usize, v: usize| #[trigger] edge(g, u, v) ==> w[u as int] < w[v as int],
    ensures
        !has_cycle(g),
{
    assert forall|c: Seq<usize>| !is_cycle(g, c) by {
        if is_cycle(g, c) {
            lemma_climb(g, w, c, c.len() - 1);
            assert(edge(g, c.last(), c[0]));
        }
    }
}

proof fn lemma_layering_below(g: Seq<Seq<usize>>, w1: Seq<usize>, w2: Seq<usize>, v: usize)
    requires
        is_layering(g, w1),
        is_layering(g, w2),
        v < g.len(),
    ensures
        w2[v as int] <= w1[v as int],
    decreases w2[v as int],
{
    if w2[v as int] > 0 {
        let u = choose|u: usize| #[trigger] edge(g, u, v) && w2[u as int] + 1 == w2[v as int];
        lemma_layering_below(g, w1, w2, u);
    }
}

/// The waves are fixed by the edges alone: two layerings of one graph agree everywhere.
pub proof fn lemma_layering_unique(g: Seq<Seq<usize>>, w1: Seq<usize>, w2: Seq<usize>)
    requires
        g.len() <= usize::MAX,
        is_layering(g, w1),
        is_layering(g, w2),
    ensures
        w1 == w2,
{
    assert forall|v: int| 0 <= v < w1.len() implies w1[v] == w2[v] by {
        lemma_layering_below(g, w1, w2, v as usize);
        lemma_layering_below(g, w2, w1, v as usize);
    }
    assert(w1 =~= w2);
}

pub proof fn lemma_count_true_take(done: Seq<bool>, i: int)
    requires
        0 <= i < done.len(),
    ensures
        count_true(done.take(i + 1)) == count_true(done.take(i)) + if done[i] {
            1nat
        } else {
            0nat
        },
        count_true(done.take(i)) <= i,
{
    assert(done.take(i + 1).drop_last() =~= done.take(i));
    lemma_count_true_bound(done.take(i));
}

pub proof fn lemma_count_true_all(done: Seq<bool>)
    requires
        forall|i: int| 0 <= i < done.len() ==> done[i],
    ensures
        count_true(done) == done.len(),
    decreases done.len(),
{
    if done.len() > 0 {
        lemma_count_true_all(done.drop_last());
    }
}

pub proof fn lemma_count_true_unmark(done: Seq<bool>, x: int)
    requires
        0 <= x < done.len(),
        done[x],
    ensures
        count_true(done.update(x, false)) + 1 == count_true(done),
{
    lemma_count_true_mark(done.update(x, false), x);
    assert(done.update(x, false).update(x, true) =~= done);
}

/// Marks only added never lower the count, and one new mark raises it.
pub proof fn lemma_count_true_grow(a: Seq<bool>, b: Seq<bool>, x: int)
    requires
        a.len() == b.len(),
        forall|i: int| 0 <= i < a.len() && a[i] ==> b[i],
    ensures
        count_true(a) <= count_true(b),
        0 <= x < a.len() && !a[x] && b[x] ==> count_true(a) < count_true(b),
    decreases a.len(),
{
    if a.len() > 0 {
        lemma_count_true_grow(a.drop_last(), b.drop_last(), x);
    }
}

pub proof fn lemma_occurrences_take_le(s: Seq<usize>, k: int, t: usize)
    requires
        0 <= k <= s.len(),
    ensures
        occurrences(s.take(k), t) <= occurrences(s, t),
    decreases s.len() - k,
{
    if k < s.len() {
        lemma_occurrences_take(s, k, t);
        lemma_occurrences_take_le(s, k + 1, t);
    } else {
        assert(s.take(k) =~= s);
    }
}

/// With nothing done, the edges into `t` are at most all edges.
pub proof fn lemma_pending_bound(g: Seq<Seq<usize>>, done: Seq<bool>, t: usize, m: int)
    requires
        m <= g.len(),
    ensures
        pending_in(g, done, t, m) <= edge_count(g, m),
    decreases m,
{
    if m > 0 {
        lemma_pending_bound(g, done, t, m - 1);
        lemma_occurrences_bound(g[m - 1], t);
    }
}

pub proof fn lemma_edge_count_grows(g: Seq<Seq<usize>>, a: int, b: int)
    requires
        a <= b,
    ensures
        edge_count(g, a) <= edge_count(g, b),
    decreases b - a,
{
    if a < b {
        lemma_edge_count_grows(g, a, b - 1);
    }
}

pub proof fn lemma_count_true_zero(done: Seq<bool>)
    requires
        count_true(done) == 0,
    ensures
        forall|i: int| 0 <= i < done.len() ==> !done[i],
    decreases done.len(),
{
    if done.len() > 0 {
        lemma_count_true_zero(done.drop_last());
        assert forall|i: int| 0 <= i < done.len() implies !done[i] by {
            if i < done.len() - 1 {
                assert(done[i] == done.drop_last()[i]);
            }
        }
    }
}

/// Rows that each count nothing total nothing, and the other way round.
pub proof fn lemma_marks_total_zero(rows: Seq<Seq<bool>>, m: int)
    requires
        m <= rows.len(),
    ensures
        (marks_total(rows, m) == 0) == (forall|u: int| 0 <= u < m ==> count_true(#[trigger] rows[u]) == 0),
    decreases m,
{
    if m > 0 {
        lemma_marks_total_zero(rows, m - 1);
    }
}

/// `u` reaches `v` exactly when one of its successors is `v` or reaches it.
pub proof fn lemma_reaches_step(g: Seq<Seq<usize>>, u: usize, v: usize)
    requires
        u < g.len(),
        well_formed(g),
    ensures
        reaches(g, u, v) == exists|t: usize| #[trigger] edge(g, u, t) && (t == v || reaches(g, t, v)),
{
    if reaches(g, u, v) {
        let p = choose|p: Seq<usize>| #[trigger] is_path(g, p) && p.len() >= 2 && p[0] == u && p.last() == v;
        let t = p[1];
        assert(edge(g, p[0], p[1]));
        if p.len() > 2 {
            let rest = p.drop_first();
            assert forall|i: int| 0 <= i < rest.len() - 1 implies edge(g, #[trigger] rest[i], rest[i + 1]) by {
                assert(edge(g, p[i + 1], p[i + 2]));
            }
            assert(is_path(g, rest));
            assert(rest.last() == v);
            assert(reaches(g, t, v));
        }
    }
    if exists|t: usize| #[trigger] edge(g, u, t) && (t == v || reaches(g, t, v)) {
        let t = choose|t: usize| #[trigger] edge(g, u, t) && (t == v || reaches(g, t, v));
        let k = choose|k: int| 0 <= k < g[u as int].len() && #[trigger] g[u as int][k] == t;
        assert(t < g.len());
        if t == v {
            let p = seq![u, v];
            assert(edge(g, p[0], p[1]));
            assert(is_path(g, p));
        } else {
            let q = choose|q: Seq<usize>| #[trigger] is_path(g, q) && q.len() >= 2 && q[0] == t && q.last() == v;
            let p = seq![u].add(q);
            assert forall|i: int| 0 <= i < p.len() - 1 implies edge(g, #[trigger] p[i], p[i + 1]) by {
                if i > 0 {
                    assert(edge(g, q[i - 1], q[i]));
                }
            }
            assert forall|i: int| 0 <= i < p.len() implies #[trigger] p[i] < g.len() by {
                if i > 0 {
                    assert(q[i - 1] < g.len());
                }
            }
            assert(is_path(g, p));
            assert(p.last() == q.last());
        }
    }
}

/// Replacing one row changes the total by the difference of its counts.
pub proof fn lemma_marks_total_update(rows: Seq<Seq<bool>>, u: int, row: Seq<bool>, m: int)
    requires
        0 <= u < rows.len(),
        m <= rows.len(),
    ensures
        marks_total(rows.update(u, row), m) + (if u < m {
            count_true(rows[u])
        } else {
            0
        }) == marks_total(rows, m) + (if u < m {
            count_true(row)
        } else {
            0
        }),
    decreases m,
{
    if m > 0 {
        lemma_marks_total_update(rows, u, row, m - 1);
    }
}

/// Rows no longer than the successor lists mark at most as many positions as there are edges.
pub proof fn lemma_marks_total_bound(g: Seq<Seq<usize>>, rows: Seq<Seq<bool>>, m: int)
    requires
        m <= g.len(),
        m <= rows.len(),
        forall|u: int| 0 <= u < m ==> #[trigger] rows[u].len() == g[u].len(),
    ensures
        marks_total(rows, m) <= edge_count(g, m),
    decreases m,
{
    if m > 0 {
        lemma_marks_total_bound(g, rows, m - 1);
        lemma_count_true_bound(rows[m - 1]);
    }
}

/// Two graphs over the same positions with the same edges.
pub open spec fn same_edges(g1: Seq<Seq<usize>>, g2: Seq<Seq<usize>>) -> bool {
    &&& g1.len() == g2.len()
    &&& forall|u: usize, v: usize| #[trigger] edge(g1, u, v) == #[trigger] edge(g2, u, v)
}

/// Paths, cycles, layerings, reach and cycle reports depend on the edges alone.
pub proof fn lemma_same_edges(g1: Seq<Seq<usize>>, g2: Seq<Seq<usize>>)
    requires
        same_edges(g1, g2),
    ensures
        forall|p: Seq<usize>| #[trigger] is_path(g1, p) == is_path(g2, p),
        forall|c: Seq<usize>| #[trigger] is_cycle(g1, c) == is_cycle(g2, c),
        has_cycle(g1) == has_cycle(g2),
        forall|w: Seq<usize>| #[trigger] is_layering(g1, w) == is_layering(g2, w),
        forall|u: usize, v: usize| #[trigger] reaches(g1, u, v) == reaches(g2, u, v),
        forall|u: usize| #[trigger] reach_count(g1, u) == reach_count(g2, u),
        forall|r: Seq<Seq<usize>>| #[trigger] is_cycle_report(g1, r) == is_cycle_report(g2, r),
{
    assert forall|p: Seq<usize>| #[trigger] is_path(g1, p) == is_path(g2, p) by {
        if is_path(g1, p) {
            assert forall|i: int| 0 <= i < p.len() - 1 implies edge(g2, #[trigger] p[i], p[i + 1]) by {
                assert(edge(g1, p[i], p[i + 1]));
            }
        }
        if is_path(g2, p) {
            assert forall|i: int| 0 <= i < p.len() - 1 implies edge(g1, #[trigger] p[i], p[i + 1]) by {
                assert(edge(g2, p[i], p[i + 1]));
            }
        }
    }
    assert forall|c: Seq<usize>| #[trigger] is_cycle(g1, c) == is_cycle(g2, c) by {
        assert(edge(g1, c.last(), c[0]) == edge(g2, c.last(), c[0]));
    }
    if has_cycle(g1) {
        let c = choose|c: Seq<usize>| is_cycle(g1, c);
        assert(is_cycle(g2, c));
    }
    if has_cycle(g2) {
        let c = choose|c: Seq<usize>| is_cycle(g2, c);
        assert(is_cycle(g1, c));
    }
    assert forall|w: Seq<usize>| #[trigger] is_layering(g1, w) == is_layering(g2, w) by {
        if is_layering(g1, w) {
            assert forall|u: usize, v: usize| #[trigger] edge(g2, u, v) implies w[u as int] < w[v as int] by {
                assert(edge(g1, u, v));
            }
            assert forall|v: usize| v < w.len() && #[trigger] w[v as int] > 0 implies exists|u: usize|
                #[trigger] edge(g2, u, v) && w[u as int] + 1 == w[v as int] by {
                let u = choose|u: usize| #[trigger] edge(g1, u, v) && w[u as int] + 1 == w[v as int];
                assert(edge(g2, u, v));
            }
        }
        if is_layering(g2, w) {
            assert forall|u: usize, v: usize| #[trigger] edge(g1, u, v) implies w[u as int] < w[v as int] by {
                assert(edge(g2, u, v));
            }
            assert forall|v: usize| v < w.len() && #[trigger] w[v as int] > 0 implies exists|u: usize|
                #[trigger] edge(g1, u, v) && w[u as int] + 1 == w[v as int] by {
                let u = choose|u: usize| #[trigger] edge(g2, u, v) && w[u as int] + 1 == w[v as int];
                assert(edge(g1, u, v));
            }
        }
    }
    assert forall|u: usize, v: usize| #[trigger] reaches(g1, u, v) == reaches(g2, u, v) by {
        if reaches(g1, u, v) {
            let p = choose|p: Seq<usize>| #[trigger] is_path(g1, p) && p.len() >= 2 && p[0] == u && p.last() == v;
            assert(is_path(g2, p));
        }
        if reaches(g2, u, v) {
            let p = choose|p: Seq<usize>| #[trigger] is_path(g2, p) && p.len() >= 2 && p[0] == u && p.last() == v;
            assert(is_path(g1, p));
        }
    }
    assert forall|u: usize| #[trigger] reach_count(g1, u) == reach_count(g2, u) by {
        assert(reach_row(g1, u) =~= reach_row(g2, u));
    }
    assert forall|r: Seq<Seq<usize>>| #[trigger] is_cycle_report(g1, r) == is_cycle_report(g2, r) by {
        assert forall|i: int| 0 <= i < r.len() implies #[trigger] is_cycle(g1, r[i]) == is_cycle(g2, r[i]) by {}
    }
}

/// A strictly increasing list of positions below `n` holds at most `n` of them.
/// Two increasing lists that hold the same positions are the same list.
pub proof fn lemma_increasing_same_members(a: Seq<usize>, b: Seq<usize>)
    requires
        forall|k: int, j: int| 0 <= k < j < a.len() ==> #[trigger] a[k] < #[trigger] a[j],
        forall|k: int, j: int| 0 <= k < j < b.len() ==> #[trigger] b[k] < #[trigger] b[j],
        forall|x: usize| a.contains(x) <==> b.contains(x),
    ensures
        a == b,
    decreases a.len(),
{
    if a.len() == 0 {
        if b.len() > 0 {
            assert(b.contains(b[0]));
        }
        assert(a =~= b);
    } else if b.len() == 0 {
        assert(a.contains(a[0]));
    } else {
        assert(a.contains(a[0]));
        assert(b.contains(b[0]));
        let j = choose|j: int| 0 <= j < b.len() && b[j] == a[0];
        let i = choose|i: int| 0 <= i < a.len() && a[i] == b[0];
        if i > 0 {
            assert(a[0] < a[i]);
        }
        if j > 0 {
            assert(b[0] < b[j]);
        }
        assert(a[0] == b[0]);
        let ra = a.drop_first();
        let rb = b.drop_first();
        assert forall|x: usize| ra.contains(x) <==> rb.contains(x) by {
            if ra.contains(x) {
                let k = choose|k: int| 0 <= k < ra.len() && ra[k] == x;
                assert(a[k + 1] == x && a[0] < a[k + 1]);
                assert(a.contains(x));
                let l = choose|l: int| 0 <= l < b.len() && b[l] == x;
                assert(l != 0);
                assert(rb[l - 1] == x);
            }
            if rb.contains(x) {
                let k = choose|k: int| 0 <= k < rb.len() && rb[k] == x;
                assert(b[k + 1] == x && b[0] < b[k + 1]);
                assert(b.contains(x));
                let l = choose|l: int| 0 <= l < a.len() && a[l] == x;
                assert(l != 0);
                assert(ra[l - 1] == x);
            }
        }
        assert forall|k: int, j: int| 0 <= k < j < ra.len() implies #[trigger] ra[k] < #[trigger] ra[j] by {
            assert(a[k + 1] < a[j + 1]);
        }
        assert forall|k: int, j: int| 0 <= k < j < rb.len() implies #[trigger] rb[k] < #[trigger] rb[j] by {
            assert(b[k + 1] < b[j + 1]);
        }
        lemma_increasing_same_members(ra, rb);
        assert forall|k: int| 0 <= k < a.len() implies a[k] == b[k] by {
            if k > 0 {
                assert(a[k] == ra[k - 1]);
                assert(b[k] == rb[k - 1]);
            }
        }
        assert(a =~= b);
    }
}

pub proof fn lemma_increasing_len(s: Seq<usize>, n: nat)
    requires
        forall|k: int| 0 <= k < s.len() ==> #[trigger] s[k] < n,
        forall|k: int, j: int| 0 <= k < j < s.len() ==> #[trigger] s[k] < #[trigger] s[j],
    ensures
        s.len() <= n,
    decreases s.len(),
{
    if s.len() > 0 {
        let last = s.last();
        let rest = s.drop_last();
        assert forall|k: int| 0 <= k < rest.len() implies #[trigger] rest[k] < last by {
            assert(s[k] < s[s.len() - 1]);
        }
        assert forall|k: int, j: int| 0 <= k < j < rest.len() implies #[trigger] rest[k] < #[trigger] rest[j] by {
            assert(s[k] < s[j]);
        }
        lemma_increasing_len(rest, last as nat);
    }
}

/// With each list of successors at most `n` long, the first `m` lists hold at most `m * n` edges.
pub proof fn lemma_edge_count_bound(g: Seq<Seq<usize>>, m: int, n: nat)
    requires
        0 <= m <= g.len(),
        forall|u: int| 0 <= u < g.len() ==> (#[trigger] g[u]).len() <= n,
    ensures
        edge_count(g, m) <= m * n,
    decreases m,
{
    if m > 0 {
        lemma_edge_count_bound(g, m - 1, n);
        assert(g[m - 1].len() <= n);
        assert((m - 1) * n + n == m * n) by (nonlinear_arith);
    }
}

/// A permutation of the positions below `n` holds each of them.
pub proof fn lemma_permutation_covers(order: Seq<usize>, n: int, v: int)
    requires
        crate::sort::is_permutation(order, n),
        n <= usize::MAX + 1,
        0 <= v < n,
    ensures
        exists|i: int| 0 <= i < order.len() && order[i] == v,
{
    if !order.contains(v as usize) {
        order.unique_seq_to_set();
        let range = Set::new(|x: usize| x < n);
        lemma_range_len(n as nat);
        let rest = range.remove(v as usize);
        assert(order.to_set().subset_of(rest)) by {
            assert forall|x: usize| order.to_set().contains(x) implies rest.contains(x) by {
                let k = choose|k: int| 0 <= k < order.len() && order[k] == x;
                assert(order[k] < n);
            }
        }
        vstd::set_lib::lemma_len_subset(order.to_set(), rest);
        assert(false);
    }
}

} // verus!
