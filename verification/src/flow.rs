//! The implementation order of a task set: waves of leaves, boxes around them, and the edges
//! between the tasks, in the direction the time runs.
use std::cmp::Ordering;

use vstd::prelude::*;
use vstd::string::StringExecFns;

use crate::field::{Field, FieldView};
use crate::metadata::rank_of;
use crate::order::{id_cmp, id_order, rank_cmp, rank_order, text_lex};
use crate::family::{family_of, family_parents};
use crate::graph::{behind_cycles, has_cycle, is_cycle_report, is_layering, reach_count, seqs_of};
use crate::layering::cut_walk_reports;
use crate::growth::{grow, unique_coordinates, FlowQuery};
use crate::layout::{flow_members, leaf_ids, leaves_upto, wait_graph, waves_fit, Layout};
use crate::wiring::{
    declared_edges, declared_refs, edge_order, edge_views, entries_upto, node_views, nodes, reading_nodes,
    ref_order, sorted_unique, unresolved_nodes, wire, RefView,
};
use crate::task::TaskListItem;
use crate::text::{chain, chain_orders, text_order};
use crate::sort::{is_permutation, preorder_on, sort_positions, sorted_by, stable_by};
use crate::status::Status;

verus! {

/// One task set in implementation order: a flat node list and the edges between the nodes. An
/// edge runs from the dependency to the task that waits for it.
#[derive(Debug, PartialEq, Eq)]
pub struct Flow {
    pub nodes: Vec<FlowNode>,
    pub edges: Vec<FlowEdge>,
}

/// A `Leaf` is a task somebody implements, the only kind that holds a place in the order. A `Box`
/// is a parent: the flow draws it around its children, so it takes no place of its own. An
/// `Unresolved` node is a dependency that names no task of its project; no work can complete it.
#[derive(Debug, PartialEq, Eq)]
pub enum FlowNode {
    Leaf {
        project: String,
        id: String,
        title: String,
        status: Field<Status>,
        parent: Option<String>,
        wave: usize,
        position: usize,
        blocks_count: usize,
    },
    Box {
        project: String,
        id: String,
        title: String,
        status: Field<Status>,
        parent: Option<String>,
    },
    Unresolved { project: String, id: String },
}

/// A node as plain values.
pub enum FlowNodeView {
    Leaf {
        project: Seq<char>,
        id: Seq<char>,
        title: Seq<char>,
        status: FieldView<Status>,
        parent: Option<Seq<char>>,
        wave: usize,
        position: usize,
        blocks_count: usize,
    },
    Box {
        project: Seq<char>,
        id: Seq<char>,
        title: Seq<char>,
        status: FieldView<Status>,
        parent: Option<Seq<char>>,
    },
    Unresolved { project: Seq<char>, id: Seq<char> },
}

/// An optional text as plain values.
pub open spec fn opt_text(text: Option<String>) -> Option<Seq<char>> {
    match text {
        Some(t) => Some(t@),
        None => None,
    }
}

impl View for FlowNode {
    type V = FlowNodeView;

    open spec fn view(&self) -> FlowNodeView {
        match self {
            FlowNode::Leaf { project, id, title, status, parent, wave, position, blocks_count } => FlowNodeView::Leaf {
                project: project@,
                id: id@,
                title: title@,
                status: status@,
                parent: opt_text(*parent),
                wave: *wave,
                position: *position,
                blocks_count: *blocks_count,
            },
            FlowNode::Box { project, id, title, status, parent } => FlowNodeView::Box {
                project: project@,
                id: id@,
                title: title@,
                status: status@,
                parent: opt_text(*parent),
            },
            FlowNode::Unresolved { project, id } => FlowNodeView::Unresolved { project: project@, id: id@ },
        }
    }
}

/// An edge of the flow. No edge crosses a project, because a key resolves inside one store only.
#[derive(Debug, PartialEq, Eq)]
pub struct FlowEdge {
    pub project: String,
    pub from: String,
    pub to: String,
}

impl View for FlowEdge {
    type V = (Seq<char>, Seq<char>, Seq<char>);

    open spec fn view(&self) -> (Seq<char>, Seq<char>, Seq<char>) {
        (self.project@, self.from@, self.to@)
    }
}

/// The dependencies form cycles: the members of each one, in order.
#[derive(Debug, PartialEq, Eq)]
pub struct FlowCycles {
    pub cycles: Vec<Vec<String>>,
}

/// The texts a list holds.
pub open spec fn texts_of(list: &Vec<String>) -> Seq<Seq<char>> {
    Seq::new(list@.len(), |k: int| list@[k]@)
}

/// The lists of texts a list of lists holds.
pub open spec fn text_lists_of(lists: &Vec<Vec<String>>) -> Seq<Seq<Seq<char>>> {
    Seq::new(lists@.len(), |k: int| texts_of(&lists@[k]))
}

/// The parts, with `separator` between each two.
pub open spec fn joined(parts: Seq<Seq<char>>, separator: Seq<char>) -> Seq<char>
    decreases parts.len(),
{
    if parts.len() == 0 {
        Seq::empty()
    } else if parts.len() == 1 {
        parts[0]
    } else {
        joined(parts.drop_last(), separator) + separator + parts.last()
    }
}

/// One cycle as text: its members joined by arrows, back to the first.
pub open spec fn round_text(cycle: Seq<Seq<char>>) -> Seq<char> {
    if cycle.len() == 0 {
        Seq::empty()
    } else {
        joined(cycle.push(cycle[0]), " -> "@)
    }
}

/// Every cycle as text, separated by semicolons.
pub open spec fn cycles_text(cycles: Seq<Seq<Seq<char>>>) -> Seq<char> {
    joined(Seq::new(cycles.len(), |k: int| round_text(cycles[k])), "; "@)
}

/// `joined` one part further.
proof fn lemma_joined_push(parts: Seq<Seq<char>>, part: Seq<char>, separator: Seq<char>)
    ensures
        joined(parts.push(part), separator) == if parts.len() == 0 {
            part
        } else {
            joined(parts, separator) + separator + part
        },
{
    assert(parts.push(part).drop_last() =~= parts);
}

/// `parts` joined by `separator`.
fn join_texts(parts: &Vec<String>, separator: &str) -> (text: String)
    ensures
        text@ == joined(texts_of(parts), separator@),
{
    let mut text = String::new();
    let mut k: usize = 0;
    while k < parts.len()
        invariant
            k <= parts.len(),
            text@ == joined(texts_of(parts).take(k + 0int), separator@),
        decreases parts.len() - k,
    {
        proof {
            assert(texts_of(parts).take(k + 1) =~= texts_of(parts).take(k + 0int).push(parts@[k + 0int]@));
            lemma_joined_push(texts_of(parts).take(k + 0int), parts@[k + 0int]@, separator@);
        }
        if k > 0 {
            text.append(separator);
        }
        text.append(parts[k].as_str());
        k = k + 1;
    }
    proof {
        assert(texts_of(parts).take(k + 0int) =~= texts_of(parts));
    }
    text
}

/// The cycles as a sentence fragment: each one's members joined by arrows and back to the first,
/// the cycles separated by semicolons.
pub fn format_cycles(cycles: &Vec<Vec<String>>) -> (text: String)
    ensures
        text@ == cycles_text(text_lists_of(cycles)),
{
    let mut rounds: Vec<String> = Vec::new();
    let mut k: usize = 0;
    while k < cycles.len()
        invariant
            k <= cycles.len(),
            rounds@.len() == k,
            forall|j: int| 0 <= j < k ==> (#[trigger] rounds@[j])@ == round_text(texts_of(&cycles@[j])),
        decreases cycles.len() - k,
    {
        let cycle = &cycles[k];
        let mut round: Vec<String> = Vec::new();
        let mut j: usize = 0;
        while j < cycle.len()
            invariant
                j <= cycle.len(),
                round@.len() == j,
                forall|i: int| 0 <= i < j ==> (#[trigger] round@[i])@ == cycle@[i]@,
            decreases cycle.len() - j,
        {
            round.push(cycle[j].clone());
            j = j + 1;
        }
        if cycle.len() > 0 {
            round.push(cycle[0].clone());
        }
        let text = join_texts(&round, " -> ");
        proof {
            if cycle.len() > 0 {
                assert(texts_of(&round) =~= texts_of(cycle).push(texts_of(cycle)[0]));
            } else {
                assert(texts_of(&round) =~= Seq::<Seq<char>>::empty());
            }
        }
        rounds.push(text);
        k = k + 1;
    }
    let text = join_texts(&rounds, "; ");
    proof {
        assert(texts_of(&rounds) =~= Seq::new(
            text_lists_of(cycles).len(),
            |k: int| round_text(text_lists_of(cycles)[k]),
        ));
    }
    text
}

impl FlowCycles {
    /// What the refusal says: the dependencies form a cycle, and which.
    pub fn message(&self) -> (text: String)
        ensures
            text@ == "dependencies form a cycle: "@ + cycles_text(text_lists_of(&self.cycles)),
    {
        let mut text = String::from_str("dependencies form a cycle: ");
        let rest = format_cycles(&self.cycles);
        text.append(rest.as_str());
        text
    }
}

/// The position in a cycle of its lowest key, among its first `m` members: a later member takes
/// the place only when the one held so far orders after it, so a tie keeps the first.
pub open spec fn lowest_at(keys: Seq<Seq<char>>, m: int) -> int
    decreases m,
{
    if m <= 1 {
        0
    } else {
        let best = lowest_at(keys, m - 1);
        if id_order(keys[best], keys[m - 1]) == Ordering::Greater {
            m - 1
        } else {
            best
        }
    }
}

/// The keys of a cycle, turned to start at `first`.
pub open spec fn turned(keys: Seq<Seq<char>>, first: int) -> Seq<Seq<char>> {
    Seq::new(keys.len(), |k: int| keys[(first + k) % (keys.len() + 0int)])
}

/// The keys of the members of a cycle of leaves.
pub open spec fn keys_of(ids: Seq<Seq<char>>, cycle: Seq<usize>) -> Seq<Seq<char>> {
    Seq::new(cycle.len(), |k: int| ids[cycle[k] + 0int])
}

/// A cycle as keys, turned so the lowest key opens it: the report then reads the same whichever
/// member the walk happened to start from.
pub open spec fn cycle_keys(ids: Seq<Seq<char>>, cycle: Seq<usize>) -> Seq<Seq<char>> {
    turned(keys_of(ids, cycle), lowest_at(keys_of(ids, cycle), cycle.len() + 0int))
}

proof fn lemma_lowest_at(keys: Seq<Seq<char>>, m: int)
    ensures
        m >= 1 ==> 0 <= lowest_at(keys, m) < m,
    decreases m,
{
    if m > 1 {
        lemma_lowest_at(keys, m - 1);
    }
}

/// Turning a cycle of `n` members to start at `first`, its `k`-th member is at `at`.
proof fn lemma_turn_index(first: usize, k: usize, n: usize, at: usize)
    requires
        first < n,
        k < n,
        at == if k < n - first {
            first + k
        } else {
            k - (n - first)
        },
    ensures
        at + 0int == (first + k) % (n + 0int),
{
    if k < n - first {
        vstd::arithmetic::div_mod::lemma_small_mod((first + k) as nat, n as nat);
    } else {
        vstd::arithmetic::div_mod::lemma_mod_add_multiples_vanish(at as int, n as int);
        vstd::arithmetic::div_mod::lemma_small_mod(at as nat, n as nat);
        assert(first + k == n + at);
    }
}

/// The keys of one cycle of leaves, turned so the lowest key opens it.
fn turned_keys(cycle: &Vec<usize>, ids: &Vec<String>) -> (keys: Vec<String>)
    requires
        forall|k: int| 0 <= k < cycle.len() ==> #[trigger] cycle@[k] < ids.len(),
    ensures
        texts_of(&keys) == cycle_keys(texts_of(ids), cycle@),
{
    let ghost all = keys_of(texts_of(ids), cycle@);
    let n = cycle.len();
    let mut first: usize = 0;
    let mut m: usize = 1;
    while m < n
        invariant
            n == cycle.len(),
            all == keys_of(texts_of(ids), cycle@),
            forall|k: int| 0 <= k < cycle.len() ==> #[trigger] cycle@[k] < ids.len(),
            1 <= m,
            m <= n || (n == 0 && m == 1),
            first < m,
            first + 0int == lowest_at(all, m + 0int),
        decreases n - m,
    {
        let by_key = id_cmp(ids[cycle[first]].as_str(), ids[cycle[m]].as_str());
        match by_key {
            Ordering::Greater => {
                first = m;
            },
            _ => {},
        }
        m = m + 1;
    }
    proof {
        if n == 0 {
            assert(lowest_at(all, 0) == 0);
            assert(lowest_at(all, 1) == 0);
            assert(first == 0);
        } else {
            assert(m == n);
            assert(first + 0int == lowest_at(all, m + 0int));
        }
        lemma_lowest_at(all, n + 0int);
        assert(first + 0int == lowest_at(all, n + 0int));
    }
    let mut keys: Vec<String> = Vec::new();
    let mut k: usize = 0;
    while k < n
        invariant
            n == cycle.len(),
            all == keys_of(texts_of(ids), cycle@),
            forall|j: int| 0 <= j < cycle.len() ==> #[trigger] cycle@[j] < ids.len(),
            n > 0 ==> first < n,
            first + 0int == lowest_at(all, n + 0int),
            k <= n,
            keys@.len() == k,
            forall|j: int| 0 <= j < k ==> (#[trigger] keys@[j])@ == turned(all, first + 0int)[j],
        decreases n - k,
    {
        let at = if k < n - first {
            first + k
        } else {
            k - (n - first)
        };
        proof {
            lemma_turn_index(first, k, n, at);
        }
        keys.push(ids[cycle[at]].clone());
        k = k + 1;
    }
    proof {
        assert(texts_of(&keys) =~= cycle_keys(texts_of(ids), cycle@));
    }
    keys
}

/// The order reports come in: by the key that opens them.
pub open spec fn report_order(reports: Seq<Seq<Seq<char>>>) -> spec_fn(usize, usize) -> Ordering {
    |a: usize, b: usize| id_order(reports[a + 0int][0], reports[b + 0int][0])
}

/// The keys of each cycle, turned so the lowest key opens it.
fn keyed_cycles(cycles: &Vec<Vec<usize>>, ids: &Vec<String>) -> (keyed: Vec<Vec<String>>)
    requires
        forall|i: int, k: int| 0 <= i < cycles.len() && 0 <= k < cycles@[i]@.len() ==> #[trigger] cycles@[i]@[k] < ids.len(),
        forall|i: int| 0 <= i < cycles.len() ==> (#[trigger] cycles@[i])@.len() > 0,
    ensures
        keyed@.len() == cycles@.len(),
        forall|j: int| 0 <= j < keyed@.len() ==> #[trigger] texts_of(&keyed@[j]) == cycle_keys(texts_of(ids), cycles@[j]@),
        forall|j: int| 0 <= j < keyed@.len() ==> (#[trigger] keyed@[j])@.len() > 0,
{
    let mut keyed: Vec<Vec<String>> = Vec::new();
    let mut i: usize = 0;
    while i < cycles.len()
        invariant
            i <= cycles.len(),
            forall|i: int, k: int| 0 <= i < cycles.len() && 0 <= k < cycles@[i]@.len() ==> #[trigger] cycles@[i]@[k] < ids.len(),
            forall|i: int| 0 <= i < cycles.len() ==> (#[trigger] cycles@[i])@.len() > 0,
            keyed@.len() == i,
            forall|j: int| 0 <= j < i ==> #[trigger] texts_of(&keyed@[j]) == cycle_keys(texts_of(ids), cycles@[j]@),
            forall|j: int| 0 <= j < i ==> (#[trigger] keyed@[j])@.len() > 0,
        decreases cycles.len() - i,
    {
        let keys = turned_keys(&cycles[i], ids);
        proof {
            assert(texts_of(&keys).len() == keys@.len());
            assert(cycle_keys(texts_of(ids), cycles@[i as int]@).len() == cycles@[i as int]@.len());
        }
        keyed.push(keys);
        proof {
            assert(keyed@[i as int] == keys);
        }
        i = i + 1;
    }
    keyed
}

/// The reports in the order of the key that opens each; ties keep their order.
fn sorted_reports(keyed: &Vec<Vec<String>>) -> (out: (Vec<Vec<String>>, Ghost<Seq<usize>>))
    requires
        forall|j: int| 0 <= j < keyed@.len() ==> (#[trigger] keyed@[j])@.len() > 0,
    ensures
        out.0@.len() == keyed@.len(),
        is_permutation(out.1@, keyed@.len() + 0int),
        forall|i: int| 0 <= i < out.0@.len() ==> #[trigger] texts_of(&out.0@[i]) == texts_of(&keyed@[out.1@[i] + 0int]),
        preorder_on(report_order(text_lists_of(keyed)), keyed@.len() + 0int) ==> sorted_by(out.1@, report_order(text_lists_of(keyed))) && stable_by(out.1@, report_order(text_lists_of(keyed))),
{
    let n = keyed.len();
    let less = |a: usize, b: usize| -> (r: bool)
        requires
            a < keyed.len(),
            b < keyed.len(),
            forall|j: int| 0 <= j < keyed.len() ==> (#[trigger] keyed@[j])@.len() > 0,
        ensures
            r == (report_order(text_lists_of(keyed))(a, b) == Ordering::Less),
        {
            match id_cmp(keyed[a][0].as_str(), keyed[b][0].as_str()) {
                Ordering::Less => true,
                _ => false,
            }
        };
    let order = sort_positions(n, less, Ghost(report_order(text_lists_of(keyed))));
    let mut reports: Vec<Vec<String>> = Vec::new();
    let mut k: usize = 0;
    while k < n
        invariant
            k <= n,
            n == keyed.len(),
            is_permutation(order@, n + 0int),
            reports@.len() == k,
            forall|j: int| 0 <= j < k ==> #[trigger] texts_of(&reports@[j]) == texts_of(&keyed@[order@[j] + 0int]),
        decreases n - k,
    {
        let at = order[k];
        let copy = copy_texts(&keyed[at]);
        reports.push(copy);
        k = k + 1;
    }
    (reports, Ghost(order@))
}

/// `reports` are the `cycles` as keys, each turned so its lowest key opens it, in an order that
/// sorts them by that key where the key order is a total preorder, cycles that tie in the order
/// they were found.
pub open spec fn cycles_reported(ids: Seq<Seq<char>>, cycles: Seq<Seq<usize>>, reports: Seq<Seq<Seq<char>>>) -> bool {
    let turned_all = Seq::new(cycles.len(), |i: int| cycle_keys(ids, cycles[i]));
    exists|order: Seq<usize>|
        {
            &&& #[trigger] is_permutation(order, cycles.len() + 0int)
            &&& reports.len() == cycles.len()
            &&& forall|i: int| 0 <= i < reports.len() ==> #[trigger] reports[i] == turned_all[order[i] + 0int]
            &&& preorder_on(report_order(turned_all), cycles.len() + 0int) ==> sorted_by(order, report_order(turned_all)) && stable_by(order, report_order(turned_all))
        }
}

/// The cycles as keys, each turned so its lowest key opens it, ordered by that key; cycles that
/// tie keep the order they were found in.
pub fn cycle_ids(cycles: Vec<Vec<usize>>, ids: &Vec<String>) -> (reports: Vec<Vec<String>>)
    requires
        forall|i: int, k: int| 0 <= i < cycles.len() && 0 <= k < cycles@[i]@.len() ==> #[trigger] cycles@[i]@[k] < ids.len(),
        forall|i: int| 0 <= i < cycles.len() ==> (#[trigger] cycles@[i])@.len() > 0,
    ensures
        cycles_reported(texts_of(ids), seqs_of(&cycles), text_lists_of(&reports)),
{
    let keyed = keyed_cycles(&cycles, ids);
    let ghost turned_all = Seq::new(cycles@.len(), |i: int| cycle_keys(texts_of(ids), cycles@[i]@));
    proof {
        assert(text_lists_of(&keyed) =~= turned_all);
    }
    let (reports, Ghost(order)) = sorted_reports(&keyed);
    proof {
        assert(is_permutation(order, cycles@.len() + 0int));
        assert(seqs_of(&cycles).len() == cycles@.len());
        assert forall|i: int| 0 <= i < cycles@.len() implies #[trigger] seqs_of(&cycles)[i] == cycles@[i]@ by {}
        let all = Seq::new(seqs_of(&cycles).len(), |i: int| cycle_keys(texts_of(ids), seqs_of(&cycles)[i]));
        assert(all =~= turned_all);
        assert(text_lists_of(&reports).len() == reports@.len());
        assert forall|i: int| 0 <= i < reports@.len() implies #[trigger] text_lists_of(&reports)[i] == all[order[i] + 0int] by {}
    }
    reports
}

/// A copy of each text.
fn copy_texts(list: &Vec<String>) -> (copy: Vec<String>)
    ensures
        texts_of(&copy) == texts_of(list),
{
    let mut copy: Vec<String> = Vec::new();
    let mut k: usize = 0;
    while k < list.len()
        invariant
            k <= list.len(),
            copy@.len() == k,
            forall|j: int| 0 <= j < k ==> (#[trigger] copy@[j])@ == list@[j]@,
        decreases list.len() - k,
    {
        copy.push(list[k].clone());
        k = k + 1;
    }
    proof {
        assert(texts_of(&copy) =~= texts_of(list));
    }
    copy
}

/// The leaf with more work waiting for it first.
pub open spec fn more_first(x: usize, y: usize) -> Ordering {
    if y < x {
        Ordering::Less
    } else if y == x {
        Ordering::Equal
    } else {
        Ordering::Greater
    }
}

/// The order inside a wave: the leaf that unblocks the most work leads, then rank, then key, then
/// project.
pub open spec fn leaf_order(ts: Seq<TaskListItem>, leaves: Seq<usize>, blocks: Seq<usize>, a: usize, b: usize) -> Ordering {
    let ta = ts[leaves[a + 0int] + 0int];
    let tb = ts[leaves[b + 0int] + 0int];
    chain(
        more_first(blocks[a + 0int], blocks[b + 0int]),
        rank_order(
            rank_of(&ta.metadata),
            rank_of(&tb.metadata),
            chain(id_order(ta.id@, tb.id@), text_lex(ta.project@, tb.project@)),
        ),
    )
}

/// The leaves of wave `w` among the first `m`, in leaf order.
pub open spec fn wave_members(wave: Seq<usize>, w: int, m: int) -> Seq<usize>
    decreases m,
{
    if m <= 0 {
        Seq::empty()
    } else if wave[m - 1] == w {
        wave_members(wave, w, m - 1).push((m - 1) as usize)
    } else {
        wave_members(wave, w, m - 1)
    }
}

/// The order inside a wave, read through the positions of `members`.
pub open spec fn member_order(ts: Seq<TaskListItem>, leaves: Seq<usize>, blocks: Seq<usize>, members: Seq<usize>) -> spec_fn(usize, usize) -> Ordering {
    |x: usize, y: usize| leaf_order(ts, leaves, blocks, members[x + 0int], members[y + 0int])
}

/// `row` holds the leaves of wave `w` arranged by `order`: each once, and in leaf order within the
/// wave where that order is a total preorder on them, ties in their own order.
#[verifier::opaque]
pub open spec fn wave_arranged(ts: Seq<TaskListItem>, leaves: Seq<usize>, blocks: Seq<usize>, wave: Seq<usize>, w: int, row: Seq<usize>, order: Seq<usize>) -> bool {
    let members = wave_members(wave, w, leaves.len() + 0int);
    &&& is_permutation(order, members.len() + 0int)
    &&& row.len() == members.len()
    &&& forall|k: int| 0 <= k < members.len() ==> row[k] == members[order[k] + 0int]
    &&& preorder_on(member_order(ts, leaves, blocks, members), members.len() + 0int) ==> sorted_by(
        order,
        member_order(ts, leaves, blocks, members),
    ) && stable_by(order, member_order(ts, leaves, blocks, members))
}

/// `row` holds the leaves of wave `w`, arranged by some order of them as `wave_arranged` says.
pub open spec fn row_arranged(ts: Seq<TaskListItem>, leaves: Seq<usize>, blocks: Seq<usize>, wave: Seq<usize>, w: int, row: Seq<usize>) -> bool {
    exists|order: Seq<usize>| #[trigger] wave_arranged(ts, leaves, blocks, wave, w, row, order)
}

/// How one leaf orders against another inside a wave.
fn leaf_cmp_at(tasks: &Vec<TaskListItem>, leaves: &Vec<usize>, blocks: &Vec<usize>, a: usize, b: usize) -> (order: Ordering)
    requires
        a < leaves.len(),
        b < leaves.len(),
        blocks.len() == leaves.len(),
        forall|k: int| 0 <= k < leaves.len() ==> #[trigger] leaves@[k] < tasks.len(),
    ensures
        order == leaf_order(tasks@, leaves@, blocks@, a, b),
{
    let ta = &tasks[leaves[a]];
    let tb = &tasks[leaves[b]];
    let by_blocks = if blocks[b] < blocks[a] {
        Ordering::Less
    } else if blocks[b] == blocks[a] {
        Ordering::Equal
    } else {
        Ordering::Greater
    };
    let tie = || -> (r: Ordering)
        ensures
            r == chain(id_order(ta.id@, tb.id@), text_lex(ta.project@, tb.project@)),
        {
            chain_orders(id_cmp(ta.id.as_str(), tb.id.as_str()), text_order(ta.project.as_str(), tb.project.as_str()))
        };
    let by_rank = rank_cmp(ta.metadata.rank(), tb.metadata.rank(), tie);
    chain_orders(by_blocks, by_rank)
}

/// The leaves of each wave, from the first wave on; inside a wave the leaf that unblocks the most
/// work leads, then rank, then key, then project, and leaves that tie keep their order.
pub fn arrange_waves(tasks: &Vec<TaskListItem>, leaves: &Vec<usize>, wave_of: &Vec<usize>, blocks: &Vec<usize>) -> (waves: Vec<Vec<usize>>)
    requires
        wave_of.len() == leaves.len(),
        leaves.len() < usize::MAX,
        forall|k: int| 0 <= k < leaves.len() ==> #[trigger] wave_of@[k] <= leaves.len(),
        blocks.len() == leaves.len(),
        forall|k: int| 0 <= k < leaves.len() ==> #[trigger] leaves@[k] < tasks.len(),
    ensures
        forall|k: int| 0 <= k < leaves.len() ==> #[trigger] wave_of@[k] < waves.len(),
        leaves.len() > 0 ==> exists|k: int| 0 <= k < leaves.len() && wave_of@[k] + 1 == waves.len(),
        leaves.len() == 0 ==> waves.len() == 0,
        forall|w: int|
            0 <= w < waves.len() ==> #[trigger] row_arranged(tasks@, leaves@, blocks@, wave_of@, w, waves@[w]@),
        forall|w: int, k: int| 0 <= w < waves.len() && 0 <= k < waves@[w]@.len() ==> #[trigger] waves@[w]@[k] < leaves.len(),
{
    let n = leaves.len();
    let mut depth: usize = 0;
    let mut k: usize = 0;
    while k < n
        invariant
            n == leaves.len(),
            wave_of.len() == n,
            n < usize::MAX,
            forall|j: int| 0 <= j < n ==> #[trigger] wave_of@[j] <= n,
            k <= n,
            forall|j: int| 0 <= j < k ==> #[trigger] wave_of@[j] < depth,
            k > 0 ==> exists|j: int| 0 <= j < k && wave_of@[j] + 1 == depth,
            k == 0 ==> depth == 0,
        decreases n - k,
    {
        if wave_of[k] >= depth {
            depth = wave_of[k] + 1;
        }
        k = k + 1;
    }
    let mut waves: Vec<Vec<usize>> = Vec::new();
    let mut w: usize = 0;
    while w < depth
        invariant
            n == leaves.len(),
            wave_of.len() == n,
            blocks.len() == n,
            forall|j: int| 0 <= j < leaves.len() ==> #[trigger] leaves@[j] < tasks.len(),
            w <= depth,
            waves@.len() == w,
            forall|v: int|
                0 <= v < w ==> #[trigger] row_arranged(tasks@, leaves@, blocks@, wave_of@, v, waves@[v]@),
            forall|v: int, k: int| 0 <= v < w && 0 <= k < waves@[v]@.len() ==> #[trigger] waves@[v]@[k] < leaves.len(),
        decreases depth - w,
    {
        let one = arrange_wave(tasks, leaves, wave_of, blocks, w);
        let ghost before = waves@;
        waves.push(one);
        proof {
            assert forall|v: int|
                0 <= v < w + 1 implies #[trigger] row_arranged(tasks@, leaves@, blocks@, wave_of@, v, waves@[v]@) by {
                if v < w {
                    assert(waves@[v] == before[v]);
                } else {
                    assert(waves@[v] == one);
                }
            }
            assert forall|v: int, k: int| 0 <= v < w + 1 && 0 <= k < waves@[v]@.len() implies #[trigger] waves@[v]@[k] < leaves.len() by {
                if v < w {
                    assert(waves@[v] == before[v]);
                } else {
                    assert(waves@[v] == one);
                }
            }
        }
        w = w + 1;
    }
    waves
}

/// The leaves of wave `w`, arranged.
fn arrange_wave(tasks: &Vec<TaskListItem>, leaves: &Vec<usize>, wave_of: &Vec<usize>, blocks: &Vec<usize>, w: usize) -> (one: Vec<usize>)
    requires
        wave_of.len() == leaves.len(),
        blocks.len() == leaves.len(),
        forall|k: int| 0 <= k < leaves.len() ==> #[trigger] leaves@[k] < tasks.len(),
    ensures
        row_arranged(tasks@, leaves@, blocks@, wave_of@, w + 0int, one@),
        forall|k: int| 0 <= k < one@.len() ==> #[trigger] one@[k] < leaves.len(),
{
    let n = leaves.len();
    let mut members: Vec<usize> = Vec::new();
    let mut k: usize = 0;
    while k < n
        invariant
            n == leaves.len(),
            wave_of.len() == n,
            k <= n,
            members@ == wave_members(wave_of@, w + 0int, k + 0int),
            forall|j: int| 0 <= j < members@.len() ==> #[trigger] members@[j] < k,
        decreases n - k,
    {
        if wave_of[k] == w {
            members.push(k);
        }
        k = k + 1;
    }
    let ghost ord = member_order(tasks@, leaves@, blocks@, members@);
    let less = |x: usize, y: usize| -> (r: bool)
        requires
            x < members.len(),
            y < members.len(),
            blocks.len() == leaves.len(),
            forall|j: int| 0 <= j < members@.len() ==> #[trigger] members@[j] < leaves.len(),
            forall|k: int| 0 <= k < leaves.len() ==> #[trigger] leaves@[k] < tasks.len(),
        ensures
            r == (member_order(tasks@, leaves@, blocks@, members@)(x, y) == Ordering::Less),
        {
            match leaf_cmp_at(tasks, leaves, blocks, members[x], members[y]) {
                Ordering::Less => true,
                _ => false,
            }
        };
    let order = sort_positions(members.len(), less, Ghost(ord));
    let mut one: Vec<usize> = Vec::new();
    let mut j: usize = 0;
    while j < members.len()
        invariant
            is_permutation(order@, members@.len() + 0int),
            j <= members.len(),
            one@.len() == j,
            forall|i: int| 0 <= i < j ==> one@[i] == members@[order@[i] + 0int],
            forall|i: int| 0 <= i < members@.len() ==> #[trigger] members@[i] < leaves.len(),
            forall|i: int| 0 <= i < j ==> #[trigger] one@[i] < leaves.len(),
        decreases members.len() - j,
    {
        one.push(members[order[j]]);
        j = j + 1;
    }
    proof {
        reveal(wave_arranged);
        assert(wave_arranged(tasks@, leaves@, blocks@, wave_of@, w + 0int, one@, order@));
    }
    one
}

/// The nodes of a flow laid out by `wave_of`, `waves` and `blocks`, with `refs` the references
/// that name no task: every leaf in its wave, how much work waits for it, each wave in order, and
/// the nodes in reading order.
pub open spec fn flow_laid(
    ts: Seq<TaskListItem>,
    members: Seq<bool>,
    leaves: Seq<usize>,
    wave_of: Seq<usize>,
    waves: Vec<Vec<usize>>,
    blocks: Seq<usize>,
    refs: Seq<RefView>,
    nodes: Seq<FlowNodeView>,
) -> bool {
    let g = wait_graph(ts, members, leaves);
    let ws = seqs_of(&waves);
    let es = entries_upto(ws, waves@.len() + 0int);
    &&& is_layering(g, wave_of)
    &&& blocks.len() == leaves.len()
    &&& forall|u: usize| u < leaves.len() ==> #[trigger] blocks[u + 0int] == reach_count(g, u)
    &&& waves_fit(ts, leaves, blocks, wave_of, waves@)
    &&& sorted_unique(declared_refs(ts, members, ts.len() + 0int), ref_order(declared_refs(ts, members, ts.len() + 0int)), refs)
    &&& nodes == reading_nodes(ts, family_parents(ts, members), leaves, ws, blocks, es, es.len() + 0int) + unresolved_nodes(refs)
}

impl Flow {
    /// The implementation order of the tasks the query grows to. Fails, naming the cycles, when
    /// the leaves wait for each other in a cycle: its members never come ready, and the flow does
    /// not answer with an order that does not exist.
    pub fn build(tasks: &Vec<TaskListItem>, query: &FlowQuery) -> (result: Result<Flow, FlowCycles>)
        requires
            unique_coordinates(tasks@),
            tasks.len() * tasks.len() <= usize::MAX,
        ensures
            ({
                let members = flow_members(tasks@, query);
                let leaves = leaves_upto(tasks@, members, tasks.len() + 0int);
                let g = wait_graph(tasks@, members, leaves);
                match result {
                    Ok(flow) => {
                        &&& !has_cycle(g)
                        &&& sorted_unique(
                            declared_edges(tasks@, members, tasks.len() + 0int),
                            edge_order(declared_edges(tasks@, members, tasks.len() + 0int)),
                            edge_views(flow.edges@),
                        )
                        &&& exists|wave_of: Seq<usize>, waves: Vec<Vec<usize>>, blocks: Seq<usize>, refs: Seq<RefView>|
                            #[trigger] flow_laid(tasks@, members, leaves, wave_of, waves, blocks, refs, node_views(flow.nodes@))
                    },
                    Err(found) => {
                        let report = cut_walk_reports(g, behind_cycles(g));
                        &&& has_cycle(g)
                        &&& report.len() > 0
                        &&& is_cycle_report(g, report)
                        &&& cycles_reported(leaf_ids(tasks@, leaves), report, text_lists_of(&found.cycles))
                    },
                }
            }),
    {
        let ghost ts = tasks@;
        let n = tasks.len();
        let included = grow(tasks, query);
        let ghost members = included@;
        proof {
            assert(members =~= flow_members(ts, query));
        }
        let family = family_of(tasks, &included);
        let mut leaves: Vec<usize> = Vec::new();
        let mut i: usize = 0;
        while i < n
            invariant
                ts == tasks@,
                n == tasks.len(),
                members == included@,
                included.len() == n,
                family.holds.len() == n,
                forall|p: int| 0 <= p < n ==> #[trigger] family.holds[p] == crate::family::holds(ts, members, p),
                i <= n,
                leaves@ == leaves_upto(ts, members, i + 0int),
                forall|k: int| 0 <= k < leaves@.len() ==> #[trigger] leaves@[k] < i,
            decreases n - i,
        {
            if included[i] && !family.holds[i] {
                leaves.push(i);
            }
            i = i + 1;
        }
        proof {
            assert(leaves@.len() <= n) by {
                crate::layout::lemma_leaves_upto_len(ts, members, n + 0int);
            }
            assert(leaves@.len() * leaves@.len() <= n * n) by (nonlinear_arith)
                requires
                    leaves@.len() <= n,
            ;
            assert(n <= 1 || n < n * n) by (nonlinear_arith);
        }
        let layout = match Layout::build(tasks, &family, Ghost(members), &included, leaves) {
            Ok(layout) => layout,
            Err(found) => {
                return Err(found);
            },
        };
        let (edges, unresolved) = wire(tasks, &included);
        let laid = nodes(tasks, &family, Ghost(members), &layout, &unresolved);
        let flow = Flow { nodes: laid, edges };
        proof {
            let leaves_spec = leaves_upto(ts, members, n + 0int);
            assert(flow_laid(ts, members, leaves_spec, layout.wave_of@, layout.waves, layout.blocks@, crate::wiring::ref_views(unresolved@), node_views(flow.nodes@)));
        }
        Ok(flow)
    }
}

} // verus!
