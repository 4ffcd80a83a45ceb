//! Which tasks a flow holds: the seeds a query selects, and what the flow needs around them.
use vstd::prelude::*;

use crate::keys::{ref_target, target_of};
use crate::metadata::{dependencies_of, lemma_metadata_view, parent_of, status_of, tags_of};
use crate::status::Status;
use crate::task::TaskListItem;
use crate::layering::falses;
use crate::graph::{count_true, lemma_count_true_bound, lemma_count_true_mark, lemma_count_none_true};
use crate::text::same_chars;

verus! {

/// Which tasks the flow grows from. Values of one field are alternatives, and the fields narrow
/// each other; an empty field puts no condition of its own. A named task carries its project,
/// because two stores can commit the same abbreviation.
#[derive(Debug, PartialEq, Eq)]
pub struct FlowQuery {
    pub projects: Vec<String>,
    pub statuses: Vec<Status>,
    pub tasks: Vec<(String, String)>,
    pub tags: Vec<String>,
}

/// The coordinate a task sits at: its project and its id.
pub open spec fn coord(t: TaskListItem) -> (Seq<char>, Seq<char>) {
    (t.project@, t.id@)
}

/// No two tasks sit at one coordinate.
pub open spec fn unique_coordinates(ts: Seq<TaskListItem>) -> bool {
    forall|i: int, j: int| 0 <= i < j < ts.len() ==> coord(#[trigger] ts[i]) != coord(#[trigger] ts[j])
}

/// The position of the last task at `c`.
pub open spec fn position_at(ts: Seq<TaskListItem>, c: (Seq<char>, Seq<char>)) -> Option<int>
    decreases ts.len(),
{
    if ts.len() == 0 {
        None
    } else if coord(ts.last()) == c {
        Some(ts.len() - 1)
    } else {
        position_at(ts.drop_last(), c)
    }
}

/// A task somebody can still implement: any whose status is not `done` or `cancelled`, one whose
/// status does not read included.
pub open spec fn remaining(t: TaskListItem) -> bool {
    status_of(&t.metadata) != Some(Status::Done) && status_of(&t.metadata) != Some(Status::Cancelled)
}

/// The dependencies a task still declares: none once nobody can complete it.
pub open spec fn live_dependencies(t: TaskListItem) -> Seq<String> {
    if remaining(t) {
        dependencies_of(&t.metadata)
    } else {
        Seq::empty()
    }
}

/// The position of the task a dependency names, inside the project of the task at `i`.
pub open spec fn dependency_position(ts: Seq<TaskListItem>, i: int, d: Seq<char>) -> Option<int> {
    position_at(ts, (ts[i].project@, target_of(d)))
}

/// The position of the task the task at `i` names as parent, inside its own project.
pub open spec fn parent_position(ts: Seq<TaskListItem>, i: int) -> Option<int> {
    match parent_of(&ts[i].metadata) {
        Some(p) => position_at(ts, (ts[i].project@, p)),
        None => None,
    }
}

/// The task at `a` brings the one at `b` into the flow: a remaining task it waits for, its parent,
/// or a remaining child of it.
pub open spec fn grows_to(ts: Seq<TaskListItem>, a: int, b: int) -> bool {
    ||| exists|k: int|
        0 <= k < live_dependencies(ts[a]).len() && dependency_position(
            ts,
            a,
            (#[trigger] live_dependencies(ts[a])[k])@,
        ) == Some(b) && remaining(ts[b])
    ||| parent_position(ts, a) == Some(b)
    ||| parent_position(ts, b) == Some(a) && remaining(ts[b])
}

/// Whether the query selects the task as a seed. With no status named, every task to do is one:
/// the flow orders the work that is ready to start, and grows from there to what it needs.
pub open spec fn selects(query: &FlowQuery, t: TaskListItem) -> bool {
    &&& query.projects@.len() == 0 || exists|k: int|
        0 <= k < query.projects@.len() && (#[trigger] query.projects@[k])@ == t.project@
    &&& if query.statuses@.len() == 0 {
        status_of(&t.metadata) == Some(Status::Todo)
    } else {
        status_of(&t.metadata) matches Some(s) && query.statuses@.contains(s)
    }
    &&& query.tasks@.len() == 0 || exists|k: int|
        0 <= k < query.tasks@.len() && (#[trigger] query.tasks@[k]).0@ == t.project@
            && query.tasks@[k].1@ == t.id@
    &&& query.tags@.len() == 0 || exists|k: int, m: int|
        0 <= k < tags_of(&t.metadata).len() && 0 <= m < query.tags@.len()
            && (#[trigger] tags_of(&t.metadata)[k])@ == (#[trigger] query.tags@[m])@
}

/// A walk of `grows_to` steps from a seed.
pub open spec fn growth_path(ts: Seq<TaskListItem>, query: &FlowQuery, p: Seq<int>) -> bool {
    &&& p.len() >= 1
    &&& forall|k: int| 0 <= k < p.len() ==> 0 <= #[trigger] p[k] < ts.len()
    &&& selects(query, ts[p[0]])
    &&& forall|k: int| 0 <= k < p.len() - 1 ==> grows_to(ts, #[trigger] p[k], p[k + 1])
}

/// The task at `i` belongs in the flow: some walk of steps from a seed reaches it.
pub open spec fn in_flow(ts: Seq<TaskListItem>, query: &FlowQuery, i: int) -> bool {
    exists|p: Seq<int>| #[trigger] growth_path(ts, query, p) && p.last() == i
}

/// The position of the last task at the coordinate `project`, `id`.
pub fn position_of(tasks: &Vec<TaskListItem>, project: &str, id: &str) -> (at: Option<usize>)
    ensures
        match at {
            Some(a) => position_at(tasks@, (project@, id@)) == Some(a as int),
            None => position_at(tasks@, (project@, id@)) is None,
        },
{
    let ghost ts = tasks@;
    let ghost c = (project@, id@);
    let mut i: usize = tasks.len();
    proof {
        assert(ts.take(i as int) =~= ts);
    }
    while i > 0
        invariant
            ts == tasks@,
            c == (project@, id@),
            i <= tasks.len(),
            position_at(ts, c) == position_at(ts.take(i as int), c),
        decreases i,
    {
        let t = &tasks[i - 1];
        proof {
            assert(ts.take(i as int).drop_last() =~= ts.take(i - 1));
            assert(ts.take(i as int).last() == ts[i - 1]);
        }
        if same_chars(t.project.as_str(), project) && same_chars(t.id.as_str(), id) {
            return Some(i - 1);
        }
        i = i - 1;
    }
    None
}

/// Whether somebody can still implement the task.
pub fn is_remaining(task: &TaskListItem) -> (left: bool)
    ensures
        left == remaining(*task),
{
    match task.metadata.status() {
        Some(Status::Done) => false,
        Some(Status::Cancelled) => false,
        _ => true,
    }
}

/// Whether one of `names` is `name`.
fn names_hold(names: &Vec<String>, name: &str) -> (found: bool)
    ensures
        found == exists|k: int| 0 <= k < names@.len() && (#[trigger] names@[k])@ == name@,
{
    let mut k: usize = 0;
    while k < names.len()
        invariant
            k <= names.len(),
            forall|j: int| 0 <= j < k ==> names@[j]@ != name@,
        decreases names.len() - k,
    {
        if same_chars(names[k].as_str(), name) {
            return true;
        }
        k = k + 1;
    }
    false
}

/// Whether one of `statuses` is `status`.
fn statuses_hold(statuses: &Vec<Status>, status: Status) -> (found: bool)
    ensures
        found == statuses@.contains(status),
{
    let mut k: usize = 0;
    while k < statuses.len()
        invariant
            k <= statuses.len(),
            forall|j: int| 0 <= j < k ==> statuses@[j] != status,
        decreases statuses.len() - k,
    {
        if statuses[k] == status {
            proof {
                assert(statuses@[k as int] == status);
            }
            return true;
        }
        k = k + 1;
    }
    false
}

impl Default for FlowQuery {
    /// A query that names nothing: every task to do seeds the flow.
    fn default() -> (query: Self)
        ensures
            query.projects@.len() == 0,
            query.statuses@.len() == 0,
            query.tasks@.len() == 0,
            query.tags@.len() == 0,
    {
        FlowQuery { projects: Vec::new(), statuses: Vec::new(), tasks: Vec::new(), tags: Vec::new() }
    }
}

impl FlowQuery {
    /// Whether the query selects the task as a seed of the flow.
    pub fn selects(&self, task: &TaskListItem) -> (chosen: bool)
        ensures
            chosen == selects(self, *task),
    {
        let by_project = self.projects.len() == 0 || names_hold(&self.projects, task.project.as_str());
        let by_status = if self.statuses.len() == 0 {
            match task.metadata.status() {
                Some(Status::Todo) => true,
                _ => false,
            }
        } else {
            match task.metadata.status() {
                Some(status) => statuses_hold(&self.statuses, status),
                None => false,
            }
        };
        let mut by_key = self.tasks.len() == 0;
        let mut k: usize = 0;
        while k < self.tasks.len() && !by_key
            invariant
                k <= self.tasks.len(),
                by_key == (self.tasks@.len() == 0 || exists|j: int|
                    0 <= j < k && (#[trigger] self.tasks@[j]).0@ == task.project@
                        && self.tasks@[j].1@ == task.id@),
            decreases self.tasks.len() - k,
        {
            let (project, id) = &self.tasks[k];
            if same_chars(project.as_str(), task.project.as_str()) && same_chars(id.as_str(), task.id.as_str()) {
                by_key = true;
            }
            k = k + 1;
        }
        let tags = task.metadata.tags();
        let mut by_tag = self.tags.len() == 0;
        let mut m: usize = 0;
        while m < tags.len() && !by_tag
            invariant
                m <= tags@.len(),
                tags@ == tags_of(&task.metadata),
                by_tag == (self.tags@.len() == 0 || exists|k: int, j: int|
                    0 <= k < m && 0 <= j < self.tags@.len() && (#[trigger] tags@[k])@
                        == (#[trigger] self.tags@[j])@),
            decreases tags@.len() - m,
        {
            if names_hold(&self.tags, tags[m].as_str()) {
                by_tag = true;
            }
            m = m + 1;
        }
        by_project && by_status && by_key && by_tag
    }
}

/// With no two tasks at one coordinate, the position found at a coordinate is the one task there.
pub proof fn lemma_position_at(ts: Seq<TaskListItem>, c: (Seq<char>, Seq<char>))
    ensures
        position_at(ts, c) matches Some(a) ==> 0 <= a < ts.len() && coord(ts[a]) == c,
        position_at(ts, c) is None ==> forall|i: int| 0 <= i < ts.len() ==> coord(#[trigger] ts[i]) != c,
        unique_coordinates(ts) ==> forall|i: int|
            0 <= i < ts.len() && coord(#[trigger] ts[i]) == c ==> position_at(ts, c) == Some(i),
    decreases ts.len(),
{
    if ts.len() > 0 {
        lemma_position_at(ts.drop_last(), c);
        assert forall|i: int| 0 <= i < ts.len() - 1 implies #[trigger] ts.drop_last()[i] == ts[i] by {}
        if position_at(ts, c) is None {
            assert forall|i: int| 0 <= i < ts.len() implies coord(#[trigger] ts[i]) != c by {
                if i < ts.len() - 1 {
                    assert(ts.drop_last()[i] == ts[i]);
                }
            }
        }
        if unique_coordinates(ts) {
            assert(unique_coordinates(ts.drop_last())) by {
                assert forall|i: int, j: int| 0 <= i < j < ts.drop_last().len() implies coord(#[trigger] ts.drop_last()[i]) != coord(#[trigger] ts.drop_last()[j]) by {
                    assert(coord(ts[i]) != coord(ts[j]));
                }
            }
            assert forall|i: int| 0 <= i < ts.len() && coord(#[trigger] ts[i]) == c implies position_at(ts, c) == Some(i) by {
                if i < ts.len() - 1 {
                    assert(coord(ts[i]) != coord(ts[ts.len() - 1]));
                    assert(coord(ts.drop_last()[i]) == c);
                }
            }
        }
    }
}

/// Whether some queued position is `x`.
pub open spec fn queued(queue: Seq<usize>, x: int) -> bool {
    exists|k: int| 0 <= k < queue.len() && queue[k] == x
}

/// The task a dependency of the task at `at` names is queued, if it resolves and is remaining.
pub open spec fn dependency_queued(ts: Seq<TaskListItem>, at: int, d: Seq<char>, queue: Seq<usize>) -> bool {
    match dependency_position(ts, at, d) {
        Some(b) => remaining(ts[b]) ==> queued(queue, b),
        None => true,
    }
}

/// Queues the remaining tasks the task at `at` waits for.
fn queue_dependencies(tasks: &Vec<TaskListItem>, at: usize, queue: &mut Vec<usize>)
    requires
        at < tasks.len(),
    ensures
        final(queue)@.len() >= old(queue)@.len(),
        final(queue)@.take(old(queue)@.len() as int) == old(queue)@,
        forall|k: int| old(queue)@.len() <= k < final(queue)@.len() ==> #[trigger] final(queue)@[k] < tasks.len() && grows_to(tasks@, at as int, final(queue)@[k] as int),
        forall|k: int|
            0 <= k < live_dependencies(tasks@[at as int]).len() ==> dependency_queued(
                tasks@,
                at as int,
                (#[trigger] live_dependencies(tasks@[at as int])[k])@,
                final(queue)@,
            ),
{
    let ghost ts = tasks@;
    let ghost q0 = queue@;
    let task = &tasks[at];
    if !is_remaining(task) {
        proof {
            assert(queue@.take(q0.len() as int) =~= q0);
        }
        return;
    }
    let deps = task.metadata.dependencies();
    let mut k: usize = 0;
    proof {
        assert(queue@.take(q0.len() as int) =~= q0);
    }
    while k < deps.len()
        invariant
            ts == tasks@,
            at < tasks.len(),
            remaining(ts[at as int]),
            *task == ts[at as int],
            deps@ == live_dependencies(ts[at as int]),
            k <= deps@.len(),
            queue@.len() >= q0.len(),
            queue@.take(q0.len() as int) == q0,
            forall|j: int| q0.len() <= j < queue@.len() ==> #[trigger] queue@[j] < tasks.len() && grows_to(ts, at as int, queue@[j] as int),
            forall|j: int|
                0 <= j < k ==> dependency_queued(ts, at as int, (#[trigger] deps@[j])@, queue@),
        decreases deps@.len() - k,
    {
        let target = ref_target(deps[k].as_str());
        let ghost before = queue@;
        let ghost d = deps@[k as int]@;
        proof {
            assert(target@ == target_of(d));
        }
        let project = task.project.as_str();
        match position_of(tasks, project, target) {
            Some(b) => {
                proof {
                    assert(project@ == ts[at as int].project@);
                    lemma_position_at(ts, (ts[at as int].project@, target@));
                    assert(position_at(ts, (ts[at as int].project@, target_of(d))) == Some(b as int));
                    assert(dependency_position(ts, at as int, d) == Some(b as int));
                    assert(b < ts.len());
                }
                if is_remaining(&tasks[b]) {
                    queue.push(b);
                    proof {
                        assert(queue@[queue@.len() - 1] == b);
                        assert(grows_to(ts, at as int, b as int)) by {
                            assert(0 <= k < live_dependencies(ts[at as int]).len());
                            assert(dependency_position(ts, at as int, (live_dependencies(ts[at as int])[k as int])@) == Some(b as int));
                        }
                        assert(queued(queue@, b as int));
                    }
                }
            },
            None => {},
        }
        proof {
            assert(queue@.take(before.len() as int) =~= before);
            assert forall|j: int| 0 <= j < k + 1 implies dependency_queued(ts, at as int, (#[trigger] deps@[j])@, queue@) by {
                if j < k {
                    assert(dependency_queued(ts, at as int, deps@[j]@, before));
                    if let Some(x) = dependency_position(ts, at as int, deps@[j]@) {
                        if remaining(ts[x]) {
                            let w = choose|w: int| 0 <= w < before.len() && before[w] == x;
                            assert(queue@[w] == before[w]);
                        }
                    }
                }
            }
        }
        proof {
            assert(queue@.take(q0.len() as int) =~= before.take(q0.len() as int));
        }
        k = k + 1;
    }
}

/// Queues the parent of the task at `at`, where it names one that resolves.
fn queue_parent(tasks: &Vec<TaskListItem>, at: usize, queue: &mut Vec<usize>)
    requires
        at < tasks.len(),
    ensures
        final(queue)@.len() >= old(queue)@.len(),
        final(queue)@.take(old(queue)@.len() as int) == old(queue)@,
        forall|k: int| old(queue)@.len() <= k < final(queue)@.len() ==> #[trigger] final(queue)@[k] < tasks.len() && grows_to(tasks@, at as int, final(queue)@[k] as int),
        parent_position(tasks@, at as int) matches Some(p) ==> queued(final(queue)@, p),
{
    let ghost ts = tasks@;
    let ghost q0 = queue@;
    let task = &tasks[at];
    proof {
        lemma_metadata_view(&task.metadata);
    }
    match task.metadata.parent() {
        Some(parent) => {
            let project = task.project.as_str();
            match position_of(tasks, project, parent) {
                Some(p) => {
                    proof {
                        lemma_position_at(ts, (ts[at as int].project@, parent@));
                    }
                    queue.push(p);
                    proof {
                        assert(queue@[queue@.len() - 1] == p);
                        assert(queued(queue@, p as int));
                    }
                },
                None => {},
            }
        },
        None => {},
    }
    proof {
        assert(queue@.take(q0.len() as int) =~= q0);
    }
}

/// Queues the remaining tasks that name the task at `at` as their parent.
fn queue_children(tasks: &Vec<TaskListItem>, at: usize, queue: &mut Vec<usize>)
    requires
        at < tasks.len(),
        unique_coordinates(tasks@),
    ensures
        final(queue)@.len() >= old(queue)@.len(),
        final(queue)@.take(old(queue)@.len() as int) == old(queue)@,
        forall|k: int| old(queue)@.len() <= k < final(queue)@.len() ==> #[trigger] final(queue)@[k] < tasks.len() && grows_to(tasks@, at as int, final(queue)@[k] as int),
        forall|b: int|
            0 <= b < tasks.len() && #[trigger] parent_position(tasks@, b) == Some(at as int) && remaining(tasks@[b]) ==> queued(final(queue)@, b),
{
    let ghost ts = tasks@;
    let ghost q0 = queue@;
    let mut b: usize = 0;
    proof {
        assert(queue@.take(q0.len() as int) =~= q0);
    }
    while b < tasks.len()
        invariant
            ts == tasks@,
            at < tasks.len(),
            unique_coordinates(ts),
            b <= tasks.len(),
            queue@.len() >= q0.len(),
            queue@.take(q0.len() as int) == q0,
            forall|k: int| q0.len() <= k < queue@.len() ==> #[trigger] queue@[k] < tasks.len() && grows_to(ts, at as int, queue@[k] as int),
            forall|x: int|
                0 <= x < b && #[trigger] parent_position(ts, x) == Some(at as int) && remaining(ts[x]) ==> queued(queue@, x),
        decreases tasks.len() - b,
    {
        let child = &tasks[b];
        let parent = &tasks[at];
        proof {
            lemma_metadata_view(&child.metadata);
            lemma_position_at(ts, coord(ts[at as int]));
            if let Some(p) = parent_of(&child.metadata) {
                lemma_position_at(ts, (ts[b as int].project@, p));
            }
        }
        let names = match child.metadata.parent() {
            Some(p) => same_chars(child.project.as_str(), parent.project.as_str()) && same_chars(p, parent.id.as_str()),
            None => false,
        };
        let ghost before = queue@;
        if names && is_remaining(child) {
            queue.push(b);
            proof {
                assert(parent_position(ts, b as int) == Some(at as int));
                assert(queue@[queue@.len() - 1] == b);
            }
        }
        proof {
            assert(queue@.take(before.len() as int) =~= before);
            assert(queue@.take(q0.len() as int) =~= before.take(q0.len() as int));
            assert forall|x: int|
                0 <= x < b + 1 && #[trigger] parent_position(ts, x) == Some(at as int) && remaining(ts[x]) implies queued(queue@, x) by {
                if x < b {
                    let w = choose|w: int| 0 <= w < before.len() && before[w] == x;
                    assert(queue@[w] == before[w]);
                } else {
                    assert(names);
                    assert(queue@[queue@.len() - 1] == x);
                }
            }
        }
        b = b + 1;
    }
}

/// Everything a flow holds closes under `grows_to`: a closed set that holds every seed holds
/// every task a walk from a seed reaches.
proof fn lemma_closed_holds_walks(ts: Seq<TaskListItem>, query: &FlowQuery, held: Seq<bool>, p: Seq<int>)
    requires
        held.len() == ts.len(),
        growth_path(ts, query, p),
        forall|s: int| 0 <= s < ts.len() && selects(query, #[trigger] ts[s]) ==> held[s],
        forall|a: int, b: int| 0 <= a < ts.len() && 0 <= b < ts.len() && held[a] && #[trigger] grows_to(ts, a, b) ==> held[b],
    ensures
        held[p.last()],
    decreases p.len(),
{
    if p.len() > 1 {
        let q = p.drop_last();
        assert forall|k: int| 0 <= k < q.len() - 1 implies grows_to(ts, #[trigger] q[k], q[k + 1]) by {
            assert(grows_to(ts, p[k], p[k + 1]));
        }
        lemma_closed_holds_walks(ts, query, held, q);
        assert(grows_to(ts, p[p.len() - 2], p[p.len() - 1]));
    }
}

/// A walk that reaches `a`, one step further, reaches `b`.
proof fn lemma_walk_extends(ts: Seq<TaskListItem>, query: &FlowQuery, a: int, b: int)
    requires
        in_flow(ts, query, a),
        0 <= b < ts.len(),
        grows_to(ts, a, b),
    ensures
        in_flow(ts, query, b),
{
    let p = choose|p: Seq<int>| #[trigger] growth_path(ts, query, p) && p.last() == a;
    let q = p.push(b);
    assert forall|k: int| 0 <= k < q.len() - 1 implies grows_to(ts, #[trigger] q[k], q[k + 1]) by {
        if k < p.len() - 1 {
            assert(grows_to(ts, p[k], p[k + 1]));
        }
    }
    assert(growth_path(ts, query, q));
}

/// What the growth keeps true: everything queued or held belongs in the flow, and every seed and
/// every step out of a held task is held or queued.
pub open spec fn growth_state(ts: Seq<TaskListItem>, query: &FlowQuery, held: Seq<bool>, queue: Seq<usize>) -> bool {
    &&& held.len() == ts.len()
    &&& forall|k: int| 0 <= k < queue.len() ==> #[trigger] queue[k] < ts.len() && in_flow(ts, query, queue[k] as int)
    &&& forall|x: int| 0 <= x < ts.len() && #[trigger] held[x] ==> in_flow(ts, query, x)
    &&& forall|s: int| 0 <= s < ts.len() && selects(query, #[trigger] ts[s]) ==> held[s] || queued(queue, s)
    &&& forall|a: int, b: int|
        0 <= a < ts.len() && 0 <= b < ts.len() && held[a] && #[trigger] grows_to(ts, a, b) ==> held[b] || queued(queue, b)
}

/// Popping a task the flow holds already keeps the state.
proof fn lemma_pop_held(ts: Seq<TaskListItem>, query: &FlowQuery, held: Seq<bool>, queue: Seq<usize>, at: usize)
    requires
        growth_state(ts, query, held, queue.push(at)),
        at < ts.len(),
        held[at as int],
    ensures
        growth_state(ts, query, held, queue),
{
    let q = queue.push(at);
    assert forall|k: int| 0 <= k < queue.len() implies #[trigger] queue[k] < ts.len() && in_flow(ts, query, queue[k] as int) by {
        assert(q[k] == queue[k]);
    }
    assert forall|s: int| 0 <= s < ts.len() && selects(query, #[trigger] ts[s]) implies held[s] || queued(queue, s) by {
        if !held[s] {
            let w = choose|w: int| 0 <= w < q.len() && q[w] == s;
            assert(w < queue.len());
            assert(queue[w] == s);
        }
    }
    assert forall|a: int, b: int|
        0 <= a < ts.len() && 0 <= b < ts.len() && held[a] && #[trigger] grows_to(ts, a, b) implies held[b] || queued(queue, b) by {
        if !held[b] {
            let w = choose|w: int| 0 <= w < q.len() && q[w] == b;
            assert(w < queue.len());
            assert(queue[w] == b);
        }
    }
}

/// Takes a popped task into the flow and queues every task it brings in.
fn take_in(tasks: &Vec<TaskListItem>, Ghost(query): Ghost<&FlowQuery>, at: usize, included: &mut Vec<bool>, queue: &mut Vec<usize>)
    requires
        unique_coordinates(tasks@),
        at < tasks.len(),
        growth_state(tasks@, query, old(included)@, old(queue)@.push(at)),
        !old(included)@[at as int],
    ensures
        final(included)@ == old(included)@.update(at as int, true),
        growth_state(tasks@, query, final(included)@, final(queue)@),
{
    let ghost ts = tasks@;
    let ghost popped = queue@;
    let ghost q_before = popped.push(at);
    let ghost held_before = included@;
    proof {
        assert(q_before[q_before.len() - 1] == at);
        assert(in_flow(ts, query, at as int));
    }
    included.set(at, true);
    let ghost start = queue@;
    queue_dependencies(tasks, at, queue);
    let ghost after_dependencies = queue@;
    queue_parent(tasks, at, queue);
    let ghost after_parent = queue@;
    queue_children(tasks, at, queue);
    proof {
        assert forall|w: int| 0 <= w < after_dependencies.len() implies #[trigger] queue@[w] == after_dependencies[w] by {
            assert(queue@[w] == queue@.take(after_parent.len() as int)[w]);
            assert(after_parent[w] == after_parent.take(after_dependencies.len() as int)[w]);
        }
        assert forall|w: int| 0 <= w < start.len() implies #[trigger] after_dependencies[w] == start[w] by {
            assert(after_dependencies[w] == after_dependencies.take(start.len() as int)[w]);
        }
        assert forall|w: int| 0 <= w < after_parent.len() implies #[trigger] queue@[w] == after_parent[w] by {
            assert(queue@[w] == queue@.take(after_parent.len() as int)[w]);
        }
        assert forall|k: int| 0 <= k < queue@.len() implies #[trigger] queue@[k] < ts.len() && in_flow(ts, query, queue@[k] as int) by {
            if k < start.len() {
                assert(queue@[k] == after_dependencies[k]);
                assert(after_dependencies[k] == start[k]);
                assert(q_before[k] == start[k]);
            } else {
                lemma_walk_extends(ts, query, at as int, queue@[k] as int);
            }
        }
        assert forall|x: int| 0 <= x < ts.len() && #[trigger] included@[x] implies in_flow(ts, query, x) by {
            if x != at {
                assert(held_before[x]);
            }
        }
        assert forall|s: int| 0 <= s < ts.len() && selects(query, #[trigger] ts[s]) implies included@[s] || queued(queue@, s) by {
            if !included@[s] {
                let w = choose|w: int| 0 <= w < q_before.len() && q_before[w] == s;
                assert(w < popped.len());
                assert(queue@[w] == after_dependencies[w]);
                assert(after_dependencies[w] == start[w]);
            }
        }
        assert forall|b: int| 0 <= b < ts.len() && #[trigger] grows_to(ts, at as int, b) implies queued(queue@, b) by {
            if parent_position(ts, at as int) == Some(b) {
                let w = choose|w: int| 0 <= w < after_parent.len() && after_parent[w] == b;
                assert(queue@[w] == after_parent[w]);
            } else if parent_position(ts, b) == Some(at as int) && remaining(ts[b]) {
            } else {
                let k = choose|k: int|
                    0 <= k < live_dependencies(ts[at as int]).len() && dependency_position(
                        ts,
                        at as int,
                        (#[trigger] live_dependencies(ts[at as int])[k])@,
                    ) == Some(b) && remaining(ts[b]);
                assert(dependency_queued(ts, at as int, live_dependencies(ts[at as int])[k]@, after_dependencies));
                let w = choose|w: int| 0 <= w < after_dependencies.len() && after_dependencies[w] == b;
                assert(queue@[w] == after_dependencies[w]);
            }
        }
        assert forall|a: int, b: int|
            0 <= a < ts.len() && 0 <= b < ts.len() && included@[a] && #[trigger] grows_to(ts, a, b) implies included@[b] || queued(queue@, b) by {
            if a != at && !included@[b] {
                assert(held_before[a]);
                let w = choose|w: int| 0 <= w < q_before.len() && q_before[w] == b;
                assert(w < popped.len());
                assert(queue@[w] == after_dependencies[w]);
                assert(after_dependencies[w] == start[w]);
            }
        }
    }
}

/// The tasks the flow holds: the seeds the query selects, and what each task of the flow brings
/// in, until nothing new arrives. The whole reachable neighbourhood lands in the set, and no depth
/// bounds it.
pub fn grow(tasks: &Vec<TaskListItem>, query: &FlowQuery) -> (included: Vec<bool>)
    requires
        unique_coordinates(tasks@),
    ensures
        included.len() == tasks.len(),
        forall|i: int| 0 <= i < tasks.len() ==> #[trigger] included[i] == in_flow(tasks@, query, i),
{
    let ghost ts = tasks@;
    let n = tasks.len();
    let mut included = falses(n);
    let mut queue: Vec<usize> = Vec::new();
    let mut i: usize = 0;
    while i < n
        invariant
            ts == tasks@,
            n == tasks.len(),
            i <= n,
            forall|k: int| 0 <= k < queue@.len() ==> #[trigger] queue@[k] < n && in_flow(ts, query, queue@[k] as int),
            forall|s: int| 0 <= s < i && selects(query, #[trigger] ts[s]) ==> queued(queue@, s),
        decreases n - i,
    {
        let ghost before = queue@;
        if query.selects(&tasks[i]) {
            queue.push(i);
            proof {
                let p = seq![i as int];
                assert(growth_path(ts, query, p));
                assert(queue@[queue@.len() - 1] == i);
            }
        }
        proof {
            assert forall|s: int| 0 <= s < i + 1 && selects(query, #[trigger] ts[s]) implies queued(queue@, s) by {
                if s < i {
                    let w = choose|w: int| 0 <= w < before.len() && before[w] == s;
                    assert(queue@[w] == before[w]);
                }
            }
        }
        i = i + 1;
    }
    let mut count: usize = 0;
    proof {
        lemma_count_none_true(n as nat);
        assert(growth_state(ts, query, included@, queue@));
    }
    while queue.len() > 0
        invariant
            ts == tasks@,
            n == tasks.len(),
            unique_coordinates(ts),
            included.len() == n,
            count == count_true(included@),
            growth_state(ts, query, included@, queue@),
        decreases n - count, queue.len(),
    {
        let ghost q_before = queue@;
        let at = queue.pop().unwrap();
        proof {
            assert(q_before == queue@.push(at));
            assert(at < n);
            lemma_count_true_bound(included@);
        }
        if included[at] {
            proof {
                lemma_pop_held(ts, query, included@, queue@, at);
            }
        } else {
            proof {
                lemma_count_true_mark(included@, at as int);
                lemma_count_true_bound(included@.update(at as int, true));
            }
            take_in(tasks, Ghost(query), at, &mut included, &mut queue);
            count = count + 1;
        }
    }
    proof {
        assert forall|i: int| 0 <= i < n implies #[trigger] included[i] == in_flow(ts, query, i) by {
            if in_flow(ts, query, i) {
                let p = choose|p: Seq<int>| #[trigger] growth_path(ts, query, p) && p.last() == i;
                lemma_closed_holds_walks(ts, query, included@, p);
            }
        }
    }
    included
}


/// Naming more statuses never drops a seed: where two queries agree on projects, tasks and tags,
/// and every status the second names the first names too, in whatever place, each task the second
/// selects the first selects as well. So the order of the statuses named does not matter.
pub proof fn lemma_more_statuses_select_more(wide: &FlowQuery, narrow: &FlowQuery, t: TaskListItem)
    requires
        wide.projects@ == narrow.projects@,
        wide.tasks@ == narrow.tasks@,
        wide.tags@ == narrow.tags@,
        narrow.statuses@.len() > 0,
        forall|i: int| 0 <= i < narrow.statuses@.len() ==> exists|j: int|
            0 <= j < wide.statuses@.len() && wide.statuses@[j] == #[trigger] narrow.statuses@[i],
    ensures
        selects(narrow, t) ==> selects(wide, t),
{
    if selects(narrow, t) {
        let s = status_of(&t.metadata)->0;
        let i = choose|i: int| 0 <= i < narrow.statuses@.len() && narrow.statuses@[i] == s;
        let j = choose|j: int| 0 <= j < wide.statuses@.len() && wide.statuses@[j] == #[trigger] narrow.statuses@[i];
        assert(wide.statuses@[j] == s);
        assert(wide.statuses@.contains(s));
        assert(wide.statuses@.len() > 0);
    }
}

/// With statuses named, a task whose status reads as none of them, or does not read, seeds no
/// flow; without any named, only a task to do seeds one.
pub proof fn lemma_unnamed_status_not_selected(query: &FlowQuery, t: TaskListItem)
    ensures
        query.statuses@.len() > 0 && (forall|i: int|
            0 <= i < query.statuses@.len() ==> status_of(&t.metadata) != Some(#[trigger] query.statuses@[i]))
            ==> !selects(query, t),
        query.statuses@.len() == 0 && selects(query, t) ==> status_of(&t.metadata) == Some(Status::Todo),
{
    if query.statuses@.len() > 0 && selects(query, t) {
        let s = status_of(&t.metadata)->0;
        let i = choose|i: int| 0 <= i < query.statuses@.len() && query.statuses@[i] == s;
        assert(status_of(&t.metadata) == Some(query.statuses@[i]));
    }
}

/// A wider query selects every seed a narrower one does: where each value the narrower one names,
/// in any field and at any place, the wider one names too, and the wider one leaves a field open
/// only where the narrower one does, or, for projects, tasks and tags, leaves it open anyway.
pub proof fn lemma_wider_query_selects_more(wide: &FlowQuery, narrow: &FlowQuery, t: TaskListItem)
    requires
        narrow.projects@.len() == 0 ==> wide.projects@.len() == 0,
        forall|i: int| 0 <= i < narrow.projects@.len() ==> exists|j: int|
            0 <= j < wide.projects@.len() && wide.projects@[j]@ == (#[trigger] narrow.projects@[i])@,
        narrow.statuses@.len() == 0 <==> wide.statuses@.len() == 0,
        forall|i: int| 0 <= i < narrow.statuses@.len() ==> exists|j: int|
            0 <= j < wide.statuses@.len() && wide.statuses@[j] == #[trigger] narrow.statuses@[i],
        narrow.tasks@.len() == 0 ==> wide.tasks@.len() == 0,
        forall|i: int| 0 <= i < narrow.tasks@.len() ==> exists|j: int|
            0 <= j < wide.tasks@.len() && wide.tasks@[j].0@ == (#[trigger] narrow.tasks@[i]).0@
                && wide.tasks@[j].1@ == narrow.tasks@[i].1@,
        narrow.tags@.len() == 0 ==> wide.tags@.len() == 0,
        forall|i: int| 0 <= i < narrow.tags@.len() ==> exists|j: int|
            0 <= j < wide.tags@.len() && wide.tags@[j]@ == (#[trigger] narrow.tags@[i])@,
    ensures
        selects(narrow, t) ==> selects(wide, t),
{
    if selects(narrow, t) {
        if wide.projects@.len() > 0 {
            let k = choose|k: int| 0 <= k < narrow.projects@.len() && (#[trigger] narrow.projects@[k])@ == t.project@;
            let j = choose|j: int| 0 <= j < wide.projects@.len() && wide.projects@[j]@ == (#[trigger] narrow.projects@[k])@;
            assert((wide.projects@[j])@ == t.project@);
        }
        if wide.statuses@.len() > 0 {
            let s = status_of(&t.metadata)->0;
            let i = choose|i: int| 0 <= i < narrow.statuses@.len() && narrow.statuses@[i] == s;
            let j = choose|j: int| 0 <= j < wide.statuses@.len() && wide.statuses@[j] == #[trigger] narrow.statuses@[i];
            assert(wide.statuses@[j] == s);
            assert(wide.statuses@.contains(s));
        }
        if wide.tasks@.len() > 0 {
            let k = choose|k: int| 0 <= k < narrow.tasks@.len() && (#[trigger] narrow.tasks@[k]).0@ == t.project@
                && narrow.tasks@[k].1@ == t.id@;
            let j = choose|j: int| 0 <= j < wide.tasks@.len() && wide.tasks@[j].0@ == (#[trigger] narrow.tasks@[k]).0@
                && wide.tasks@[j].1@ == narrow.tasks@[k].1@;
            assert((wide.tasks@[j]).0@ == t.project@ && wide.tasks@[j].1@ == t.id@);
        }
        if wide.tags@.len() > 0 {
            let (k, m) = choose|k: int, m: int|
                0 <= k < tags_of(&t.metadata).len() && 0 <= m < narrow.tags@.len()
                    && (#[trigger] tags_of(&t.metadata)[k])@ == (#[trigger] narrow.tags@[m])@;
            let j = choose|j: int| 0 <= j < wide.tags@.len() && wide.tags@[j]@ == (#[trigger] narrow.tags@[m])@;
            assert((tags_of(&t.metadata)[k])@ == (wide.tags@[j])@);
        }
    }
}

/// Each named field narrows the seeds: a task in none of the projects named, or none of the tasks
/// named, or carrying none of the tags named, seeds no flow.
pub proof fn lemma_named_fields_exclude(query: &FlowQuery, t: TaskListItem)
    ensures
        query.projects@.len() > 0 && (forall|k: int| 0 <= k < query.projects@.len() ==> (#[trigger] query.projects@[k])@ != t.project@)
            ==> !selects(query, t),
        query.tasks@.len() > 0 && (forall|k: int|
            0 <= k < query.tasks@.len() ==> (#[trigger] query.tasks@[k]).0@ != t.project@ || query.tasks@[k].1@ != t.id@)
            ==> !selects(query, t),
        query.tags@.len() > 0 && (forall|k: int, m: int|
            0 <= k < tags_of(&t.metadata).len() && 0 <= m < query.tags@.len() ==> (#[trigger] tags_of(&t.metadata)[k])@
                != (#[trigger] query.tags@[m])@) ==> !selects(query, t),
{
}

} // verus!
