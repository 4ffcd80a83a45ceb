//! The drawing of a flow: a card for each leaf on the rank of its wave, a cluster around the
//! children of each box, and an arrow from each dependency to the task that waits for it.
use vstd::prelude::*;
use vstd::string::StringExecFns;

use crate::field::Field;
use crate::flow::{Flow, FlowEdge, FlowNode, FlowNodeView};
use crate::metadata::view_value;
use crate::status::{status_name, Status};
use crate::text::same_chars;
use crate::wiring::{node_views, EdgeView};

verus! {

/// The marks the web app shows: one for each status, one for a status that could not be read, and
/// one for a dependency that names no task.
#[derive(Debug, Clone, Copy, PartialEq, Eq)]
pub enum Icon {
    CircleEllipsis,
    Clock,
    CircleDot,
    Eye,
    CircleCheck,
    CircleX,
    CircleAlert,
    CircleDashed,
}

/// How an arrow is drawn: dotted from a dependency that names no task.
#[derive(Debug, Clone, Copy, PartialEq, Eq)]
pub enum Stroke {
    Solid,
    Dotted,
}

/// A rounded card: a leaf of the flow, or a dependency that names no task.
#[derive(Debug, PartialEq, Eq)]
pub struct Card {
    pub id: String,
    pub label: Vec<String>,
    pub caption: Option<String>,
    pub icon: Option<Icon>,
    pub link: Option<String>,
    pub classes: Vec<String>,
    pub rank: Option<usize>,
    pub parent: Option<String>,
}

/// A cluster drawn around the cards of a box's children.
#[derive(Debug, PartialEq, Eq)]
pub struct Cluster {
    pub id: String,
    pub label: Vec<String>,
    pub caption: Option<String>,
    pub icon: Option<Icon>,
    pub link: Option<String>,
    pub classes: Vec<String>,
    pub parent: Option<String>,
}

/// An arrow from a dependency to the task that waits for it.
#[derive(Debug, PartialEq, Eq)]
pub struct Link {
    pub from: String,
    pub to: String,
    pub stroke: Stroke,
}

/// The way the ranks of a drawing run.
#[derive(Debug, Clone, Copy, PartialEq, Eq)]
pub enum Direction {
    Down,
    Up,
    Left,
    Right,
}

/// A flow as a drawing: its cards, clusters and arrows, the way its ranks run, and the page its
/// parts are packed onto, where it has one.
#[derive(Debug, PartialEq, Eq)]
pub struct FlowGraph<P> {
    pub direction: Direction,
    pub pack: Option<P>,
    pub cards: Vec<Card>,
    pub clusters: Vec<Cluster>,
    pub links: Vec<Link>,
}

/// A card as plain values.
pub struct CardView {
    pub id: Seq<char>,
    pub label: Seq<Seq<char>>,
    pub caption: Option<Seq<char>>,
    pub icon: Option<Icon>,
    pub link: Option<Seq<char>>,
    pub classes: Seq<Seq<char>>,
    pub rank: Option<usize>,
    pub parent: Option<Seq<char>>,
}

/// A cluster as plain values.
pub struct ClusterView {
    pub id: Seq<char>,
    pub label: Seq<Seq<char>>,
    pub caption: Option<Seq<char>>,
    pub icon: Option<Icon>,
    pub link: Option<Seq<char>>,
    pub classes: Seq<Seq<char>>,
    pub parent: Option<Seq<char>>,
}

/// The texts a list holds.
pub open spec fn texts(v: Seq<String>) -> Seq<Seq<char>> {
    Seq::new(v.len(), |k: int| v[k]@)
}

/// An optional text as plain values.
pub open spec fn opt(t: Option<String>) -> Option<Seq<char>> {
    match t {
        Some(x) => Some(x@),
        None => None,
    }
}

impl View for Card {
    type V = CardView;

    open spec fn view(&self) -> CardView {
        CardView {
            id: self.id@,
            label: texts(self.label@),
            caption: opt(self.caption),
            icon: self.icon,
            link: opt(self.link),
            classes: texts(self.classes@),
            rank: self.rank,
            parent: opt(self.parent),
        }
    }
}

impl View for Cluster {
    type V = ClusterView;

    open spec fn view(&self) -> ClusterView {
        ClusterView {
            id: self.id@,
            label: texts(self.label@),
            caption: opt(self.caption),
            icon: self.icon,
            link: opt(self.link),
            classes: texts(self.classes@),
            parent: opt(self.parent),
        }
    }
}

impl View for Link {
    type V = (Seq<char>, Seq<char>, Stroke);

    open spec fn view(&self) -> (Seq<char>, Seq<char>, Stroke) {
        (self.from@, self.to@, self.stroke)
    }
}

/// The name a task is drawn under: a key is unique inside one project only, so the project leads.
pub open spec fn key_text(project: Seq<char>, id: Seq<char>) -> Seq<char> {
    project + seq!['/'] + id
}

/// The page of a task in the web app.
pub open spec fn path_text(project: Seq<char>, id: Seq<char>) -> Seq<char> {
    seq!['/'] + project + seq!['/', 't', 'a', 's', 'k', '/'] + id
}

/// A status name with each underscore a dash.
pub open spec fn dashed(name: Seq<char>) -> Seq<char> {
    Seq::new(name.len(), |i: int| if name[i] == '_' { '-' } else { name[i] })
}

/// The class a card of this status carries.
pub open spec fn status_class_text(status: Option<Status>) -> Seq<char> {
    match status {
        Some(s) => seq!['s', 't', 'a', 't', 'u', 's', '-'] + dashed(status_name(s)),
        None => "status-unreadable"@,
    }
}

/// The mark a card of this status carries.
pub open spec fn icon_of(status: Option<Status>) -> Icon {
    match status {
        Some(Status::Backlog) => Icon::CircleEllipsis,
        Some(Status::Todo) => Icon::Clock,
        Some(Status::InProgress) => Icon::CircleDot,
        Some(Status::InReview) => Icon::Eye,
        Some(Status::Done) => Icon::CircleCheck,
        Some(Status::Cancelled) => Icon::CircleX,
        None => Icon::CircleAlert,
    }
}

/// Some box of the flow is drawn under the name `k`.
pub open spec fn is_box_key(nodes: Seq<FlowNodeView>, k: Seq<char>) -> bool {
    exists|j: int|
        0 <= j < nodes.len() && (#[trigger] nodes[j] matches FlowNodeView::Box { project, id, .. } && key_text(project, id) == k)
}

/// Some dependency that names no task is drawn under the name `k`.
pub open spec fn is_unresolved_key(nodes: Seq<FlowNodeView>, k: Seq<char>) -> bool {
    exists|j: int|
        0 <= j < nodes.len() && (#[trigger] nodes[j] matches FlowNodeView::Unresolved { project, id } && key_text(project, id)
            == k)
}

/// The cluster a card or cluster sits in: its parent's, where the flow draws the parent as a box.
pub open spec fn drawn_parent(nodes: Seq<FlowNodeView>, project: Seq<char>, parent: Option<Seq<char>>) -> Option<Seq<char>> {
    match parent {
        Some(p) => if is_box_key(nodes, key_text(project, p)) {
            Some(key_text(project, p))
        } else {
            None
        },
        None => None,
    }
}

/// The card a node is drawn as, where it is drawn as one.
pub open spec fn card_of(nodes: Seq<FlowNodeView>, node: FlowNodeView) -> Option<CardView> {
    match node {
        FlowNodeView::Leaf { project, id, title, status, parent, wave, .. } => Some(
            CardView {
                id: key_text(project, id),
                label: seq![title],
                caption: Some(id),
                icon: Some(icon_of(view_value(status))),
                link: Some(path_text(project, id)),
                classes: seq![status_class_text(view_value(status))],
                rank: Some(wave),
                parent: drawn_parent(nodes, project, parent),
            },
        ),
        FlowNodeView::Unresolved { project, id } => Some(
            CardView {
                id: key_text(project, id),
                label: seq![id],
                caption: None,
                icon: Some(Icon::CircleDashed),
                link: None,
                classes: seq!["unresolved"@],
                rank: None,
                parent: None,
            },
        ),
        FlowNodeView::Box { .. } => None,
    }
}

/// The cluster a node is drawn as, where it is a box.
pub open spec fn cluster_of(nodes: Seq<FlowNodeView>, node: FlowNodeView) -> Option<ClusterView> {
    match node {
        FlowNodeView::Box { project, id, title, status, parent } => Some(
            ClusterView {
                id: key_text(project, id),
                label: seq![title],
                caption: Some(id),
                icon: Some(icon_of(view_value(status))),
                link: Some(path_text(project, id)),
                classes: seq![status_class_text(view_value(status))],
                parent: drawn_parent(nodes, project, parent),
            },
        ),
        _ => None,
    }
}

/// What an optional value adds to a list.
pub open spec fn and_maybe<T>(s: Seq<T>, x: Option<T>) -> Seq<T> {
    match x {
        Some(v) => s.push(v),
        None => s,
    }
}

/// The cards of the first `m` nodes, in node order.
pub open spec fn cards_upto(nodes: Seq<FlowNodeView>, m: int) -> Seq<CardView>
    decreases m,
{
    if m <= 0 {
        Seq::empty()
    } else {
        and_maybe(cards_upto(nodes, m - 1), card_of(nodes, nodes[m - 1]))
    }
}

/// The clusters of the first `m` nodes, in node order.
pub open spec fn clusters_upto(nodes: Seq<FlowNodeView>, m: int) -> Seq<ClusterView>
    decreases m,
{
    if m <= 0 {
        Seq::empty()
    } else {
        and_maybe(clusters_upto(nodes, m - 1), cluster_of(nodes, nodes[m - 1]))
    }
}

/// The arrow an edge is drawn as: dotted from a dependency that names no task.
pub open spec fn link_of(nodes: Seq<FlowNodeView>, e: EdgeView) -> (Seq<char>, Seq<char>, Stroke) {
    (
        key_text(e.0, e.1),
        key_text(e.0, e.2),
        if is_unresolved_key(nodes, key_text(e.0, e.1)) {
            Stroke::Dotted
        } else {
            Stroke::Solid
        },
    )
}

/// The name a task is drawn under.
fn key(project: &str, id: &str) -> (k: String)
    ensures
        k@ == key_text(project@, id@),
{
    let mut k = String::from_str(project);
    k.append("/");
    k.append(id);
    proof {
        reveal_strlit("/");
        assert(k@ =~= key_text(project@, id@));
    }
    k
}

/// The page of a task in the web app.
fn task_path(project: &str, id: &str) -> (path: String)
    ensures
        path@ == path_text(project@, id@),
{
    let mut path = String::from_str("/");
    path.append(project);
    path.append("/task/");
    path.append(id);
    proof {
        reveal_strlit("/");
        reveal_strlit("/task/");
        assert(path@ =~= path_text(project@, id@));
    }
    path
}

/// The class a card of this status carries.
fn status_class(status: &Field<Status>) -> (class: String)
    ensures
        class@ == status_class_text(view_value(status@)),
{
    let name = match status.as_value() {
        Some(Status::Backlog) => {
            proof {
                reveal_strlit("status-backlog");
                reveal_strlit("backlog");
                assert("status-backlog"@ =~= status_class_text(Some(Status::Backlog)));
            }
            "status-backlog"
        },
        Some(Status::Todo) => {
            proof {
                reveal_strlit("status-todo");
                reveal_strlit("todo");
                assert("status-todo"@ =~= status_class_text(Some(Status::Todo)));
            }
            "status-todo"
        },
        Some(Status::InProgress) => {
            proof {
                reveal_strlit("status-in-progress");
                reveal_strlit("in_progress");
                assert("status-in-progress"@ =~= status_class_text(Some(Status::InProgress)));
            }
            "status-in-progress"
        },
        Some(Status::InReview) => {
            proof {
                reveal_strlit("status-in-review");
                reveal_strlit("in_review");
                assert("status-in-review"@ =~= status_class_text(Some(Status::InReview)));
            }
            "status-in-review"
        },
        Some(Status::Done) => {
            proof {
                reveal_strlit("status-done");
                reveal_strlit("done");
                assert("status-done"@ =~= status_class_text(Some(Status::Done)));
            }
            "status-done"
        },
        Some(Status::Cancelled) => {
            proof {
                reveal_strlit("status-cancelled");
                reveal_strlit("cancelled");
                assert("status-cancelled"@ =~= status_class_text(Some(Status::Cancelled)));
            }
            "status-cancelled"
        },
        None => "status-unreadable",
    };
    proof {
        crate::render::lemma_status_view_value(status);
    }
    String::from_str(name)
}

/// The mark a card of this status carries.
fn status_icon(status: &Field<Status>) -> (icon: Icon)
    ensures
        icon == icon_of(view_value(status@)),
{
    proof {
        crate::render::lemma_status_view_value(status);
    }
    match status.as_value() {
        Some(Status::Backlog) => Icon::CircleEllipsis,
        Some(Status::Todo) => Icon::Clock,
        Some(Status::InProgress) => Icon::CircleDot,
        Some(Status::InReview) => Icon::Eye,
        Some(Status::Done) => Icon::CircleCheck,
        Some(Status::Cancelled) => Icon::CircleX,
        None => Icon::CircleAlert,
    }
}

/// Whether a box of the flow is drawn under the name `k`.
fn box_drawn(nodes: &Vec<FlowNode>, k: &str) -> (found: bool)
    ensures
        found == is_box_key(node_views(nodes@), k@),
{
    let ghost views = node_views(nodes@);
    let mut j: usize = 0;
    while j < nodes.len()
        invariant
            views == node_views(nodes@),
            j <= nodes.len(),
            forall|i: int|
                0 <= i < j ==> !(#[trigger] views[i] matches FlowNodeView::Box { project, id, .. } && key_text(project, id) == k@),
        decreases nodes.len() - j,
    {
        match &nodes[j] {
            FlowNode::Box { project, id, .. } => {
                let name = key(project.as_str(), id.as_str());
                if same_chars(name.as_str(), k) {
                    proof {
                        assert(views[j as int] matches FlowNodeView::Box { project, id, .. } && key_text(project, id) == k@);
                    }
                    return true;
                }
            },
            _ => {},
        }
        j = j + 1;
    }
    false
}

/// Whether a dependency that names no task is drawn under the name `k`.
fn unresolved_drawn(nodes: &Vec<FlowNode>, k: &str) -> (found: bool)
    ensures
        found == is_unresolved_key(node_views(nodes@), k@),
{
    let ghost views = node_views(nodes@);
    let mut j: usize = 0;
    while j < nodes.len()
        invariant
            views == node_views(nodes@),
            j <= nodes.len(),
            forall|i: int|
                0 <= i < j ==> !(#[trigger] views[i] matches FlowNodeView::Unresolved { project, id } && key_text(project, id) == k@),
        decreases nodes.len() - j,
    {
        match &nodes[j] {
            FlowNode::Unresolved { project, id } => {
                let name = key(project.as_str(), id.as_str());
                if same_chars(name.as_str(), k) {
                    proof {
                        assert(views[j as int] matches FlowNodeView::Unresolved { project, id } && key_text(project, id) == k@);
                    }
                    return true;
                }
            },
            _ => {},
        }
        j = j + 1;
    }
    false
}

/// The cluster a card or cluster sits in.
fn parent_drawn(nodes: &Vec<FlowNode>, project: &str, parent: &Option<String>) -> (drawn: Option<String>)
    ensures
        opt(drawn) == drawn_parent(node_views(nodes@), project@, opt(*parent)),
{
    match parent {
        Some(p) => {
            let name = key(project, p.as_str());
            if box_drawn(nodes, name.as_str()) {
                Some(name)
            } else {
                None
            }
        },
        None => None,
    }
}

impl Flow {
    /// The flow as a drawing: a card for each leaf on the rank of its wave, a cluster for each box
    /// around its children, a dashed card for each dependency that names no task, and an arrow
    /// from each dependency to the task that waits for it, dotted from one that names no task. The
    /// ranks run downward; with a page, each part of the flow that no edge joins to another is laid
    /// out on its own and the parts fill the page.
    pub fn diagram<P>(&self, page: Option<P>) -> (graph: FlowGraph<P>)
        ensures
            graph.direction == Direction::Down,
            graph.pack == page,
            Seq::new(graph.cards@.len(), |k: int| graph.cards@[k]@) == cards_upto(node_views(self.nodes@), self.nodes@.len() + 0int),
            Seq::new(graph.clusters@.len(), |k: int| graph.clusters@[k]@) == clusters_upto(node_views(self.nodes@), self.nodes@.len() + 0int),
            graph.links@.len() == self.edges@.len(),
            forall|k: int| 0 <= k < graph.links@.len() ==> (#[trigger] graph.links@[k])@ == link_of(node_views(self.nodes@), self.edges@[k]@),
    {
        let ghost all = node_views(self.nodes@);
        let mut cards: Vec<Card> = Vec::new();
        let mut clusters: Vec<Cluster> = Vec::new();
        let mut j: usize = 0;
        proof {
            assert(Seq::new(cards@.len(), |k: int| cards@[k]@) =~= cards_upto(all, 0));
            assert(Seq::new(clusters@.len(), |k: int| clusters@[k]@) =~= clusters_upto(all, 0));
        }
        while j < self.nodes.len()
            invariant
                all == node_views(self.nodes@),
                j <= self.nodes.len(),
                Seq::new(cards@.len(), |k: int| cards@[k]@) == cards_upto(all, j + 0int),
                Seq::new(clusters@.len(), |k: int| clusters@[k]@) == clusters_upto(all, j + 0int),
            decreases self.nodes.len() - j,
        {
            let ghost cards_before = Seq::new(cards@.len(), |k: int| cards@[k]@);
            let ghost clusters_before = Seq::new(clusters@.len(), |k: int| clusters@[k]@);
            proof {
                assert(all[j as int] == self.nodes@[j as int]@);
            }
            match &self.nodes[j] {
                FlowNode::Leaf { project, id, title, status, parent, wave, .. } => {
                    let mut label: Vec<String> = Vec::new();
                    label.push(title.clone());
                    let mut classes: Vec<String> = Vec::new();
                    classes.push(status_class(status));
                    let card = Card {
                        id: key(project.as_str(), id.as_str()),
                        label,
                        caption: Some(id.clone()),
                        icon: Some(status_icon(status)),
                        link: Some(task_path(project.as_str(), id.as_str())),
                        classes,
                        rank: Some(*wave),
                        parent: parent_drawn(&self.nodes, project.as_str(), parent),
                    };
                    proof {
                        assert(texts(card.label@) =~= seq![title@]);
                        assert(texts(card.classes@) =~= seq![status_class_text(view_value(status@))]);
                    }
                    cards.push(card);
                    proof {
                        assert(Seq::new(cards@.len(), |k: int| cards@[k]@) =~= cards_before.push(card@));
                        assert(Seq::new(clusters@.len(), |k: int| clusters@[k]@) =~= clusters_before);
                    }
                },
                FlowNode::Box { project, id, title, status, parent } => {
                    let mut label: Vec<String> = Vec::new();
                    label.push(title.clone());
                    let mut classes: Vec<String> = Vec::new();
                    classes.push(status_class(status));
                    let cluster = Cluster {
                        id: key(project.as_str(), id.as_str()),
                        label,
                        caption: Some(id.clone()),
                        icon: Some(status_icon(status)),
                        link: Some(task_path(project.as_str(), id.as_str())),
                        classes,
                        parent: parent_drawn(&self.nodes, project.as_str(), parent),
                    };
                    proof {
                        assert(texts(cluster.label@) =~= seq![title@]);
                        assert(texts(cluster.classes@) =~= seq![status_class_text(view_value(status@))]);
                    }
                    clusters.push(cluster);
                    proof {
                        assert(Seq::new(clusters@.len(), |k: int| clusters@[k]@) =~= clusters_before.push(cluster@));
                        assert(Seq::new(cards@.len(), |k: int| cards@[k]@) =~= cards_before);
                    }
                },
                FlowNode::Unresolved { project, id } => {
                    let mut label: Vec<String> = Vec::new();
                    label.push(id.clone());
                    let mut classes: Vec<String> = Vec::new();
                    classes.push(String::from_str("unresolved"));
                    let card = Card {
                        id: key(project.as_str(), id.as_str()),
                        label,
                        caption: None,
                        icon: Some(Icon::CircleDashed),
                        link: None,
                        classes,
                        rank: None,
                        parent: None,
                    };
                    proof {
                        assert(texts(card.label@) =~= seq![id@]);
                        assert(texts(card.classes@) =~= seq!["unresolved"@]);
                    }
                    cards.push(card);
                    proof {
                        assert(Seq::new(cards@.len(), |k: int| cards@[k]@) =~= cards_before.push(card@));
                        assert(Seq::new(clusters@.len(), |k: int| clusters@[k]@) =~= clusters_before);
                    }
                },
            }
            j = j + 1;
        }
        let mut links: Vec<Link> = Vec::new();
        let mut k: usize = 0;
        while k < self.edges.len()
            invariant
                all == node_views(self.nodes@),
                k <= self.edges.len(),
                links@.len() == k,
                forall|i: int| 0 <= i < k ==> (#[trigger] links@[i])@ == link_of(all, self.edges@[i]@),
            decreases self.edges.len() - k,
        {
            let edge: &FlowEdge = &self.edges[k];
            let from = key(edge.project.as_str(), edge.from.as_str());
            let stroke = if unresolved_drawn(&self.nodes, from.as_str()) {
                Stroke::Dotted
            } else {
                Stroke::Solid
            };
            links.push(Link { from, to: key(edge.project.as_str(), edge.to.as_str()), stroke });
            k = k + 1;
        }
        FlowGraph { direction: Direction::Down, pack: page, cards, clusters, links }
    }
}

} // verus!
