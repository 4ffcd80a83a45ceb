use openplan::diagram::{Card, Cluster, Direction, Icon, Link, Stroke};
use openplan::field::{Field, FieldError};
use openplan::flow::{Flow, FlowEdge, FlowNode};
use openplan::status::Status;

fn text(t: &str) -> String {
    t.to_owned()
}

#[test]
fn a_leaf_is_a_card_on_its_wave_inside_the_cluster_of_its_box() {
    let flow = Flow {
        nodes: vec![
            FlowNode::Box {
                project: text("one"),
                id: text("OPP-40"),
                title: text("Epic"),
                status: Field::Value(Status::InProgress),
                parent: None,
            },
            FlowNode::Leaf {
                project: text("one"),
                id: text("OPP-41"),
                title: text("Part"),
                status: Field::Value(Status::Todo),
                parent: Some(text("OPP-40")),
                wave: 1,
                position: 0,
                blocks_count: 0,
            },
            FlowNode::Leaf {
                project: text("one"),
                id: text("OPP-42"),
                title: text("Orphan"),
                status: Field::Error(FieldError::Missing),
                parent: Some(text("OPP-99")),
                wave: 0,
                position: 0,
                blocks_count: 1,
            },
            FlowNode::Unresolved { project: text("one"), id: text("WEB-7") },
        ],
        edges: vec![
            FlowEdge { project: text("one"), from: text("OPP-42"), to: text("OPP-41") },
            FlowEdge { project: text("one"), from: text("WEB-7"), to: text("OPP-42") },
        ],
    };
    let graph = flow.diagram(None::<(u32, u32)>);
    assert_eq!(graph.direction, Direction::Down);
    assert_eq!(graph.pack, None);

    assert_eq!(
        graph.clusters,
        vec![Cluster {
            id: text("one/OPP-40"),
            label: vec![text("Epic")],
            caption: Some(text("OPP-40")),
            icon: Some(Icon::CircleDot),
            link: Some(text("/one/task/OPP-40")),
            classes: vec![text("status-in-progress")],
            parent: None,
        }]
    );
    assert_eq!(
        graph.cards,
        vec![
            Card {
                id: text("one/OPP-41"),
                label: vec![text("Part")],
                caption: Some(text("OPP-41")),
                icon: Some(Icon::Clock),
                link: Some(text("/one/task/OPP-41")),
                classes: vec![text("status-todo")],
                rank: Some(1),
                parent: Some(text("one/OPP-40")),
            },
            Card {
                id: text("one/OPP-42"),
                label: vec![text("Orphan")],
                caption: Some(text("OPP-42")),
                icon: Some(Icon::CircleAlert),
                link: Some(text("/one/task/OPP-42")),
                classes: vec![text("status-unreadable")],
                rank: Some(0),
                parent: None,
            },
            Card {
                id: text("one/WEB-7"),
                label: vec![text("WEB-7")],
                caption: None,
                icon: Some(Icon::CircleDashed),
                link: None,
                classes: vec![text("unresolved")],
                rank: None,
                parent: None,
            },
        ]
    );
    assert_eq!(
        graph.links,
        vec![
            Link { from: text("one/OPP-42"), to: text("one/OPP-41"), stroke: Stroke::Solid },
            Link { from: text("one/WEB-7"), to: text("one/OPP-42"), stroke: Stroke::Dotted },
        ]
    );
}

#[test]
fn every_status_has_its_mark_and_class() {
    let statuses = [
        (Status::Backlog, Icon::CircleEllipsis, "status-backlog"),
        (Status::Todo, Icon::Clock, "status-todo"),
        (Status::InProgress, Icon::CircleDot, "status-in-progress"),
        (Status::InReview, Icon::Eye, "status-in-review"),
        (Status::Done, Icon::CircleCheck, "status-done"),
        (Status::Cancelled, Icon::CircleX, "status-cancelled"),
    ];
    for (status, icon, class) in statuses {
        let flow = Flow {
            nodes: vec![FlowNode::Leaf {
                project: text("p"),
                id: text("K-1"),
                title: text("T"),
                status: Field::Value(status),
                parent: None,
                wave: 0,
                position: 0,
                blocks_count: 0,
            }],
            edges: Vec::new(),
        };
        let card = &flow.diagram(None::<(u32, u32)>).cards[0];
        assert_eq!(card.icon, Some(icon));
        assert_eq!(card.classes, vec![text(class)]);
    }
}

#[test]
fn a_page_is_carried_to_the_drawing() {
    let flow = Flow { nodes: Vec::new(), edges: Vec::new() };
    let graph = flow.diagram(Some((800u32, 600u32)));
    assert_eq!(graph.direction, Direction::Down);
    assert_eq!(graph.pack, Some((800, 600)));
    assert!(graph.cards.is_empty());
    assert!(graph.clusters.is_empty());
    assert!(graph.links.is_empty());
}
