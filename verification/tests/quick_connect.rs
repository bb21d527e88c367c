use onyx::graph::Graph;
use onyx::node::NodeKind;
use onyx::port::PortType;
use onyx::quick_connect::{build_quick_connect_candidates, quick_connect_port};

type G = Graph<[f32; 2]>;

#[test]
fn float_wire_candidates() {
    assert_eq!(
        build_quick_connect_candidates(&PortType::Float),
        vec![
            (NodeKind::Add, 0),
            (NodeKind::Multiply, 0),
            (NodeKind::Lerp, 0),
            (NodeKind::Clamp, 0),
            (NodeKind::Power, 0),
            (NodeKind::Fresnel, 1),
            (NodeKind::Mix, 0),
            (NodeKind::NormalMap, 1),
            (NodeKind::PBROutput, 2),
        ]
    );
}

#[test]
fn texture_wire_candidates() {
    assert_eq!(
        build_quick_connect_candidates(&PortType::Texture),
        vec![
            (NodeKind::Add, 0),
            (NodeKind::Multiply, 0),
            (NodeKind::Lerp, 0),
            (NodeKind::Mix, 0),
            (NodeKind::TextureSample, 1),
        ]
    );
}

#[test]
fn any_wire_is_offered_every_menu_kind_at_port_zero() {
    let c = build_quick_connect_candidates(&PortType::Any);
    assert_eq!(c.len(), 14);
    assert!(c.iter().all(|e| e.1 == 0));
    assert_eq!(c[0].0, NodeKind::Add);
    assert_eq!(c[13].0, NodeKind::UnlitOutput);
}

#[test]
fn picked_port_and_fallback() {
    let c = build_quick_connect_candidates(&PortType::Float);
    assert_eq!(quick_connect_port(&c, NodeKind::PBROutput), 2);
    assert_eq!(quick_connect_port(&c, NodeKind::Fresnel), 1);
    assert_eq!(quick_connect_port(&c, NodeKind::Gamma), 0);
    assert_eq!(quick_connect_port(&vec![], NodeKind::Add), 0);
}

#[test]
fn quick_connect_creates_and_wires() {
    let mut g: G = Graph::new();
    let time = g.add_node(NodeKind::Time, [0.0, 0.0]);
    let c = build_quick_connect_candidates(&PortType::Float);
    let (id, ok) = g.quick_connect(&c, NodeKind::Fresnel, time, 0, [200.0, 50.0]);
    assert!(ok);
    let n = g.node(id).unwrap();
    assert_eq!(n.kind, NodeKind::Fresnel);
    assert_eq!(n.position, [200.0, 50.0]);
    assert_eq!(g.nodes_ordered().last().unwrap().id, id);
    assert_eq!(g.connections().len(), 1);
    let w = g.connections()[0];
    assert_eq!((w.src_node, w.src_port, w.dst_node, w.dst_port), (time, 0, id, 1));
}

#[test]
fn quick_connect_keeps_the_node_when_the_wire_is_refused() {
    let mut g: G = Graph::new();
    let time = g.add_node(NodeKind::Time, [0.0, 0.0]);
    let c = build_quick_connect_candidates(&PortType::Float);
    // Gamma is not on the menu: port 0 takes Color, which Float cannot feed.
    let (id, ok) = g.quick_connect(&c, NodeKind::Gamma, time, 0, [1.0, 1.0]);
    assert!(!ok);
    assert!(g.contains_node(id));
    assert!(g.connections().is_empty());
}
