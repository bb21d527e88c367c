use onyx::connection::Connection;
use onyx::graph::{Graph, WireInsert};
use onyx::interaction::PressTarget;
use onyx::node::{Node, NodeKind};
use onyx::port::PortType;

type G = Graph<[f32; 2]>;

fn ids_in_order(g: &G) -> Vec<u128> {
    g.nodes_ordered().iter().map(|n| n.id).collect()
}

#[test]
fn add_and_remove_nodes() {
    let mut g: G = Graph::new();
    let a = g.add_node(NodeKind::UVInput, [10.0, 20.0]);
    let b = g.add_node(NodeKind::Gamma, [30.0, 40.0]);
    assert_eq!(ids_in_order(&g), vec![a, b]);
    let n = g.node(b).unwrap();
    assert_eq!(n.kind, NodeKind::Gamma);
    assert_eq!(n.position, [30.0, 40.0]);
    assert!(!n.selected);
    g.remove_node(a);
    assert_eq!(ids_in_order(&g), vec![b]);
    assert!(g.node(a).is_none());
    assert!(!g.contains_node(a));
    g.remove_node(12345);
    assert_eq!(g.node_count(), 1);
}

#[test]
fn removing_a_node_drops_its_wires() {
    let mut g: G = Graph::new();
    let uv = g.add_node(NodeKind::UVInput, [0.0, 0.0]);
    let tex = g.add_node(NodeKind::TextureSample, [0.0, 0.0]);
    let gam = g.add_node(NodeKind::Gamma, [0.0, 0.0]);
    assert!(g.add_connection(uv, 0, tex, 0));
    assert!(g.add_connection(tex, 0, gam, 0));
    assert_eq!(g.connections().len(), 2);
    g.remove_node(tex);
    assert!(g.connections().is_empty());
}

#[test]
fn remove_undoes_add() {
    let mut g: G = Graph::new();
    let uv = g.add_node(NodeKind::UVInput, [0.0, 0.0]);
    let tex = g.add_node(NodeKind::TextureSample, [0.0, 0.0]);
    assert!(g.add_connection(uv, 0, tex, 0));
    let before: Vec<u128> = ids_in_order(&g);
    let wires: Vec<Connection> = g.connections().clone();
    let x = g.add_node(NodeKind::Time, [5.0, 5.0]);
    g.remove_node(x);
    assert_eq!(ids_in_order(&g), before);
    assert_eq!(g.connections(), &wires);
}

#[test]
fn duplicate_copies_kind_at_given_position() {
    let mut g: G = Graph::new();
    let a = g.add_node(NodeKind::Fresnel, [1.0, 2.0]);
    let b = g.duplicate_node(a, [31.0, 32.0]).unwrap();
    assert_ne!(a, b);
    let n = g.node(b).unwrap();
    assert_eq!(n.kind, NodeKind::Fresnel);
    assert_eq!(n.position, [31.0, 32.0]);
    assert_eq!(ids_in_order(&g), vec![a, b]);
    assert!(g.duplicate_node(999, [0.0, 0.0]).is_none());
    assert_eq!(g.node_count(), 2);
}

#[test]
fn bring_to_front_moves_node_last() {
    let mut g: G = Graph::new();
    let a = g.add_node(NodeKind::Add, [0.0, 0.0]);
    let b = g.add_node(NodeKind::Mix, [0.0, 0.0]);
    let c = g.add_node(NodeKind::Lerp, [0.0, 0.0]);
    g.bring_to_front(a);
    assert_eq!(ids_in_order(&g), vec![b, c, a]);
    g.bring_to_front(42);
    assert_eq!(ids_in_order(&g), vec![b, c, a]);
}

#[test]
fn selection_rules() {
    let mut g: G = Graph::new();
    let a = g.add_node(NodeKind::Add, [0.0, 0.0]);
    let b = g.add_node(NodeKind::Mix, [0.0, 0.0]);
    let c = g.add_node(NodeKind::Lerp, [0.0, 0.0]);
    assert!(g.selected_ids().is_empty());
    g.select_all();
    assert_eq!(g.selected_ids(), vec![a, b, c]);
    g.select_only(b);
    assert_eq!(g.selected_ids(), vec![b]);
    g.toggle_select(c);
    assert_eq!(g.selected_ids(), vec![b, c]);
    g.toggle_select(c);
    g.toggle_select(c);
    assert_eq!(g.selected_ids(), vec![b, c]);
    g.set_selected(b, false);
    assert_eq!(g.selected_ids(), vec![c]);
    assert!(g.is_selected(c));
    assert!(!g.is_selected(a));
    g.deselect_all();
    assert!(g.selected_ids().is_empty());
    g.select_only(777);
    assert!(g.selected_ids().is_empty());
}

#[test]
fn set_position_moves_one_node() {
    let mut g: G = Graph::new();
    let a = g.add_node(NodeKind::Add, [0.0, 0.0]);
    let b = g.add_node(NodeKind::Mix, [1.0, 1.0]);
    g.set_position(a, [5.5, 6.5]);
    assert_eq!(g.node(a).unwrap().position, [5.5, 6.5]);
    assert_eq!(g.node(b).unwrap().position, [1.0, 1.0]);
}

#[test]
fn delete_selected_removes_nodes_and_wires() {
    let mut g: G = Graph::new();
    let uv = g.add_node(NodeKind::UVInput, [0.0, 0.0]);
    let tex = g.add_node(NodeKind::TextureSample, [0.0, 0.0]);
    let gam = g.add_node(NodeKind::Gamma, [0.0, 0.0]);
    let time = g.add_node(NodeKind::Time, [0.0, 0.0]);
    let pow = g.add_node(NodeKind::Power, [0.0, 0.0]);
    assert!(g.add_connection(uv, 0, tex, 0));
    assert!(g.add_connection(tex, 0, gam, 0));
    assert!(g.add_connection(time, 0, pow, 0));
    g.set_selected(tex, true);
    g.set_selected(pow, true);
    assert_eq!(g.delete_selected(), 2);
    assert_eq!(ids_in_order(&g), vec![uv, gam, time]);
    assert!(g.connections().is_empty());
    assert_eq!(g.delete_selected(), 0);
}

#[test]
fn connection_refusals() {
    let mut g: G = Graph::new();
    let uv = g.add_node(NodeKind::UVInput, [0.0, 0.0]);
    let time = g.add_node(NodeKind::Time, [0.0, 0.0]);
    let tex = g.add_node(NodeKind::TextureSample, [0.0, 0.0]);
    let add = g.add_node(NodeKind::Add, [0.0, 0.0]);
    // unknown nodes
    assert!(!g.add_connection(999, 0, tex, 0));
    assert!(!g.add_connection(uv, 0, 999, 0));
    // ports out of range
    assert!(!g.add_connection(uv, 1, tex, 0));
    assert!(!g.add_connection(uv, 0, tex, 2));
    // Float output into a Vec2 input
    assert!(!g.add_connection(time, 0, tex, 0));
    // a node into itself
    assert!(!g.add_connection(add, 0, add, 1));
    assert!(g.connections().is_empty());
    // Any accepts Float
    assert!(g.add_connection(time, 0, add, 0));
    assert_eq!(g.connections().len(), 1);
}

#[test]
fn a_new_wire_replaces_the_old_one_into_the_same_input() {
    let mut g: G = Graph::new();
    let a = g.add_node(NodeKind::Time, [0.0, 0.0]);
    let b = g.add_node(NodeKind::UVInput, [0.0, 0.0]);
    let add = g.add_node(NodeKind::Add, [0.0, 0.0]);
    assert!(g.add_connection(a, 0, add, 0));
    assert!(g.add_connection(b, 0, add, 1));
    assert!(g.add_connection(b, 0, add, 0));
    let cs = g.connections();
    assert_eq!(cs.len(), 2);
    assert_eq!((cs[0].src_node, cs[0].dst_port), (b, 1));
    assert_eq!((cs[1].src_node, cs[1].dst_port), (b, 0));
    let into_0 = cs.iter().filter(|c| c.dst_node == add && c.dst_port == 0).count();
    assert_eq!(into_0, 1);
}

#[test]
fn remove_and_get_connection() {
    let mut g: G = Graph::new();
    let a = g.add_node(NodeKind::Time, [0.0, 0.0]);
    let add = g.add_node(NodeKind::Add, [0.0, 0.0]);
    assert!(g.add_connection(a, 0, add, 0));
    let id = g.connections()[0].id;
    let c = *g.get_connection(id).unwrap();
    assert_eq!((c.src_node, c.src_port, c.dst_node, c.dst_port), (a, 0, add, 0));
    assert!(g.get_connection(id ^ 1).is_none());
    g.remove_connection(id ^ 1);
    assert_eq!(g.connections().len(), 1);
    g.remove_connection(id);
    assert!(g.connections().is_empty());
    assert!(g.get_connection(id).is_none());
}

#[test]
fn port_type_lookups() {
    let mut g: G = Graph::new();
    let tex = g.add_node(NodeKind::TextureSample, [0.0, 0.0]);
    assert_eq!(g.output_port_type(tex, 1), Some(PortType::Vec3));
    assert_eq!(g.input_port_type(tex, 1), Some(PortType::Texture));
    assert_eq!(g.output_port_type(tex, 3), None);
    assert_eq!(g.input_port_type(5, 0), None);
}

#[test]
fn splice_node_into_wire() {
    let mut g: G = Graph::new();
    let uv = g.add_node(NodeKind::UVInput, [0.0, 0.0]);
    let tex = g.add_node(NodeKind::TextureSample, [0.0, 0.0]);
    let add = g.add_node(NodeKind::Add, [0.0, 0.0]);
    let gamma = g.add_node(NodeKind::Gamma, [0.0, 0.0]);
    assert!(g.add_connection(uv, 0, tex, 0));
    let wire = g.connections()[0].id;
    // no such wire
    assert_eq!(g.insert_node_on_wire(add, wire ^ 1), WireInsert::Skipped);
    // Gamma takes Color, the wire carries Vec2
    assert_eq!(g.insert_node_on_wire(gamma, wire), WireInsert::Incompatible);
    assert_eq!(g.connections().len(), 1);
    // Add takes and gives Any
    assert_eq!(g.insert_node_on_wire(add, wire), WireInsert::Inserted);
    let cs: Vec<(u128, usize, u128, usize)> = g
        .connections()
        .iter()
        .map(|c| (c.src_node, c.src_port, c.dst_node, c.dst_port))
        .collect();
    assert_eq!(cs, vec![(uv, 0, add, 0), (add, 0, tex, 0)]);
    assert!(g.get_connection(wire).is_none());
}

#[test]
fn from_parts_rejects_shared_ids() {
    let a: Node<[f32; 2]> = Node::with_id(1, NodeKind::Add, [0.0, 0.0]);
    let b: Node<[f32; 2]> = Node::with_id(1, NodeKind::Mix, [0.0, 0.0]);
    assert!(Graph::from_parts(vec![a, b], vec![]).is_none());
    let a: Node<[f32; 2]> = Node::with_id(1, NodeKind::Add, [0.0, 0.0]);
    let b: Node<[f32; 2]> = Node::with_id(2, NodeKind::Mix, [0.0, 0.0]);
    let g = Graph::from_parts(vec![a, b], vec![]).unwrap();
    assert_eq!(ids_in_order(&g), vec![1, 2]);
}

fn v4(id: u128) -> bool {
    (id >> 76) & 0xf == 4 && (id >> 62) & 0x3 == 2
}

#[test]
fn new_identifiers_are_random_uuids() {
    let mut g: G = Graph::new();
    let a = g.add_node(NodeKind::Time, [0.0, 0.0]);
    let b = g.add_node(NodeKind::Gamma, [0.0, 0.0]);
    let c = g.duplicate_node(b, [5.0, 5.0]).unwrap();
    assert!(v4(a) && v4(b) && v4(c));
    assert!(g.add_connection(a, 0, b, 0) == false);
    let t = g.add_node(NodeKind::ColorConstant, [0.0, 0.0]);
    assert!(g.add_connection(t, 0, b, 0));
    assert!(v4(g.connections()[0].id));
    assert!(v4(Connection::new(1, 0, 2, 0).id));
}

#[test]
fn add_node_selected_selects_only_the_new_node() {
    let mut g: G = Graph::new();
    let a = g.add_node(NodeKind::Time, [0.0, 0.0]);
    g.select_all();
    let b = g.add_node_selected(NodeKind::Mix, [3.0, 4.0]);
    assert_eq!(ids_in_order(&g), vec![a, b]);
    assert_eq!(g.selected_ids(), vec![b]);
    let n = g.node(b).unwrap();
    assert_eq!(n.kind, NodeKind::Mix);
    assert_eq!(n.position, [3.0, 4.0]);
}

#[test]
fn drawing_order_follows_adds_fronts_and_removals() {
    let mut g: G = Graph::new();
    let a = g.add_node(NodeKind::Time, [0.0, 0.0]);
    let b = g.add_node(NodeKind::Add, [0.0, 0.0]);
    let c = g.add_node(NodeKind::Mix, [0.0, 0.0]);
    assert_eq!(ids_in_order(&g), vec![a, b, c]);
    g.bring_to_front(a);
    assert_eq!(ids_in_order(&g), vec![b, c, a]);
    g.press(PressTarget::Node(b));
    assert_eq!(ids_in_order(&g), vec![c, a, b]);
    g.set_position(c, [9.0, 9.0]);
    g.toggle_select(c);
    assert_eq!(ids_in_order(&g), vec![c, a, b]);
    g.remove_node(c);
    assert_eq!(ids_in_order(&g), vec![a, b]);
    assert_eq!(g.delete_selected(), 1);
    assert_eq!(ids_in_order(&g), vec![a]);
    let d = g.add_node(NodeKind::Gamma, [0.0, 0.0]);
    assert_eq!(ids_in_order(&g), vec![a, d]);
}

#[test]
fn spliced_wires_get_random_ids() {
    let mut g: G = Graph::new();
    let c = g.add_node(NodeKind::ColorConstant, [0.0, 0.0]);
    let out = g.add_node(NodeKind::UnlitOutput, [0.0, 0.0]);
    let gam = g.add_node(NodeKind::Gamma, [0.0, 0.0]);
    assert!(g.add_connection(c, 0, out, 0));
    let wire = g.connections()[0].id;
    assert_eq!(g.insert_node_on_wire(gam, wire), WireInsert::Inserted);
    assert_eq!(g.connections().len(), 2);
    for w in g.connections() {
        assert!(v4(w.id));
        assert_ne!(w.id, wire);
    }
}

#[test]
fn added_ids_are_unused() {
    let nodes = vec![Node::with_id(1, NodeKind::Add, [0.0, 0.0]), Node::with_id(2, NodeKind::Mix, [0.0, 0.0])];
    let mut g: G = Graph::from_parts(nodes, vec![]).unwrap();
    let a = g.add_node(NodeKind::Time, [0.0, 0.0]);
    assert!(a != 1 && a != 2 && v4(a));
    assert_eq!(ids_in_order(&g), vec![1, 2, a]);
}

#[test]
fn duplicate_selected_copies_and_selects_the_copies() {
    let nodes = vec![
        Node::with_id(1, NodeKind::Add, [0.0, 0.0]),
        Node::with_id(2, NodeKind::Mix, [5.0, 5.0]),
        Node::with_id(3, NodeKind::Gamma, [9.0, 9.0]),
    ];
    let mut g: G = Graph::from_parts(nodes, vec![]).unwrap();
    g.set_selected(1, true);
    g.set_selected(3, true);
    let copies = g.duplicate_selected(vec![(1, [30.0, 30.0]), (77, [0.0, 0.0]), (3, [39.0, 39.0])]);
    assert_eq!(copies.len(), 2);
    assert_eq!(ids_in_order(&g), vec![1, 2, 3, copies[0], copies[1]]);
    assert_eq!(g.selected_ids(), copies);
    let a = g.node(copies[0]).unwrap();
    assert_eq!((a.kind, a.position), (NodeKind::Add, [30.0, 30.0]));
    let b = g.node(copies[1]).unwrap();
    assert_eq!((b.kind, b.position), (NodeKind::Gamma, [39.0, 39.0]));
}

#[test]
fn saved_graphs_load_in_saved_order() {
    let n = |id: u128, k: NodeKind| (id, Node::with_id(id, k, [0.0, 0.0]));
    let g: G = Graph::from_saved(vec![n(1, NodeKind::Add), n(2, NodeKind::Mix)], vec![2, 9, 1], vec![]).unwrap();
    assert_eq!(ids_in_order(&g), vec![2, 1]);
    // An identifier twice in the order, a node missing from it, an entry
    // filed under another identifier, two nodes with one identifier.
    assert!(Graph::<[f32; 2]>::from_saved(vec![n(1, NodeKind::Add), n(2, NodeKind::Mix)], vec![1, 2, 1], vec![]).is_none());
    assert!(Graph::<[f32; 2]>::from_saved(vec![n(1, NodeKind::Add), n(2, NodeKind::Mix)], vec![1], vec![]).is_none());
    assert!(Graph::<[f32; 2]>::from_saved(vec![(5, Node::with_id(1, NodeKind::Add, [0.0, 0.0]))], vec![1], vec![]).is_none());
    assert!(Graph::<[f32; 2]>::from_saved(vec![n(1, NodeKind::Add), n(1, NodeKind::Mix)], vec![1], vec![]).is_none());
}
