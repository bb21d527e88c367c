use onyx::connection::Connection;
use onyx::graph::Graph;
use onyx::layout::Placement;
use onyx::node::{Node, NodeKind};

type G = Graph<[f32; 2]>;

fn wire(id: u128, src: u128, src_port: usize, dst: u128, dst_port: usize) -> Connection {
    Connection { id, src_node: src, src_port, dst_node: dst, dst_port }
}

fn node(id: u128, kind: NodeKind) -> Node<[f32; 2]> {
    Node::with_id(id, kind, [0.0, 0.0])
}

fn at(id: u128, x: u128, y: u128) -> Placement {
    Placement { id, x, y }
}

#[test]
fn empty_graph_lays_out_nothing() {
    let g: G = Graph::new();
    assert!(g.auto_layout(false).is_empty());
    assert!(g.auto_layout(true).is_empty());
}

#[test]
fn a_chain_goes_left_to_right() {
    let g: G = Graph::from_parts(
        vec![node(3, NodeKind::Gamma), node(1, NodeKind::UVInput), node(2, NodeKind::TextureSample)],
        vec![wire(10, 1, 0, 2, 0), wire(11, 2, 0, 3, 0)],
    )
    .unwrap();
    assert_eq!(g.auto_layout(false), vec![at(1, 60, 60), at(2, 300, 60), at(3, 540, 60)]);
}

#[test]
fn unwired_nodes_stack_in_one_column_by_id() {
    // UV Input is 218 high, Texture Sample 262: 28 + 160 + rows * 22 + 8.
    let g: G = Graph::from_parts(
        vec![node(9, NodeKind::Time), node(4, NodeKind::TextureSample), node(7, NodeKind::UVInput)],
        vec![],
    )
    .unwrap();
    assert_eq!(
        g.auto_layout(false),
        vec![at(4, 60, 60), at(7, 60, 60 + 262 + 30), at(9, 60, 60 + 262 + 30 + 218 + 30)]
    );
}

#[test]
fn barycenters_reorder_a_column() {
    // 1 feeds 4 and 2 feeds 3; column 1 starts as [3, 4] and is re-sorted
    // by the position of each node's source.
    let g: G = Graph::from_parts(
        vec![
            node(1, NodeKind::UVInput),
            node(2, NodeKind::UVInput),
            node(3, NodeKind::TextureSample),
            node(4, NodeKind::TextureSample),
        ],
        vec![wire(10, 2, 0, 3, 0), wire(11, 1, 0, 4, 0)],
    )
    .unwrap();
    assert_eq!(
        g.auto_layout(false),
        vec![at(1, 60, 60), at(2, 60, 308), at(4, 300, 60), at(3, 300, 352)]
    );
}

#[test]
fn a_pure_cycle_goes_to_column_one() {
    let g: G = Graph::from_parts(
        vec![node(1, NodeKind::Add), node(2, NodeKind::Add)],
        vec![wire(10, 1, 0, 2, 0), wire(11, 2, 0, 1, 0)],
    )
    .unwrap();
    // Add is 28 + 160 + 2 * 22 + 8 = 240 high.
    assert_eq!(g.auto_layout(false), vec![at(1, 300, 60), at(2, 300, 330)]);
}

#[test]
fn nodes_behind_a_cycle_go_past_the_last_column() {
    // 1 -> 2, 2 -> 3, 3 -> 2: node 2 gets depth 1 from node 1 but is never
    // settled, so node 3 is never reached and goes one column past depth 1.
    let g: G = Graph::from_parts(
        vec![node(1, NodeKind::UVInput), node(2, NodeKind::Add), node(3, NodeKind::Add)],
        vec![wire(10, 1, 0, 2, 0), wire(11, 2, 0, 3, 0), wire(12, 3, 0, 2, 1)],
    )
    .unwrap();
    assert_eq!(g.auto_layout(false), vec![at(1, 60, 60), at(2, 300, 60), at(3, 540, 60)]);
}

#[test]
fn selected_only_lays_out_the_selection() {
    let mut g: G = Graph::from_parts(
        vec![node(1, NodeKind::UVInput), node(2, NodeKind::TextureSample), node(3, NodeKind::Gamma)],
        vec![wire(10, 1, 0, 2, 0), wire(11, 2, 0, 3, 0)],
    )
    .unwrap();
    g.set_selected(2, true);
    g.set_selected(3, true);
    // The wire from the unselected node 1 does not count.
    assert_eq!(g.auto_layout(true), vec![at(2, 60, 60), at(3, 300, 60)]);
    g.deselect_all();
    assert!(g.auto_layout(true).is_empty());
}

#[test]
fn layout_leaves_the_graph_alone() {
    let g: G = Graph::from_parts(vec![node(5, NodeKind::Time)], vec![]).unwrap();
    let placed = g.auto_layout(false);
    assert_eq!(placed, vec![at(5, 60, 60)]);
    assert_eq!(g.node(5).unwrap().position, [0.0, 0.0]);
}

#[test]
fn every_laid_out_node_is_placed_once() {
    let mut g: G = Graph::from_parts(
        vec![
            node(8, NodeKind::Time),
            node(3, NodeKind::Add),
            node(5, NodeKind::Gamma),
            node(1, NodeKind::PBROutput),
            node(6, NodeKind::Add),
        ],
        vec![wire(20, 8, 0, 3, 0), wire(21, 3, 0, 1, 2), wire(22, 6, 0, 3, 1), wire(23, 5, 0, 1, 0)],
    )
    .unwrap();
    let mut ids: Vec<u128> = g.auto_layout(false).iter().map(|p| p.id).collect();
    ids.sort();
    assert_eq!(ids, vec![1, 3, 5, 6, 8]);
    g.set_selected(3, true);
    g.set_selected(1, true);
    let mut sel: Vec<u128> = g.auto_layout(true).iter().map(|p| p.id).collect();
    sel.sort();
    assert_eq!(sel, vec![1, 3]);
}

#[test]
fn wires_lead_to_the_right() {
    let g: G = Graph::from_parts(
        vec![
            node(8, NodeKind::Time),
            node(3, NodeKind::Add),
            node(5, NodeKind::Gamma),
            node(1, NodeKind::PBROutput),
            node(6, NodeKind::Add),
        ],
        vec![wire(20, 8, 0, 3, 0), wire(21, 3, 0, 1, 2), wire(22, 6, 0, 3, 1), wire(23, 5, 0, 1, 0)],
    )
    .unwrap();
    let placed = g.auto_layout(false);
    let x_of = |id: u128| placed.iter().find(|p| p.id == id).unwrap().x;
    for w in g.connections() {
        assert!(x_of(w.src_node) < x_of(w.dst_node));
    }
    assert_eq!(x_of(8), 60);
    assert_eq!(x_of(3), 300);
    assert_eq!(x_of(1), 540);
}

#[test]
fn column_is_the_longest_path_in() {
    // 1 -> 2 -> 3 and 1 -> 3: node 3 sits two columns right, by the longer path.
    let g: G = Graph::from_parts(
        vec![node(1, NodeKind::Time), node(2, NodeKind::Add), node(3, NodeKind::Add)],
        vec![wire(10, 1, 0, 2, 0), wire(11, 2, 0, 3, 0), wire(12, 1, 0, 3, 1)],
    )
    .unwrap();
    assert_eq!(g.auto_layout(false), vec![at(1, 60, 60), at(2, 300, 60), at(3, 540, 60)]);
}

#[test]
fn layout_prefers_the_selection() {
    let mut g: G = Graph::from_parts(
        vec![node(1, NodeKind::UVInput), node(2, NodeKind::TextureSample)],
        vec![wire(10, 1, 0, 2, 0)],
    )
    .unwrap();
    assert_eq!(g.auto_layout_selection_or_all(), g.auto_layout(false));
    g.set_selected(2, true);
    assert_eq!(g.auto_layout_selection_or_all(), vec![at(2, 60, 60)]);
}
