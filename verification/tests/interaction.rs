use onyx::graph::Graph;
use onyx::interaction::{key_action, KeyAction, KeyInput, PressTarget};
use onyx::node::NodeKind;

type G = Graph<[f32; 2]>;

fn ch(s: &str) -> KeyInput {
    KeyInput::Character(s.to_string())
}

#[test]
fn key_bindings() {
    assert_eq!(key_action(&KeyInput::Delete), KeyAction::DeleteSelected);
    assert_eq!(key_action(&KeyInput::Backspace), KeyAction::DeleteSelected);
    assert_eq!(key_action(&KeyInput::Escape), KeyAction::Cancel);
    assert_eq!(key_action(&ch("d")), KeyAction::DuplicateSelected);
    assert_eq!(key_action(&ch("f")), KeyAction::FitAll);
    assert_eq!(key_action(&ch("a")), KeyAction::SelectAll);
    assert_eq!(key_action(&ch(" ")), KeyAction::ToggleNodePicker);
}

#[test]
fn other_keys_do_nothing() {
    assert_eq!(key_action(&ch("D")), KeyAction::Nothing);
    assert_eq!(key_action(&ch("dd")), KeyAction::Nothing);
    assert_eq!(key_action(&ch("")), KeyAction::Nothing);
    assert_eq!(key_action(&ch("x")), KeyAction::Nothing);
    assert_eq!(key_action(&KeyInput::Other), KeyAction::Nothing);
}

#[test]
fn pressing_an_unselected_node_selects_only_it_and_raises_it() {
    let mut g: G = Graph::new();
    let a = g.add_node(NodeKind::Time, [0.0, 0.0]);
    let b = g.add_node(NodeKind::Add, [0.0, 0.0]);
    g.select_only(b);
    g.press(PressTarget::Node(a));
    assert!(g.is_selected(a));
    assert!(!g.is_selected(b));
    assert_eq!(g.nodes_ordered().last().unwrap().id, a);
}

#[test]
fn pressing_a_selected_node_keeps_the_group() {
    let mut g: G = Graph::new();
    let a = g.add_node(NodeKind::Time, [0.0, 0.0]);
    let b = g.add_node(NodeKind::Add, [0.0, 0.0]);
    g.select_all();
    g.press(PressTarget::Node(a));
    assert!(g.is_selected(a));
    assert!(g.is_selected(b));
    assert_eq!(g.nodes_ordered().last().unwrap().id, a);
}

#[test]
fn pressing_a_port_raises_without_selecting() {
    let mut g: G = Graph::new();
    let a = g.add_node(NodeKind::Time, [0.0, 0.0]);
    let _b = g.add_node(NodeKind::Add, [0.0, 0.0]);
    g.press(PressTarget::OutputPort(a));
    assert!(!g.is_selected(a));
    assert_eq!(g.nodes_ordered().last().unwrap().id, a);
}

#[test]
fn pressing_empty_canvas_deselects_all() {
    let mut g: G = Graph::new();
    let a = g.add_node(NodeKind::Time, [0.0, 0.0]);
    let b = g.add_node(NodeKind::Add, [0.0, 0.0]);
    g.select_all();
    g.press(PressTarget::Empty);
    assert!(!g.is_selected(a));
    assert!(!g.is_selected(b));
    assert_eq!(g.selected_ids(), Vec::<u128>::new());
}
