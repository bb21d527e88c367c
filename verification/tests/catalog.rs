use onyx::node::{Node, NodeCategory, NodeKind};
use onyx::pane::{FrameKey, Pane, PanelType};
use onyx::port::{Port, PortType};
use onyx::search::is_shown;

#[test]
fn any_port_accepts_every_type() {
    assert!(PortType::Any.compatible_with(&PortType::Vec2));
    assert!(PortType::Texture.compatible_with(&PortType::Any));
    assert!(PortType::Color.compatible_with(&PortType::Color));
    assert!(!PortType::Float.compatible_with(&PortType::Vec3));
    assert!(!PortType::Vec3.compatible_with(&PortType::Float));
}

#[test]
fn port_new_keeps_label_and_type() {
    let p = Port::new("Albedo", PortType::Color);
    assert_eq!(p.label, "Albedo");
    assert_eq!(p.port_type, PortType::Color);
}

#[test]
fn categories_in_library_order() {
    assert_eq!(
        NodeCategory::all(),
        vec![
            NodeCategory::Input,
            NodeCategory::Texture,
            NodeCategory::Math,
            NodeCategory::Color,
            NodeCategory::Output
        ]
    );
    assert_eq!(NodeCategory::Input.label(), "Wejście");
    assert_eq!(NodeCategory::Math.label(), "Matematyka");
    assert_eq!(NodeCategory::Output.label(), "Wyjście");
}

#[test]
fn category_nodes_and_back() {
    for c in NodeCategory::all() {
        for k in c.nodes() {
            assert_eq!(k.category(), c);
        }
    }
    assert_eq!(NodeCategory::Texture.nodes(), vec![NodeKind::TextureSample, NodeKind::NormalMap]);
    assert_eq!(NodeCategory::Math.nodes().len(), 8);
    let total: usize = NodeCategory::all().iter().map(|c| c.nodes().len()).sum();
    assert_eq!(total, 19);
}

#[test]
fn kind_labels() {
    assert_eq!(NodeKind::UVInput.label(), "UV Input");
    assert_eq!(NodeKind::CameraPos.label(), "Camera Position");
    assert_eq!(NodeKind::ColorConstant.label(), "Color");
    assert_eq!(NodeKind::HsvToRgb.label(), "HSV to RGB");
    assert_eq!(NodeKind::PBROutput.label(), "PBR Output");
}

#[test]
fn texture_sample_ports() {
    let (inputs, outputs) = NodeKind::TextureSample.ports();
    let ins: Vec<(&str, PortType)> = inputs.iter().map(|p| (p.label.as_str(), p.port_type)).collect();
    let outs: Vec<(&str, PortType)> = outputs.iter().map(|p| (p.label.as_str(), p.port_type)).collect();
    assert_eq!(ins, vec![("UV", PortType::Vec2), ("Sampler", PortType::Texture)]);
    assert_eq!(
        outs,
        vec![("RGBA", PortType::Color), ("RGB", PortType::Vec3), ("A", PortType::Float)]
    );
}

#[test]
fn output_nodes_have_no_outputs_and_inputs_none_in() {
    let (i, o) = NodeKind::PBROutput.ports();
    assert_eq!(i.len(), 5);
    assert!(o.is_empty());
    let (i, o) = NodeKind::Time.ports();
    assert!(i.is_empty());
    assert_eq!(o[0].label, "Time");
}

#[test]
fn node_heights() {
    let n: Node<[f32; 2]> = Node::new(NodeKind::TextureSample, [0.0, 0.0]);
    assert_eq!(n.height(), 28 + 160 + 3 * 22 + 8);
    let n: Node<[f32; 2]> = Node::new(NodeKind::UVInput, [0.0, 0.0]);
    assert_eq!(n.height(), 218);
    let n: Node<[f32; 2]> = Node::new(NodeKind::PBROutput, [0.0, 0.0]);
    assert_eq!(n.height(), 306);
}

#[test]
fn new_node_is_unselected_with_its_ports() {
    let n: Node<(i32, i32)> = Node::with_id(7, NodeKind::Mix, (3, 4));
    assert_eq!(n.id, 7);
    assert_eq!(n.kind, NodeKind::Mix);
    assert_eq!(n.position, (3, 4));
    assert!(!n.selected);
    assert_eq!(n.inputs.len(), 3);
    assert_eq!(n.inputs[2].label, "Factor");
    assert_eq!(n.outputs.len(), 1);
}

#[test]
fn fresh_ids_carry_uuid_version_bits() {
    let a: Node<()> = Node::new(NodeKind::Add, ());
    let b: Node<()> = Node::new(NodeKind::Add, ());
    assert_ne!(a.id, b.id);
    assert_eq!((a.id >> 76) & 0xf, 4);
    assert_eq!((a.id >> 62) & 0x3, 2);
}

#[test]
fn panes_and_titles() {
    assert_eq!(Pane::new(PanelType::Preview3D).panel_type, PanelType::Preview3D);
    assert_eq!(PanelType::NodeGraph.title(), "Node Editor");
    assert_eq!(PanelType::Preview2D.title(), "Preview 2D");
}

#[test]
fn frame_keys_compare_by_parts() {
    assert_eq!(FrameKey::new(40, 40, 1000), FrameKey::new(40, 40, 1000));
    assert_ne!(FrameKey::new(40, 40, 1000), FrameKey::new(40, 41, 1000));
    assert_eq!(FrameKey::default(), FrameKey::new(0, 0, 0));
}

#[test]
fn search_is_case_insensitive_substring() {
    assert_eq!(NodeCategory::Input.matching_nodes("uv"), vec![NodeKind::UVInput]);
    assert_eq!(NodeCategory::Input.matching_nodes("UV"), vec![NodeKind::UVInput]);
    assert_eq!(
        NodeCategory::Color.matching_nodes("rgb"),
        vec![NodeKind::HsvToRgb, NodeKind::RgbToHsv]
    );
    assert_eq!(NodeCategory::Math.matching_nodes("zzz"), vec![]);
    assert_eq!(NodeCategory::Math.matching_nodes(""), NodeCategory::Math.nodes());
    assert_eq!(NodeCategory::Texture.matching_nodes("map"), vec![NodeKind::NormalMap]);
}

#[test]
fn shown_for_empty_query_and_substring() {
    assert!(is_shown("camera position", ""));
    assert!(is_shown("camera position", "ra po"));
    assert!(!is_shown("camera", "camera position"));
    assert!(!is_shown("lerp", "pr"));
}
