//! Node kinds, their categories and port layouts, and node instances.

use vstd::prelude::*;
use crate::ids::{fresh_id, is_v4_id};
use crate::port::{Port, PortType};

verus! {

// ── Layout constants (world units) ───────────────────────────────────────────
pub const NODE_WIDTH: u64 = 180;
pub const NODE_HEADER_HEIGHT: u64 = 28;
pub const NODE_PREVIEW_HEIGHT: u64 = 160;
pub const PORT_ROW_HEIGHT: u64 = 22;
pub const PORT_RADIUS: u64 = 6;
pub const PORT_PADDING_X: u64 = 10;
/// Space below the last port row.
pub const NODE_BOTTOM_PADDING: u64 = 8;

// ── Node categories ──────────────────────────────────────────────────────────

#[derive(Debug, Clone, Copy, PartialEq, Eq, Structural)]
pub enum NodeCategory {
    Input,
    Texture,
    Math,
    Color,
    Output,
}

/// The categories in the order in which the node library lists them.
pub open spec fn all_categories() -> Seq<NodeCategory> {
    seq![NodeCategory::Input, NodeCategory::Texture, NodeCategory::Math, NodeCategory::Color, NodeCategory::Output]
}

/// The label shown above a category in the node library.
pub open spec fn category_label(c: NodeCategory) -> Seq<char> {
    match c {
        NodeCategory::Input => "Wejście"@,
        NodeCategory::Texture => "Tekstura"@,
        NodeCategory::Math => "Matematyka"@,
        NodeCategory::Color => "Kolor"@,
        NodeCategory::Output => "Wyjście"@,
    }
}

/// The node kinds of a category, in library order.
pub open spec fn category_nodes(c: NodeCategory) -> Seq<NodeKind> {
    match c {
        NodeCategory::Input => seq![NodeKind::UVInput, NodeKind::VertexColor, NodeKind::Time, NodeKind::CameraPos],
        NodeCategory::Texture => seq![NodeKind::TextureSample, NodeKind::NormalMap],
        NodeCategory::Math => seq![NodeKind::Add, NodeKind::Multiply, NodeKind::Lerp, NodeKind::Clamp, NodeKind::Power, NodeKind::Fresnel, NodeKind::Mix, NodeKind::Gamma],
        NodeCategory::Color => seq![NodeKind::ColorConstant, NodeKind::HsvToRgb, NodeKind::RgbToHsv],
        NodeCategory::Output => seq![NodeKind::PBROutput, NodeKind::UnlitOutput],
    }
}

impl NodeCategory {
    pub fn all() -> (r: Vec<NodeCategory>)
        ensures
            r@ == all_categories(),
    {
        let mut r: Vec<NodeCategory> = Vec::new();
        r.push(NodeCategory::Input);
        r.push(NodeCategory::Texture);
        r.push(NodeCategory::Math);
        r.push(NodeCategory::Color);
        r.push(NodeCategory::Output);
        assert(r@ =~= all_categories());
        r
    }

    pub fn label(&self) -> (r: &'static str)
        ensures
            r@ == category_label(*self),
    {
        match self {
            NodeCategory::Input => "Wejście",
            NodeCategory::Texture => "Tekstura",
            NodeCategory::Math => "Matematyka",
            NodeCategory::Color => "Kolor",
            NodeCategory::Output => "Wyjście",
        }
    }

    pub fn nodes(&self) -> (r: Vec<NodeKind>)
        ensures
            r@ == category_nodes(*self),
    {
        let mut r: Vec<NodeKind> = Vec::new();
        match self {
            NodeCategory::Input => {
                r.push(NodeKind::UVInput);
                r.push(NodeKind::VertexColor);
                r.push(NodeKind::Time);
                r.push(NodeKind::CameraPos);
            },
            NodeCategory::Texture => {
                r.push(NodeKind::TextureSample);
                r.push(NodeKind::NormalMap);
            },
            NodeCategory::Math => {
                r.push(NodeKind::Add);
                r.push(NodeKind::Multiply);
                r.push(NodeKind::Lerp);
                r.push(NodeKind::Clamp);
                r.push(NodeKind::Power);
                r.push(NodeKind::Fresnel);
                r.push(NodeKind::Mix);
                r.push(NodeKind::Gamma);
            },
            NodeCategory::Color => {
                r.push(NodeKind::ColorConstant);
                r.push(NodeKind::HsvToRgb);
                r.push(NodeKind::RgbToHsv);
            },
            NodeCategory::Output => {
                r.push(NodeKind::PBROutput);
                r.push(NodeKind::UnlitOutput);
            },
        }
        assert(r@ =~= category_nodes(*self));
        r
    }
}

// ── Node kinds ───────────────────────────────────────────────────────────────

#[derive(Debug, Clone, Copy, PartialEq, Eq, Structural)]
pub enum NodeKind {
    UVInput,
    VertexColor,
    Time,
    CameraPos,
    TextureSample,
    NormalMap,
    Add,
    Multiply,
    Lerp,
    Clamp,
    Power,
    Fresnel,
    Mix,
    Gamma,
    ColorConstant,
    HsvToRgb,
    RgbToHsv,
    PBROutput,
    UnlitOutput,
}

/// The title shown in a node's header.
pub open spec fn kind_label(k: NodeKind) -> Seq<char> {
    match k {
        NodeKind::UVInput => "UV Input"@,
        NodeKind::VertexColor => "Vertex Color"@,
        NodeKind::Time => "Time"@,
        NodeKind::CameraPos => "Camera Position"@,
        NodeKind::TextureSample => "Texture Sample"@,
        NodeKind::NormalMap => "Normal Map"@,
        NodeKind::Add => "Add"@,
        NodeKind::Multiply => "Multiply"@,
        NodeKind::Lerp => "Lerp"@,
        NodeKind::Clamp => "Clamp"@,
        NodeKind::Power => "Power"@,
        NodeKind::Fresnel => "Fresnel"@,
        NodeKind::Mix => "Mix"@,
        NodeKind::Gamma => "Gamma"@,
        NodeKind::ColorConstant => "Color"@,
        NodeKind::HsvToRgb => "HSV to RGB"@,
        NodeKind::RgbToHsv => "RGB to HSV"@,
        NodeKind::PBROutput => "PBR Output"@,
        NodeKind::UnlitOutput => "Unlit Output"@,
    }
}

/// The category a node kind belongs to.
pub open spec fn kind_category(k: NodeKind) -> NodeCategory {
    match k {
        NodeKind::UVInput => NodeCategory::Input,
        NodeKind::VertexColor => NodeCategory::Input,
        NodeKind::Time => NodeCategory::Input,
        NodeKind::CameraPos => NodeCategory::Input,
        NodeKind::TextureSample => NodeCategory::Texture,
        NodeKind::NormalMap => NodeCategory::Texture,
        NodeKind::Add => NodeCategory::Math,
        NodeKind::Multiply => NodeCategory::Math,
        NodeKind::Lerp => NodeCategory::Math,
        NodeKind::Clamp => NodeCategory::Math,
        NodeKind::Power => NodeCategory::Math,
        NodeKind::Fresnel => NodeCategory::Math,
        NodeKind::Mix => NodeCategory::Math,
        NodeKind::Gamma => NodeCategory::Math,
        NodeKind::ColorConstant => NodeCategory::Color,
        NodeKind::HsvToRgb => NodeCategory::Color,
        NodeKind::RgbToHsv => NodeCategory::Color,
        NodeKind::PBROutput => NodeCategory::Output,
        NodeKind::UnlitOutput => NodeCategory::Output,
    }
}

/// What a port is in the model: its label and its type.
pub open spec fn port_sig(p: Port) -> (Seq<char>, PortType) {
    (p.label@, p.port_type)
}

pub open spec fn port_sigs(ps: Seq<Port>) -> Seq<(Seq<char>, PortType)> {
    ps.map_values(|p: Port| port_sig(p))
}

/// The input ports of a node kind, top to bottom.
pub open spec fn kind_inputs(k: NodeKind) -> Seq<(Seq<char>, PortType)> {
    match k {
        NodeKind::UVInput => seq![],
        NodeKind::VertexColor => seq![],
        NodeKind::Time => seq![],
        NodeKind::CameraPos => seq![],
        NodeKind::TextureSample => seq![("UV"@, PortType::Vec2), ("Sampler"@, PortType::Texture)],
        NodeKind::NormalMap => seq![("Texture"@, PortType::Color), ("Scale"@, PortType::Float)],
        NodeKind::Add => seq![("A"@, PortType::Any), ("B"@, PortType::Any)],
        NodeKind::Multiply => seq![("A"@, PortType::Any), ("B"@, PortType::Any)],
        NodeKind::Lerp => seq![("A"@, PortType::Any), ("B"@, PortType::Any), ("T"@, PortType::Float)],
        NodeKind::Clamp => seq![("In"@, PortType::Float), ("Min"@, PortType::Float), ("Max"@, PortType::Float)],
        NodeKind::Power => seq![("Base"@, PortType::Float), ("Exp"@, PortType::Float)],
        NodeKind::Fresnel => seq![("Normal"@, PortType::Vec3), ("Power"@, PortType::Float)],
        NodeKind::Mix => seq![("A"@, PortType::Any), ("B"@, PortType::Any), ("Factor"@, PortType::Float)],
        NodeKind::Gamma => seq![("In"@, PortType::Color)],
        NodeKind::ColorConstant => seq![],
        NodeKind::HsvToRgb => seq![("HSV"@, PortType::Vec3)],
        NodeKind::RgbToHsv => seq![("RGB"@, PortType::Vec3)],
        NodeKind::PBROutput => seq![("Albedo"@, PortType::Color), ("Normal"@, PortType::Vec3), ("Metallic"@, PortType::Float), ("Roughness"@, PortType::Float), ("Emission"@, PortType::Color)],
        NodeKind::UnlitOutput => seq![("Color"@, PortType::Color)],
    }
}

/// The output ports of a node kind, top to bottom.
pub open spec fn kind_outputs(k: NodeKind) -> Seq<(Seq<char>, PortType)> {
    match k {
        NodeKind::UVInput => seq![("UV"@, PortType::Vec2)],
        NodeKind::VertexColor => seq![("Color"@, PortType::Color)],
        NodeKind::Time => seq![("Time"@, PortType::Float)],
        NodeKind::CameraPos => seq![("Position"@, PortType::Vec3)],
        NodeKind::TextureSample => seq![("RGBA"@, PortType::Color), ("RGB"@, PortType::Vec3), ("A"@, PortType::Float)],
        NodeKind::NormalMap => seq![("Normal"@, PortType::Vec3)],
        NodeKind::Add => seq![("Out"@, PortType::Any)],
        NodeKind::Multiply => seq![("Out"@, PortType::Any)],
        NodeKind::Lerp => seq![("Out"@, PortType::Any)],
        NodeKind::Clamp => seq![("Out"@, PortType::Float)],
        NodeKind::Power => seq![("Out"@, PortType::Float)],
        NodeKind::Fresnel => seq![("Out"@, PortType::Float)],
        NodeKind::Mix => seq![("Out"@, PortType::Any)],
        NodeKind::Gamma => seq![("Out"@, PortType::Color)],
        NodeKind::ColorConstant => seq![("Color"@, PortType::Color)],
        NodeKind::HsvToRgb => seq![("RGB"@, PortType::Vec3)],
        NodeKind::RgbToHsv => seq![("HSV"@, PortType::Vec3)],
        NodeKind::PBROutput => seq![],
        NodeKind::UnlitOutput => seq![],
    }
}

impl NodeKind {
    pub fn label(&self) -> (r: &'static str)
        ensures
            r@ == kind_label(*self),
    {
        match self {
            NodeKind::UVInput => "UV Input",
            NodeKind::VertexColor => "Vertex Color",
            NodeKind::Time => "Time",
            NodeKind::CameraPos => "Camera Position",
            NodeKind::TextureSample => "Texture Sample",
            NodeKind::NormalMap => "Normal Map",
            NodeKind::Add => "Add",
            NodeKind::Multiply => "Multiply",
            NodeKind::Lerp => "Lerp",
            NodeKind::Clamp => "Clamp",
            NodeKind::Power => "Power",
            NodeKind::Fresnel => "Fresnel",
            NodeKind::Mix => "Mix",
            NodeKind::Gamma => "Gamma",
            NodeKind::ColorConstant => "Color",
            NodeKind::HsvToRgb => "HSV to RGB",
            NodeKind::RgbToHsv => "RGB to HSV",
            NodeKind::PBROutput => "PBR Output",
            NodeKind::UnlitOutput => "Unlit Output",
        }
    }

    pub fn category(&self) -> (r: NodeCategory)
        ensures
            r == kind_category(*self),
    {
        match self {
            NodeKind::UVInput | NodeKind::VertexColor | NodeKind::Time | NodeKind::CameraPos => NodeCategory::Input,
            NodeKind::TextureSample | NodeKind::NormalMap => NodeCategory::Texture,
            NodeKind::Add | NodeKind::Multiply | NodeKind::Lerp | NodeKind::Clamp | NodeKind::Power | NodeKind::Fresnel | NodeKind::Mix | NodeKind::Gamma => NodeCategory::Math,
            NodeKind::ColorConstant | NodeKind::HsvToRgb | NodeKind::RgbToHsv => NodeCategory::Color,
            NodeKind::PBROutput | NodeKind::UnlitOutput => NodeCategory::Output,
        }
    }

    /// Returns the (inputs, outputs) port definitions of this kind.
    pub fn ports(&self) -> (r: (Vec<Port>, Vec<Port>))
        ensures
            port_sigs(r.0@) == kind_inputs(*self),
            port_sigs(r.1@) == kind_outputs(*self),
    {
        (self.input_ports(), self.output_ports())
    }

    /// The input ports of this kind, top to bottom.
    fn input_ports(&self) -> (r: Vec<Port>)
        ensures
            port_sigs(r@) == kind_inputs(*self),
    {
        let mut r: Vec<Port> = Vec::new();
        match self {
            NodeKind::UVInput => {
                assert(port_sigs(r@) =~= kind_inputs(*self));
            },
            NodeKind::VertexColor => {
                assert(port_sigs(r@) =~= kind_inputs(*self));
            },
            NodeKind::Time => {
                assert(port_sigs(r@) =~= kind_inputs(*self));
            },
            NodeKind::CameraPos => {
                assert(port_sigs(r@) =~= kind_inputs(*self));
            },
            NodeKind::TextureSample => {
                r.push(Port::new("UV", PortType::Vec2));
                r.push(Port::new("Sampler", PortType::Texture));
                assert(port_sigs(r@) =~= kind_inputs(*self));
            },
            NodeKind::NormalMap => {
                r.push(Port::new("Texture", PortType::Color));
                r.push(Port::new("Scale", PortType::Float));
                assert(port_sigs(r@) =~= kind_inputs(*self));
            },
            NodeKind::Add => {
                r.push(Port::new("A", PortType::Any));
                r.push(Port::new("B", PortType::Any));
                assert(port_sigs(r@) =~= kind_inputs(*self));
            },
            NodeKind::Multiply => {
                r.push(Port::new("A", PortType::Any));
                r.push(Port::new("B", PortType::Any));
                assert(port_sigs(r@) =~= kind_inputs(*self));
            },
            NodeKind::Lerp => {
                r.push(Port::new("A", PortType::Any));
                r.push(Port::new("B", PortType::Any));
                r.push(Port::new("T", PortType::Float));
                assert(port_sigs(r@) =~= kind_inputs(*self));
            },
            NodeKind::Clamp => {
                r.push(Port::new("In", PortType::Float));
                r.push(Port::new("Min", PortType::Float));
                r.push(Port::new("Max", PortType::Float));
                assert(port_sigs(r@) =~= kind_inputs(*self));
            },
            NodeKind::Power => {
                r.push(Port::new("Base", PortType::Float));
                r.push(Port::new("Exp", PortType::Float));
                assert(port_sigs(r@) =~= kind_inputs(*self));
            },
            NodeKind::Fresnel => {
                r.push(Port::new("Normal", PortType::Vec3));
                r.push(Port::new("Power", PortType::Float));
                assert(port_sigs(r@) =~= kind_inputs(*self));
            },
            NodeKind::Mix => {
                r.push(Port::new("A", PortType::Any));
                r.push(Port::new("B", PortType::Any));
                r.push(Port::new("Factor", PortType::Float));
                assert(port_sigs(r@) =~= kind_inputs(*self));
            },
            NodeKind::Gamma => {
                r.push(Port::new("In", PortType::Color));
                assert(port_sigs(r@) =~= kind_inputs(*self));
            },
            NodeKind::ColorConstant => {
                assert(port_sigs(r@) =~= kind_inputs(*self));
            },
            NodeKind::HsvToRgb => {
                r.push(Port::new("HSV", PortType::Vec3));
                assert(port_sigs(r@) =~= kind_inputs(*self));
            },
            NodeKind::RgbToHsv => {
                r.push(Port::new("RGB", PortType::Vec3));
                assert(port_sigs(r@) =~= kind_inputs(*self));
            },
            NodeKind::PBROutput => {
                r.push(Port::new("Albedo", PortType::Color));
                r.push(Port::new("Normal", PortType::Vec3));
                r.push(Port::new("Metallic", PortType::Float));
                r.push(Port::new("Roughness", PortType::Float));
                r.push(Port::new("Emission", PortType::Color));
                assert(port_sigs(r@) =~= kind_inputs(*self));
            },
            NodeKind::UnlitOutput => {
                r.push(Port::new("Color", PortType::Color));
                assert(port_sigs(r@) =~= kind_inputs(*self));
            },
        }
        r
    }

    /// The output ports of this kind, top to bottom.
    fn output_ports(&self) -> (r: Vec<Port>)
        ensures
            port_sigs(r@) == kind_outputs(*self),
    {
        let mut r: Vec<Port> = Vec::new();
        match self {
            NodeKind::UVInput => {
                r.push(Port::new("UV", PortType::Vec2));
                assert(port_sigs(r@) =~= kind_outputs(*self));
            },
            NodeKind::VertexColor => {
                r.push(Port::new("Color", PortType::Color));
                assert(port_sigs(r@) =~= kind_outputs(*self));
            },
            NodeKind::Time => {
                r.push(Port::new("Time", PortType::Float));
                assert(port_sigs(r@) =~= kind_outputs(*self));
            },
            NodeKind::CameraPos => {
                r.push(Port::new("Position", PortType::Vec3));
                assert(port_sigs(r@) =~= kind_outputs(*self));
            },
            NodeKind::TextureSample => {
                r.push(Port::new("RGBA", PortType::Color));
                r.push(Port::new("RGB", PortType::Vec3));
                r.push(Port::new("A", PortType::Float));
                assert(port_sigs(r@) =~= kind_outputs(*self));
            },
            NodeKind::NormalMap => {
                r.push(Port::new("Normal", PortType::Vec3));
                assert(port_sigs(r@) =~= kind_outputs(*self));
            },
            NodeKind::Add => {
                r.push(Port::new("Out", PortType::Any));
                assert(port_sigs(r@) =~= kind_outputs(*self));
            },
            NodeKind::Multiply => {
                r.push(Port::new("Out", PortType::Any));
                assert(port_sigs(r@) =~= kind_outputs(*self));
            },
            NodeKind::Lerp => {
                r.push(Port::new("Out", PortType::Any));
                assert(port_sigs(r@) =~= kind_outputs(*self));
            },
            NodeKind::Clamp => {
                r.push(Port::new("Out", PortType::Float));
                assert(port_sigs(r@) =~= kind_outputs(*self));
            },
            NodeKind::Power => {
                r.push(Port::new("Out", PortType::Float));
                assert(port_sigs(r@) =~= kind_outputs(*self));
            },
            NodeKind::Fresnel => {
                r.push(Port::new("Out", PortType::Float));
                assert(port_sigs(r@) =~= kind_outputs(*self));
            },
            NodeKind::Mix => {
                r.push(Port::new("Out", PortType::Any));
                assert(port_sigs(r@) =~= kind_outputs(*self));
            },
            NodeKind::Gamma => {
                r.push(Port::new("Out", PortType::Color));
                assert(port_sigs(r@) =~= kind_outputs(*self));
            },
            NodeKind::ColorConstant => {
                r.push(Port::new("Color", PortType::Color));
                assert(port_sigs(r@) =~= kind_outputs(*self));
            },
            NodeKind::HsvToRgb => {
                r.push(Port::new("RGB", PortType::Vec3));
                assert(port_sigs(r@) =~= kind_outputs(*self));
            },
            NodeKind::RgbToHsv => {
                r.push(Port::new("HSV", PortType::Vec3));
                assert(port_sigs(r@) =~= kind_outputs(*self));
            },
            NodeKind::PBROutput => {
                assert(port_sigs(r@) =~= kind_outputs(*self));
            },
            NodeKind::UnlitOutput => {
                assert(port_sigs(r@) =~= kind_outputs(*self));
            },
        }
        r
    }
}

// ── Node instances ───────────────────────────────────────────────────────────

/// Height of a node whose tallest port column holds `rows` ports: header,
/// preview area, one row per port and the bottom padding.
pub open spec fn node_height(n_inputs: nat, n_outputs: nat) -> nat {
    let rows = if n_inputs >= n_outputs { n_inputs } else { n_outputs };
    (NODE_HEADER_HEIGHT + NODE_PREVIEW_HEIGHT + rows * PORT_ROW_HEIGHT + NODE_BOTTOM_PADDING) as nat
}

/// A node placed in the graph. `P` is its position in world space, which the
/// library carries but never computes with.
#[derive(Debug, Clone)]
pub struct Node<P> {
    pub id: u128,
    pub kind: NodeKind,
    pub position: P,
    pub inputs: Vec<Port>,
    pub outputs: Vec<Port>,
    pub selected: bool,
}

/// `n` is a newly made node: identifier `id`, kind `kind`, placed at
/// `position`, with the ports of its kind and not selected.
pub open spec fn is_new_node<P>(n: Node<P>, id: u128, kind: NodeKind, position: P) -> bool {
    &&& n.id == id
    &&& n.kind == kind
    &&& n.position == position
    &&& port_sigs(n.inputs@) == kind_inputs(kind)
    &&& port_sigs(n.outputs@) == kind_outputs(kind)
    &&& !n.selected
}

impl<P> Node<P> {
    /// A new node of the given kind with a fresh random identifier.
    pub fn new(kind: NodeKind, position: P) -> (n: Node<P>)
        ensures
            is_new_node(n, n.id, kind, position),
            is_v4_id(n.id),
    {
        let id = fresh_id();
        Self::with_id(id, kind, position)
    }

    /// A new node of the given kind under the identifier `id`.
    pub fn with_id(id: u128, kind: NodeKind, position: P) -> (n: Node<P>)
        ensures
            is_new_node(n, id, kind, position),
    {
        let (inputs, outputs) = kind.ports();
        Node { id, kind, position, inputs, outputs, selected: false }
    }

    /// Height of the node in world units.
    pub fn height(&self) -> (h: u128)
        ensures
            h == node_height(self.inputs@.len(), self.outputs@.len()),
            h <= 0x1_0000_0000_0000_0000_0000u128,
    {
        let rows: usize = if self.inputs.len() >= self.outputs.len() {
            self.inputs.len()
        } else {
            self.outputs.len()
        };
        NODE_HEADER_HEIGHT as u128 + NODE_PREVIEW_HEIGHT as u128 + (rows as u128) * (PORT_ROW_HEIGHT as u128)
            + NODE_BOTTOM_PADDING as u128
    }
}

} // verus!
