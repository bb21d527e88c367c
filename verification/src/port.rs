//! Ports: the typed sockets through which data flows between nodes.

use vstd::prelude::*;

verus! {

/// Type of data flowing through a port.
#[derive(Debug, Clone, Copy, PartialEq, Eq, Structural)]
pub enum PortType {
    Float,
    Vec2,
    Vec3,
    Vec4,
    Color,
    Texture,
    Any,
}

/// Two port types can be wired together when either side accepts anything,
/// or when both carry the same type.
pub open spec fn types_compatible(a: PortType, b: PortType) -> bool {
    a == PortType::Any || b == PortType::Any || a == b
}

impl PortType {
    /// Whether an output of type `self` may feed an input of type `other`.
    pub fn compatible_with(&self, other: &PortType) -> (r: bool)
        ensures
            r == types_compatible(*self, *other),
    {
        *self == PortType::Any || *other == PortType::Any || *self == *other
    }
}

/// A single input or output port on a node.
#[derive(Debug, Clone)]
pub struct Port {
    pub label: String,
    pub port_type: PortType,
}

impl Port {
    pub fn new(label: &str, port_type: PortType) -> (r: Port)
        ensures
            r.label@ == label@,
            r.port_type == port_type,
    {
        Port { label: label.to_owned(), port_type }
    }
}

} // verus!
