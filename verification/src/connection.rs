//! Connections: directed wires from an output port to an input port.

use vstd::prelude::*;
use crate::ids::{fresh_id, is_v4_id};

verus! {

/// A directed edge from output `src_port` of `src_node` to input `dst_port`
/// of `dst_node`.
#[derive(Debug, Clone, Copy, PartialEq, Eq, Structural)]
pub struct Connection {
    pub id: u128,
    pub src_node: u128,
    /// Index into the source node's outputs.
    pub src_port: usize,
    pub dst_node: u128,
    /// Index into the destination node's inputs.
    pub dst_port: usize,
}

impl Connection {
    /// A new connection with a fresh random identifier.
    pub fn new(src_node: u128, src_port: usize, dst_node: u128, dst_port: usize) -> (c: Connection)
        ensures
            c.src_node == src_node,
            c.src_port == src_port,
            c.dst_node == dst_node,
            c.dst_port == dst_port,
            is_v4_id(c.id),
    {
        Connection { id: fresh_id(), src_node, src_port, dst_node, dst_port }
    }
}

} // verus!
