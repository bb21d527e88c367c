//! Onyx: the verified core of a shader node editor.
//!
//! The library holds the node graph (nodes, typed ports, connections), the
//! rules for wiring ports, the layered auto-layout, the quick-connect menu and
//! the keyboard bindings. Drawing, windowing and floating-point geometry live in
//! the application around it.

pub mod port;
pub mod ids;
pub mod node;
pub mod connection;
pub mod seqs;
pub mod graph;
pub mod quick_connect;
pub mod interaction;
pub mod pane;
pub mod search;
pub mod layout;
pub mod order;
pub mod laws;
