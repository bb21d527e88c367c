//! Panes of the editor window and small view-state types.

use vstd::prelude::*;

verus! {

/// Type of panel displayed in a pane.
#[derive(Debug, Clone, Copy, PartialEq, Eq, Structural)]
pub enum PanelType {
    NodeGraph,
    Preview3D,
    Preview2D,
}

/// The title shown in a panel's header.
pub open spec fn panel_title(p: PanelType) -> Seq<char> {
    match p {
        PanelType::NodeGraph => "Node Editor"@,
        PanelType::Preview3D => "Preview 3D"@,
        PanelType::Preview2D => "Preview 2D"@,
    }
}

impl PanelType {
    /// The title shown in the panel's header.
    pub fn title(&self) -> (r: &'static str)
        ensures
            r@ == panel_title(*self),
    {
        match self {
            PanelType::NodeGraph => "Node Editor",
            PanelType::Preview3D => "Preview 3D",
            PanelType::Preview2D => "Preview 2D",
        }
    }
}

/// A pane holding a specific panel type.
#[derive(Debug)]
pub struct Pane {
    pub panel_type: PanelType,
}

impl Pane {
    pub fn new(panel_type: PanelType) -> (r: Pane)
        ensures
            r.panel_type == panel_type,
    {
        Pane { panel_type }
    }
}

/// Which side panel a splitter resizes.
#[derive(Debug, Clone, Copy, PartialEq, Eq, Structural)]
pub enum ResizeSide {
    Left,
    Right,
}

/// Which side of a node a port sits on.
#[derive(Debug, Clone, Copy, PartialEq, Eq, Structural)]
pub enum PortSide {
    Input,
    Output,
}

/// The view parameters a canvas frame was drawn with, quantised: twice the
/// pan offset and a thousand times the zoom, as whole numbers. Cached
/// geometry is redrawn when the key of the next frame differs.
#[derive(Debug, Clone, Copy, PartialEq, Eq, Structural, Default)]
pub struct FrameKey {
    pan_x2: i32,
    pan_y2: i32,
    zoom_k: u32,
}

impl FrameKey {
    /// The quantised pan offset (x, y) and zoom.
    pub closed spec fn parts(&self) -> (i32, i32, u32) {
        (self.pan_x2, self.pan_y2, self.zoom_k)
    }

    pub fn new(pan_x2: i32, pan_y2: i32, zoom_k: u32) -> (r: FrameKey)
        ensures
            r.parts() == (pan_x2, pan_y2, zoom_k),
    {
        FrameKey { pan_x2, pan_y2, zoom_k }
    }
}

} // verus!
