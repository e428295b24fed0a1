//! Public data types of rendering: options, validation results, and the geometry of
//! a character-grid drawing.

use vstd::prelude::*;

verus! {

/// How connectors of a character-grid drawing are routed.
#[derive(Debug, Clone, Copy, PartialEq, Eq, Structural)]
pub enum AsciiRouting {
    /// Crossings and most segment sharing are forbidden.
    Strict,
    /// Crossings cost extra; connectors of the same node pair may share a trunk.
    Relaxed,
}

impl AsciiRouting {
    pub fn as_str(&self) -> (r: &'static str)
        ensures
            *self == AsciiRouting::Strict ==> r@ == "strict"@,
            *self == AsciiRouting::Relaxed ==> r@ == "relaxed"@,
    {
        match self {
            AsciiRouting::Strict => "strict",
            AsciiRouting::Relaxed => "relaxed",
        }
    }
}

/// Options of character-grid rendering.
#[derive(Debug, Clone, Default)]
pub struct AsciiRenderOptions {
    /// Plain ASCII (`+ - | >`) instead of box-drawing characters.
    pub use_ascii: Option<bool>,
    /// Routing policy; relaxed where absent.
    pub routing: Option<AsciiRouting>,
    /// Horizontal gap between nodes.
    pub padding_x: Option<i32>,
    /// Vertical gap between nodes.
    pub padding_y: Option<i32>,
    /// Padding inside node boxes.
    pub box_border_padding: Option<i32>,
}

/// The outcome of checking a diagram's syntax.
#[derive(Debug, Clone)]
pub struct MermaidValidation {
    pub is_valid: bool,
    /// A one-line reason where the diagram is invalid.
    pub error: Option<String>,
    /// Longer context where the diagram is invalid.
    pub details: Option<String>,
}

/// A terminal cell of a drawing.
#[derive(Debug, Clone, Copy, PartialEq, Eq, Structural)]
pub struct AsciiDrawingCoord {
    pub x: i32,
    pub y: i32,
}

/// A rectangle of terminal cells.
#[derive(Debug, Clone, Copy, PartialEq, Eq, Structural)]
pub struct AsciiBox {
    pub x: i32,
    pub y: i32,
    pub width: i32,
    pub height: i32,
}

/// Where a node's box was drawn.
#[derive(Debug, Clone)]
pub struct AsciiRenderMetaNode {
    /// The node's identifier in the diagram source.
    pub id: String,
    /// The text shown inside the box.
    pub label: String,
    pub box_rect: AsciiBox,
}

/// The cells a connector was drawn on, in stroke order.
#[derive(Debug, Clone)]
pub struct AsciiRenderMetaEdge {
    pub from: String,
    pub to: String,
    pub label: String,
    pub path: Vec<AsciiDrawingCoord>,
}

/// Placement of every node and connector of a drawing.
#[derive(Debug, Clone)]
pub struct AsciiRenderMeta {
    pub nodes: Vec<AsciiRenderMetaNode>,
    pub edges: Vec<AsciiRenderMetaEdge>,
}

/// A drawing together with its placement.
#[derive(Debug, Clone)]
pub struct AsciiRenderWithMeta {
    pub text: String,
    pub meta: AsciiRenderMeta,
}

} // verus!
