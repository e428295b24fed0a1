//! Constrained orthogonal path routing for diagrams drawn on character grids.
//!
//! A router searches a row-major grid for an orthogonal route between two cells,
//! under one of three policies: free (obstacles only), strict (no four-way
//! crossings, restricted reuse of drawn segments) and relaxed (crossings cost extra,
//! same-pair connectors may share a trunk). Search state is kept in a reusable,
//! generation-stamped cache.

pub mod error;
pub mod grid;
pub mod heap;
pub mod laws;
pub mod markdown;
pub mod router;
pub mod rules;
pub mod search;

pub use error::{grid_height, RouteError};
pub use grid::{Dir, Grid, MAX_GRID_CELLS};
pub use heap::MinHeap;
pub use search::NativeAStar;
pub mod theme;
pub mod types;

pub use theme::DiagramColors;
pub use types::{
    AsciiBox, AsciiDrawingCoord, AsciiRenderMeta, AsciiRenderMetaEdge, AsciiRenderMetaNode,
    AsciiRenderOptions, AsciiRenderWithMeta, AsciiRouting, MermaidValidation,
};
