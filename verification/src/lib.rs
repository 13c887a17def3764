//! A small, business-agnostic node canvas.
//!
//! The library owns what a canvas computes: where the viewport is after zooming,
//! panning and fitting, when a press on a node is a click and when a drag, which edges
//! are drawn and where, and the texts that say so to the browser. Callers keep node
//! data, layout and node content; the components in `app/` connect both to the screen.
//!
//! All geometry is in double precision. A [`Double`] holds the bit pattern of a number,
//! and its arithmetic is proved to return the nearest number to the exact result, so
//! that [`laws`] can say how closely the geometry keeps its promises.
#![allow(unused_imports)]

pub mod accuracy;
pub mod arithmetic;
pub mod canvases;
pub mod decimal;
pub mod digits;
pub mod double;
pub mod drag;
pub mod fixed;
pub mod format;
pub mod geometry;
pub mod graph;
pub mod laws;
pub mod natural;
pub mod notation;
pub mod pan;
pub mod rounding;
pub mod scene;
pub mod style;
pub mod viewport;

pub use canvases::{CanvasNumbers, FIRST_CANVAS};
pub use double::Double;
pub use drag::{
    exceeds_node_drag_threshold, move_drag, press_node, release_drag, release_node, DragState,
    NodePress,
};
pub use format::{NumberFormat, TextAlign};
pub use geometry::{Point, Size, Viewport};
pub use graph::{EdgeEmphasis, FlowEdge, FlowNode, NodeId, NodeMove};
pub use pan::{finish_pan, move_pan, press_canvas, Pan};
pub use scene::{edge_curve, find_node, place_edges, EdgeCurve, PlacedEdge};
pub use viewport::{
    bounds, canvas_point, clamp_zoom, dots_position, dots_size, fit_viewport, wheel_exponent,
    wheel_zoom, zoom_at, Bounds,
};
