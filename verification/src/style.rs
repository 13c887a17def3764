//! The texts by which the canvas is drawn: CSS declarations, SVG path data and
//! element names.
use crate::digits::{append_decimal, decimal_text, lemma_decimal_injective};
use crate::double::Double;
use crate::geometry::Viewport;
use crate::graph::FlowNode;
use crate::scene::EdgeCurve;
use crate::viewport::{dots_position, dots_size, spec_dots_size, DOT_SPACING_BITS};
use vstd::prelude::*;

verus! {

/// The tile of the dotted background: one dot on an area of 20 by 20.
pub const DOTS_TILE: &'static str =
    "url(\"data:image/svg+xml;utf8,<svg xmlns='http://www.w3.org/2000/svg' width='20' height='20'><circle cx='2' cy='2' r='1.4' fill='%2394a3b8' fill-opacity='0.45'/></svg>\")";

/// The transformation of the scene: moved by `(x, y)`, then scaled by `zoom`.
pub open spec fn transform_text(x: Seq<char>, y: Seq<char>, zoom: Seq<char>) -> Seq<char> {
    "translate("@ + x + "px, "@ + y + "px) scale("@ + zoom + ")"@
}

/// The value of the scene's `transform` property.
pub fn frame_transform(viewport: Viewport) -> (r: String)
    ensures
        r@ == transform_text(
            viewport.x.display_text(),
            viewport.y.display_text(),
            viewport.zoom.display_text(),
        ),
        r@ == "translate("@ + viewport.x.display_text() + "px, "@ + viewport.y.display_text()
            + "px) scale("@ + viewport.zoom.display_text() + ")"@,
{
    let mut r: String = "translate(".to_owned();
    r.append(viewport.x.to_text().as_str());
    r.append("px, ");
    r.append(viewport.y.to_text().as_str());
    r.append("px) scale(");
    r.append(viewport.zoom.to_text().as_str());
    r.append(")");
    r
}

/// The style of the layer that holds the scene.
pub open spec fn frame_style_text(x: Seq<char>, y: Seq<char>, zoom: Seq<char>) -> Seq<char> {
    "position: absolute; left: 0; top: 0; transform-origin: 0 0; transform: "@ + transform_text(
        x,
        y,
        zoom,
    ) + "; will-change: transform;"@
}

/// The style of the layer that holds the scene.
pub fn frame_style(viewport: Viewport) -> (r: String)
    ensures
        r@ == frame_style_text(
            viewport.x.display_text(),
            viewport.y.display_text(),
            viewport.zoom.display_text(),
        ),
        r@ == "position: absolute; left: 0; top: 0; transform-origin: 0 0; transform: "@ + (
        "translate("@ + viewport.x.display_text() + "px, "@ + viewport.y.display_text()
            + "px) scale("@ + viewport.zoom.display_text() + ")"@) + "; will-change: transform;"@,
{
    let transform: String = frame_transform(viewport);
    let mut r: String =
        "position: absolute; left: 0; top: 0; transform-origin: 0 0; transform: ".to_owned();
    r.append(transform.as_str());
    r.append("; will-change: transform;");
    r
}

/// The class list of the layer that holds the scene. Callers animate viewport changes
/// by the second class.
pub open spec fn frame_class_text(animate: bool) -> Seq<char> {
    if animate {
        "flow-frame flow-frame--animate"@
    } else {
        "flow-frame"@
    }
}

/// The class list of the layer that holds the scene.
pub fn frame_class(animate: bool) -> (r: String)
    ensures
        r@ == frame_class_text(animate),
        animate ==> r@ == "flow-frame flow-frame--animate"@,
        !animate ==> r@ == "flow-frame"@,
{
    if animate {
        "flow-frame flow-frame--animate".to_owned()
    } else {
        "flow-frame".to_owned()
    }
}

/// Where the dotted background starts.
pub open spec fn background_position_text(x: Seq<char>, y: Seq<char>) -> Seq<char> {
    x + "px "@ + y + "px"@
}

/// The value of the background's `background-position` property.
pub fn dots_background_position(viewport: Viewport) -> (r: String)
    ensures
        r@ == ({
            let size = spec_dots_size(viewport.zoom);
            background_position_text(
                viewport.x.spec_rem_euclid(size).display_text(),
                viewport.y.spec_rem_euclid(size).display_text(),
            )
        }),
        r@ == ({
            let size = (Double { bits: DOT_SPACING_BITS }).spec_mul(viewport.zoom);
            viewport.x.spec_rem_euclid(size).display_text() + "px "@
                + viewport.y.spec_rem_euclid(size).display_text() + "px"@
        }),
{
    let (x, y): (Double, Double) = dots_position(viewport);
    let mut r: String = x.to_text();
    r.append("px ");
    r.append(y.to_text().as_str());
    r.append("px");
    r
}

/// The style of the dotted background.
pub open spec fn dots_style_text(size: Seq<char>, x: Seq<char>, y: Seq<char>) -> Seq<char> {
    "position: absolute; inset: 0; pointer-events: none; background-image: "@ + DOTS_TILE@
        + "; background-repeat: repeat; background-size: "@ + size + "px "@ + size
        + "px; background-position: "@ + background_position_text(x, y) + ";"@
}

/// The style of the dotted background.
pub fn dots_style(viewport: Viewport) -> (r: String)
    ensures
        r@ == ({
            let size = spec_dots_size(viewport.zoom);
            dots_style_text(
                size.display_text(),
                viewport.x.spec_rem_euclid(size).display_text(),
                viewport.y.spec_rem_euclid(size).display_text(),
            )
        }),
        r@ == ({
            let size = (Double { bits: DOT_SPACING_BITS }).spec_mul(viewport.zoom);
            "position: absolute; inset: 0; pointer-events: none; background-image: "@ + DOTS_TILE@
                + "; background-repeat: repeat; background-size: "@ + size.display_text() + "px "@
                + size.display_text() + "px; background-position: "@ + (viewport.x.spec_rem_euclid(
                size,
            ).display_text() + "px "@ + viewport.y.spec_rem_euclid(size).display_text() + "px"@)
                + ";"@
        }),
{
    let size: String = dots_size(viewport).to_text();
    let position: String = dots_background_position(viewport);
    let mut r: String =
        "position: absolute; inset: 0; pointer-events: none; background-image: ".to_owned();
    r.append(DOTS_TILE);
    r.append("; background-repeat: repeat; background-size: ");
    r.append(size.as_str());
    r.append("px ");
    r.append(size.as_str());
    r.append("px; background-position: ");
    r.append(position.as_str());
    r.append(";");
    r
}

/// The style of a node's frame.
pub open spec fn node_style_text(
    left: Seq<char>,
    top: Seq<char>,
    width: Seq<char>,
    height: Seq<char>,
) -> Seq<char> {
    "position: absolute; left: "@ + left + "px; top: "@ + top + "px; width: "@ + width
        + "px; height: "@ + height + "px; cursor: grab;"@
}

/// The style of a node's frame: its rectangle in the graph.
pub fn node_style(node: &FlowNode) -> (r: String)
    ensures
        r@ == node_style_text(
            node.position.x.display_text(),
            node.position.y.display_text(),
            node.size.width.display_text(),
            node.size.height.display_text(),
        ),
        r@ == "position: absolute; left: "@ + node.position.x.display_text() + "px; top: "@
            + node.position.y.display_text() + "px; width: "@ + node.size.width.display_text()
            + "px; height: "@ + node.size.height.display_text() + "px; cursor: grab;"@,
{
    let mut r: String = "position: absolute; left: ".to_owned();
    r.append(node.position.x.to_text().as_str());
    r.append("px; top: ");
    r.append(node.position.y.to_text().as_str());
    r.append("px; width: ");
    r.append(node.size.width.to_text().as_str());
    r.append("px; height: ");
    r.append(node.size.height.to_text().as_str());
    r.append("px; cursor: grab;");
    r
}

/// The path of an edge: a cubic curve that leaves and arrives horizontally.
pub open spec fn edge_path_text(
    x1: Seq<char>,
    y1: Seq<char>,
    mid_x: Seq<char>,
    x2: Seq<char>,
    y2: Seq<char>,
) -> Seq<char> {
    "M "@ + x1 + " "@ + y1 + " C "@ + mid_x + " "@ + y1 + ", "@ + mid_x + " "@ + y2 + ", "@ + x2
        + " "@ + y2
}

/// The path data of an edge's curve.
pub fn edge_path(curve: EdgeCurve) -> (r: String)
    ensures
        r@ == edge_path_text(
            curve.x1.display_text(),
            curve.y1.display_text(),
            curve.mid_x.display_text(),
            curve.x2.display_text(),
            curve.y2.display_text(),
        ),
        r@ == "M "@ + curve.x1.display_text() + " "@ + curve.y1.display_text() + " C "@
            + curve.mid_x.display_text() + " "@ + curve.y1.display_text() + ", "@
            + curve.mid_x.display_text() + " "@ + curve.y2.display_text() + ", "@
            + curve.x2.display_text() + " "@ + curve.y2.display_text(),
{
    let mut r: String = "M ".to_owned();
    r.append(curve.x1.to_text().as_str());
    r.append(" ");
    r.append(curve.y1.to_text().as_str());
    r.append(" C ");
    r.append(curve.mid_x.to_text().as_str());
    r.append(" ");
    r.append(curve.y1.to_text().as_str());
    r.append(", ");
    r.append(curve.mid_x.to_text().as_str());
    r.append(" ");
    r.append(curve.y2.to_text().as_str());
    r.append(", ");
    r.append(curve.x2.to_text().as_str());
    r.append(" ");
    r.append(curve.y2.to_text().as_str());
    r
}

/// Where the label of an edge is drawn: its upper left corner.
pub fn label_corner(curve: EdgeCurve) -> (r: (String, String))
    ensures
        r.0@ == curve.label_x.display_text(),
        r.1@ == curve.label_y.display_text(),
{
    (curve.label_x.to_text(), curve.label_y.to_text())
}

/// The name of the arrow marker of the canvas `canvas_id`.
pub open spec fn marker_id_text(canvas_id: nat) -> Seq<char> {
    "dioxus-flow-arrow-"@ + decimal_text(canvas_id)
}

/// The name of a canvas's arrow marker.
pub fn marker_id(canvas_id: u64) -> (r: String)
    ensures
        r@ == marker_id_text(canvas_id as nat),
        r@ == "dioxus-flow-arrow-"@ + decimal_text(canvas_id as nat),
{
    let mut r: String = "dioxus-flow-arrow-".to_owned();
    append_decimal(&mut r, canvas_id);
    r
}

/// A reference to the element `id` of the document.
pub fn marker_reference(id: &str) -> (r: String)
    ensures
        r@ == "url(#"@ + id@ + ")"@,
{
    let mut r: String = "url(#".to_owned();
    r.append(id);
    r.append(")");
    r
}

/// Two canvases with different numbers have markers with different names.
pub proof fn markers_are_distinct(m: nat, n: nat)
    requires
        m != n,
    ensures
        marker_id_text(m) != marker_id_text(n),
{
    let p = "dioxus-flow-arrow-"@;
    if marker_id_text(m) == marker_id_text(n) {
        let len = p.len() as int;
        assert(decimal_text(m) =~= marker_id_text(m).skip(len));
        assert(decimal_text(n) =~= marker_id_text(n).skip(len));
        lemma_decimal_injective(m, n);
    }
}

} // verus!
