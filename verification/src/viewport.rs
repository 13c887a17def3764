//! Where the graph is shown: zooming, fitting, and the dotted background.
use crate::accuracy::difference_error;
use crate::double::{abs_int, magnitude_gap, Double};
use crate::geometry::{Point, Size, Viewport, ONE_BITS, TWENTY_FOUR_BITS};
use crate::graph::FlowNode;
use crate::laws::fit::bounds_hold_every_node;
use crate::laws::zoom::{wheel_turns_at_its_rate, wheels_at_rate};
use vstd::prelude::*;

verus! {

/// The pattern of `2`.
pub const TWO_BITS: u64 = 0x4000_0000_0000_0000;

/// The pattern of `20`, the distance between background dots in the graph.
pub const DOT_SPACING_BITS: u64 = 0x4034_0000_0000_0000;

/// The pattern of the number nearest to `0.0015`, by which a wheel step is scaled
/// before it is exponentiated.
pub const WHEEL_RATE_BITS: u64 = 0x3f58_9374_bc6a_7efa;

/// The graph coordinate that is shown at the screen coordinate `screen`.
pub open spec fn graph_coordinate(screen: Double, offset: Double, zoom: Double) -> Double {
    screen.spec_sub(offset).spec_div(zoom)
}

/// The offset that shows the graph coordinate `graph` at `screen` under `zoom`.
pub open spec fn offset_for(screen: Double, graph: Double, zoom: Double) -> Double {
    screen.spec_sub(graph.spec_mul(zoom))
}

/// The viewport after zooming to `next_zoom` about `anchor`.
pub open spec fn zoomed(viewport: Viewport, anchor: Point, next_zoom: Double) -> Viewport {
    Viewport {
        x: offset_for(
            anchor.x,
            graph_coordinate(anchor.x, viewport.x, viewport.zoom),
            next_zoom,
        ),
        y: offset_for(
            anchor.y,
            graph_coordinate(anchor.y, viewport.y, viewport.zoom),
            next_zoom,
        ),
        zoom: next_zoom,
    }
}

/// The zoom factor, kept between the two limits.
pub fn clamp_zoom(zoom: Double, min_zoom: Double, max_zoom: Double) -> (r: Double)
    requires
        min_zoom.spec_le(max_zoom),
    ensures
        r == zoom.spec_clamp(min_zoom, max_zoom),
        !zoom.nan() ==> min_zoom.spec_le(r) && r.spec_le(max_zoom),
        zoom.spec_lt(min_zoom) ==> r == min_zoom,
        max_zoom.spec_lt(zoom) ==> r == max_zoom,
        min_zoom.spec_le(zoom) && zoom.spec_le(max_zoom) ==> r == zoom,
        zoom.nan() ==> r == zoom,
{
    zoom.clamp(min_zoom, max_zoom)
}

/// Zooms to `next_zoom` such that the graph point under `anchor` stays there.
pub fn zoom_at(viewport: Viewport, anchor: Point, next_zoom: Double) -> (r: Viewport)
    ensures
        r == zoomed(viewport, anchor, next_zoom),
        r.x == anchor.x.spec_sub(
            anchor.x.spec_sub(viewport.x).spec_div(viewport.zoom).spec_mul(next_zoom),
        ),
        r.y == anchor.y.spec_sub(
            anchor.y.spec_sub(viewport.y).spec_div(viewport.zoom).spec_mul(next_zoom),
        ),
        r.zoom == next_zoom,
{
    let graph_x: Double = anchor.x.minus(viewport.x).over(viewport.zoom);
    let graph_y: Double = anchor.y.minus(viewport.y).over(viewport.zoom);
    Viewport {
        x: anchor.x.minus(graph_x.times(next_zoom)),
        y: anchor.y.minus(graph_y.times(next_zoom)),
        zoom: next_zoom,
    }
}

/// What a wheel step of `delta_y` puts into the exponential: `-delta_y * 0.0015`.
pub fn wheel_exponent(delta_y: Double) -> (r: Double)
    ensures
        r == delta_y.spec_neg().spec_mul(Double { bits: WHEEL_RATE_BITS }),
        delta_y.finite() && r.finite() ==> wheels_at_rate(delta_y, r),
{
    proof {
        if delta_y.finite() && delta_y.spec_neg().spec_mul(Double { bits: WHEEL_RATE_BITS }).finite() {
            wheel_turns_at_its_rate(delta_y);
        }
    }
    delta_y.neg().times(Double { bits: WHEEL_RATE_BITS })
}

/// The pointer's position relative to the canvas whose upper left corner lies at
/// `corner`.
pub fn canvas_point(pointer: Point, corner: Point) -> (r: Point)
    ensures
        r == (Point { x: pointer.x.spec_sub(corner.x), y: pointer.y.spec_sub(corner.y) }),
        pointer.x.finite() && corner.x.finite() && r.x.finite() ==> 2 * abs_int(
            r.x.value() - (pointer.x.value() - corner.x.value()),
        ) <= magnitude_gap(r.x.magnitude()),
        pointer.y.finite() && corner.y.finite() && r.y.finite() ==> 2 * abs_int(
            r.y.value() - (pointer.y.value() - corner.y.value()),
        ) <= magnitude_gap(r.y.magnitude()),
{
    proof {
        if pointer.x.finite() && corner.x.finite() && pointer.x.spec_sub(corner.x).finite() {
            difference_error(pointer.x, corner.x);
        }
        if pointer.y.finite() && corner.y.finite() && pointer.y.spec_sub(corner.y).finite() {
            difference_error(pointer.y, corner.y);
        }
    }
    Point { x: pointer.x.minus(corner.x), y: pointer.y.minus(corner.y) }
}

/// The viewport after a wheel step that magnifies by `factor`, about `anchor` and
/// within the zoom limits.
pub fn wheel_zoom(
    viewport: Viewport,
    anchor: Point,
    factor: Double,
    min_zoom: Double,
    max_zoom: Double,
) -> (r: Viewport)
    requires
        min_zoom.spec_le(max_zoom),
    ensures
        r == zoomed(
            viewport,
            anchor,
            viewport.zoom.spec_mul(factor).spec_clamp(min_zoom, max_zoom),
        ),
        !viewport.zoom.spec_mul(factor).nan() ==> min_zoom.spec_le(r.zoom) && r.zoom.spec_le(
            max_zoom,
        ),
        viewport.zoom.spec_mul(factor).spec_lt(min_zoom) ==> r.zoom == min_zoom,
        max_zoom.spec_lt(viewport.zoom.spec_mul(factor)) ==> r.zoom == max_zoom,
        min_zoom.spec_le(viewport.zoom.spec_mul(factor)) && viewport.zoom.spec_mul(factor).spec_le(
            max_zoom,
        ) ==> r.zoom == viewport.zoom.spec_mul(factor),
        r.x == anchor.x.spec_sub(
            anchor.x.spec_sub(viewport.x).spec_div(viewport.zoom).spec_mul(r.zoom),
        ),
        r.y == anchor.y.spec_sub(
            anchor.y.spec_sub(viewport.y).spec_div(viewport.zoom).spec_mul(r.zoom),
        ),
{
    let next_zoom: Double = clamp_zoom(viewport.zoom.times(factor), min_zoom, max_zoom);
    zoom_at(viewport, anchor, next_zoom)
}

/// The right side of a node.
pub open spec fn node_right(node: FlowNode) -> Double {
    node.position.x.spec_add(node.size.width)
}

/// The lower side of a node.
pub open spec fn node_bottom(node: FlowNode) -> Double {
    node.position.y.spec_add(node.size.height)
}

/// The least of a sequence, as [`Double::spec_min`] finds it from the front.
pub open spec fn least(s: Seq<Double>) -> Double
    decreases s.len(),
{
    if s.len() <= 1 {
        s[0]
    } else {
        least(s.drop_last()).spec_min(s.last())
    }
}

/// The greatest of a sequence, as [`Double::spec_max`] finds it from the front.
pub open spec fn greatest(s: Seq<Double>) -> Double
    decreases s.len(),
{
    if s.len() <= 1 {
        s[0]
    } else {
        greatest(s.drop_last()).spec_max(s.last())
    }
}

/// The bounding box of a graph.
#[derive(Clone, Copy, Debug)]
pub struct Bounds {
    pub left: Double,
    pub top: Double,
    pub right: Double,
    pub bottom: Double,
}

/// The bounding box of at least one node.
pub open spec fn bounds_of(nodes: Seq<FlowNode>) -> Bounds {
    Bounds {
        left: least(nodes.map_values(|n: FlowNode| n.position.x)),
        top: least(nodes.map_values(|n: FlowNode| n.position.y)),
        right: greatest(nodes.map_values(|n: FlowNode| node_right(n))),
        bottom: greatest(nodes.map_values(|n: FlowNode| node_bottom(n))),
    }
}

/// The bounding box of the first `i` nodes follows from that of the first `i - 1`.
proof fn lemma_bounds_step(nodes: Seq<FlowNode>, i: int)
    requires
        1 <= i < nodes.len(),
    ensures
        bounds_of(nodes.take(i + 1)) == (Bounds {
            left: bounds_of(nodes.take(i)).left.spec_min(nodes[i].position.x),
            top: bounds_of(nodes.take(i)).top.spec_min(nodes[i].position.y),
            right: bounds_of(nodes.take(i)).right.spec_max(node_right(nodes[i])),
            bottom: bounds_of(nodes.take(i)).bottom.spec_max(node_bottom(nodes[i])),
        }),
{
    let now = nodes.take(i);
    let next = nodes.take(i + 1);
    assert(next.map_values(|n: FlowNode| n.position.x).drop_last() =~= now.map_values(
        |n: FlowNode| n.position.x,
    ));
    assert(next.map_values(|n: FlowNode| n.position.y).drop_last() =~= now.map_values(
        |n: FlowNode| n.position.y,
    ));
    assert(next.map_values(|n: FlowNode| node_right(n)).drop_last() =~= now.map_values(
        |n: FlowNode| node_right(n),
    ));
    assert(next.map_values(|n: FlowNode| node_bottom(n)).drop_last() =~= now.map_values(
        |n: FlowNode| node_bottom(n),
    ));
}

/// The bounding box of the nodes, if there is any node.
pub fn bounds(nodes: &[FlowNode]) -> (r: Option<Bounds>)
    ensures
        r == if nodes@.len() == 0 {
            None
        } else {
            Some(bounds_of(nodes@))
        },
        r matches Some(b) ==> forall|i: int|
            0 <= i < nodes@.len() ==> {
                let (p, s) = ((#[trigger] nodes@[i]).position, nodes@[i].size);
                &&& !p.x.nan() ==> b.left.spec_le(p.x)
                &&& !p.y.nan() ==> b.top.spec_le(p.y)
                &&& !p.x.spec_add(s.width).nan() ==> p.x.spec_add(s.width).spec_le(b.right)
                &&& !p.y.spec_add(s.height).nan() ==> p.y.spec_add(s.height).spec_le(b.bottom)
            },
{
    if nodes.len() == 0 {
        return None;
    }
    let first: &FlowNode = &nodes[0];
    let mut left: Double = first.position.x;
    let mut top: Double = first.position.y;
    let mut right: Double = first.position.x.plus(first.size.width);
    let mut bottom: Double = first.position.y.plus(first.size.height);
    let mut i: usize = 1;
    while i < nodes.len()
        invariant
            1 <= i <= nodes@.len(),
            (Bounds { left, top, right, bottom }) == bounds_of(nodes@.take(i as int)),
        decreases nodes@.len() - i,
    {
        proof {
            lemma_bounds_step(nodes@, i as int);
        }
        let node: &FlowNode = &nodes[i];
        left = left.min(node.position.x);
        top = top.min(node.position.y);
        right = right.max(node.position.x.plus(node.size.width));
        bottom = bottom.max(node.position.y.plus(node.size.height));
        i = i + 1;
    }
    assert(nodes@.take(i as int) =~= nodes@);
    proof {
        assert forall|k: int| 0 <= k < nodes@.len() implies {
            let (p, s) = ((#[trigger] nodes@[k]).position, nodes@[k].size);
            &&& !p.x.nan() ==> left.spec_le(p.x)
            &&& !p.y.nan() ==> top.spec_le(p.y)
            &&& !p.x.spec_add(s.width).nan() ==> p.x.spec_add(s.width).spec_le(right)
            &&& !p.y.spec_add(s.height).nan() ==> p.y.spec_add(s.height).spec_le(bottom)
        } by {
            bounds_hold_every_node(nodes@, k);
        }
    }
    Some(Bounds { left, top, right, bottom })
}

/// A length that is at least one.
pub open spec fn at_least_one(length: Double) -> Double {
    length.spec_max(Double { bits: ONE_BITS })
}

/// What is left of a length between two paddings, but at least one.
pub open spec fn available(length: Double, padding: Double) -> Double {
    at_least_one(length.spec_sub(padding.spec_mul(Double { bits: TWO_BITS })))
}

/// The offset that centers a content of size `content`, which starts at `start`, in
/// `length`.
pub open spec fn centered_offset(length: Double, content: Double, start: Double, zoom: Double) -> Double {
    length.spec_sub(content.spec_mul(zoom)).spec_div(Double { bits: TWO_BITS }).spec_sub(
        start.spec_mul(zoom),
    )
}

/// The zoom at which the bounding box fits into the viewport without its padding,
/// before the limits are applied.
pub open spec fn natural_zoom(b: Bounds, viewport_size: Size, padding: Double) -> Double {
    available(viewport_size.width, padding).spec_div(
        at_least_one(b.right.spec_sub(b.left)),
    ).spec_min(
        available(viewport_size.height, padding).spec_div(
            at_least_one(b.bottom.spec_sub(b.top)),
        ),
    )
}

/// The viewport that shows the bounding box centered, as large as the padding and
/// the zoom limits let it be.
pub open spec fn fitted(
    b: Bounds,
    viewport_size: Size,
    padding: Double,
    min_zoom: Double,
    max_zoom: Double,
) -> Viewport {
    let zoom = natural_zoom(b, viewport_size, padding).spec_clamp(min_zoom, max_zoom);
    Viewport {
        x: centered_offset(
            viewport_size.width,
            at_least_one(b.right.spec_sub(b.left)),
            b.left,
            zoom,
        ),
        y: centered_offset(
            viewport_size.height,
            at_least_one(b.bottom.spec_sub(b.top)),
            b.top,
            zoom,
        ),
        zoom,
    }
}

/// The viewport that shows all nodes: centered, as large as the padding and the zoom
/// limits let them be. Without nodes it is the viewport of a new canvas.
pub fn fit_viewport(
    nodes: &[FlowNode],
    viewport_size: Size,
    padding: Double,
    min_zoom: Double,
    max_zoom: Double,
) -> (r: Viewport)
    requires
        nodes@.len() > 0 ==> min_zoom.spec_le(max_zoom),
    ensures
        r == if nodes@.len() == 0 {
            Viewport::initial()
        } else {
            fitted(bounds_of(nodes@), viewport_size, padding, min_zoom, max_zoom)
        },
        nodes@.len() == 0 ==> r.x.bits == TWENTY_FOUR_BITS && r.y.bits == TWENTY_FOUR_BITS
            && r.zoom.bits == ONE_BITS,
        nodes@.len() > 0 ==> {
            let (one, two) = (Double { bits: ONE_BITS }, Double { bits: TWO_BITS });
            let b = bounds_of(nodes@);
            let width = b.right.spec_sub(b.left).spec_max(one);
            let height = b.bottom.spec_sub(b.top).spec_max(one);
            let room_x = viewport_size.width.spec_sub(padding.spec_mul(two)).spec_max(one);
            let room_y = viewport_size.height.spec_sub(padding.spec_mul(two)).spec_max(one);
            let natural = room_x.spec_div(width).spec_min(room_y.spec_div(height));
            &&& natural.spec_lt(min_zoom) ==> r.zoom == min_zoom
            &&& max_zoom.spec_lt(natural) ==> r.zoom == max_zoom
            &&& !natural.spec_lt(min_zoom) && !max_zoom.spec_lt(natural) ==> r.zoom == natural
            &&& r.x == viewport_size.width.spec_sub(width.spec_mul(r.zoom)).spec_div(two).spec_sub(
                b.left.spec_mul(r.zoom),
            )
            &&& r.y == viewport_size.height.spec_sub(height.spec_mul(r.zoom)).spec_div(
                two,
            ).spec_sub(b.top.spec_mul(r.zoom))
        },
{
    let b: Bounds = match bounds(nodes) {
        None => {
            return Viewport::default();
        },
        Some(b) => b,
    };
    let one: Double = Double { bits: ONE_BITS };
    let two: Double = Double { bits: TWO_BITS };
    let content_width: Double = b.right.minus(b.left).max(one);
    let content_height: Double = b.bottom.minus(b.top).max(one);
    let available_width: Double = viewport_size.width.minus(padding.times(two)).max(one);
    let available_height: Double = viewport_size.height.minus(padding.times(two)).max(one);
    let zoom: Double = clamp_zoom(
        available_width.over(content_width).min(available_height.over(content_height)),
        min_zoom,
        max_zoom,
    );
    Viewport {
        x: viewport_size.width.minus(content_width.times(zoom)).over(two).minus(b.left.times(zoom)),
        y: viewport_size.height.minus(content_height.times(zoom)).over(two).minus(
            b.top.times(zoom),
        ),
        zoom,
    }
}

/// The distance between background dots on the screen.
pub open spec fn spec_dots_size(zoom: Double) -> Double {
    Double { bits: DOT_SPACING_BITS }.spec_mul(zoom)
}

/// The distance between background dots on the screen.
pub fn dots_size(viewport: Viewport) -> (r: Double)
    ensures
        r == spec_dots_size(viewport.zoom),
        r == (Double { bits: DOT_SPACING_BITS }).spec_mul(viewport.zoom),
{
    Double { bits: DOT_SPACING_BITS }.times(viewport.zoom)
}

/// Where the dotted background starts on the screen. It moves with the viewport,
/// modulo the distance between dots.
pub fn dots_position(viewport: Viewport) -> (r: (Double, Double))
    ensures
        r.0 == viewport.x.spec_rem_euclid(spec_dots_size(viewport.zoom)),
        r.1 == viewport.y.spec_rem_euclid(spec_dots_size(viewport.zoom)),
        r.0 == viewport.x.spec_rem_euclid(
            (Double { bits: DOT_SPACING_BITS }).spec_mul(viewport.zoom),
        ),
        r.1 == viewport.y.spec_rem_euclid(
            (Double { bits: DOT_SPACING_BITS }).spec_mul(viewport.zoom),
        ),
{
    let size: Double = dots_size(viewport);
    (viewport.x.rem_euclid(size), viewport.y.rem_euclid(size))
}

} // verus!
