//! Fitting follows the graph: where every node is moved by the same distance, the fitted
//! viewport keeps its zoom and is moved the other way, so that the nodes are shown where
//! they were.
use crate::accuracy::{difference_error, lemma_weighted, quotient_error, sum_error};
use crate::arithmetic::one;
use crate::double::{abs_int, lemma_magnitude_nonnegative, magnitude_gap, Double};
use crate::geometry::{Point, Size};
use crate::graph::FlowNode;
use crate::laws::constants::constants_are_what_they_say;
use crate::laws::fit::{
    centering_bound, centering_is_finite, lemma_at_least_one, lemma_centered, lemma_greatest,
    lemma_least, lemma_quotient_is_finite,
};
use crate::laws::fractions::{
    fractions_add, fractions_divide, fractions_multiply, fractions_subtract, is_fraction,
    is_moderate, value_determines_pattern, whole_is_fraction,
};
use crate::laws::order::lemma_quotient_value;
use crate::viewport::{
    at_least_one, available, bounds_of, centered_offset, fitted, greatest, least, node_bottom,
    node_right, TWO_BITS,
};
use vstd::arithmetic::power2::{lemma_pow2_unfold, pow2};
use vstd::prelude::*;

verus! {

/// The node, moved by `by`.
pub open spec fn moved_node(node: FlowNode, by: Point) -> FlowNode {
    FlowNode {
        position: Point {
            x: node.position.x.spec_add(by.x),
            y: node.position.y.spec_add(by.y),
        },
        ..node
    }
}

/// The nodes, each moved by `by`.
pub open spec fn moved_nodes(nodes: Seq<FlowNode>, by: Point) -> Seq<FlowNode> {
    nodes.map_values(|n: FlowNode| moved_node(n, by))
}

/// In one coordinate, a node's two sides before and after a move by `d` are finite, and
/// the gaps at those that are computed are at most `g`.
pub open spec fn moves_finely(start: Double, size: Double, d: Double, g: int) -> bool {
    let end = start.spec_add(size);
    let next_start = start.spec_add(d);
    let next_end = next_start.spec_add(size);
    &&& start.finite()
    &&& size.finite()
    &&& d.finite()
    &&& end.finite()
    &&& next_start.finite()
    &&& next_end.finite()
    &&& magnitude_gap(end.magnitude()) <= g
    &&& magnitude_gap(next_start.magnitude()) <= g
    &&& magnitude_gap(next_end.magnitude()) <= g
}

/// The least of finite numbers that are all moved by about `d` is moved by about `d`.
proof fn lemma_least_moves(s: Seq<Double>, t: Seq<Double>, d: int, g: int)
    requires
        0 < s.len() == t.len(),
        forall|i: int| 0 <= i < s.len() ==> (#[trigger] s[i]).finite(),
        forall|i: int| 0 <= i < t.len() ==> (#[trigger] t[i]).finite(),
        forall|i: int|
            #![trigger s[i]]
            #![trigger t[i]]
            0 <= i < s.len() ==> 2 * abs_int(t[i].value() - (s[i].value() + d)) <= g,
    ensures
        least(s).finite(),
        least(t).finite(),
        2 * abs_int(least(t).value() - (least(s).value() + d)) <= g,
{
    lemma_least(s);
    lemma_least(t);
    let j = choose|j: int| 0 <= j < s.len() && s[j] == least(s);
    let k = choose|k: int| 0 <= k < t.len() && t[k] == least(t);
    assert(least(s).spec_le(s[k]) && least(t).spec_le(t[j]));
}

/// The greatest of finite numbers that are all moved by about `d` is moved by about `d`.
proof fn lemma_greatest_moves(s: Seq<Double>, t: Seq<Double>, d: int, g: int)
    requires
        0 < s.len() == t.len(),
        forall|i: int| 0 <= i < s.len() ==> (#[trigger] s[i]).finite(),
        forall|i: int| 0 <= i < t.len() ==> (#[trigger] t[i]).finite(),
        forall|i: int|
            #![trigger s[i]]
            #![trigger t[i]]
            0 <= i < s.len() ==> 2 * abs_int(t[i].value() - (s[i].value() + d)) <= g,
    ensures
        greatest(s).finite(),
        greatest(t).finite(),
        2 * abs_int(greatest(t).value() - (greatest(s).value() + d)) <= g,
{
    lemma_greatest(s);
    lemma_greatest(t);
    let j = choose|j: int| 0 <= j < s.len() && s[j] == greatest(s);
    let k = choose|k: int| 0 <= k < t.len() && t[k] == greatest(t);
    assert(s[k].spec_le(greatest(s)) && t[j].spec_le(greatest(t)));
}

/// The sides of a node are moved by about `d`.
proof fn lemma_sides_move(start: Double, size: Double, d: Double, g: int)
    requires
        moves_finely(start, size, d, g),
    ensures
        2 * abs_int(start.spec_add(d).value() - (start.value() + d.value())) <= g,
        2 * abs_int(
            start.spec_add(d).spec_add(size).value() - (start.spec_add(size).value() + d.value()),
        ) <= 3 * g,
{
    sum_error(start, d);
    sum_error(start, size);
    sum_error(start.spec_add(d), size);
}

/// The bounding box is moved with the nodes, up to the rounding at their sides.
pub proof fn bounds_move_with_nodes(nodes: Seq<FlowNode>, by: Point, gx: int, gy: int)
    requires
        nodes.len() > 0,
        forall|i: int|
            0 <= i < nodes.len() ==> moves_finely(
                (#[trigger] nodes[i]).position.x,
                nodes[i].size.width,
                by.x,
                gx,
            ),
        forall|i: int|
            0 <= i < nodes.len() ==> moves_finely(
                (#[trigger] nodes[i]).position.y,
                nodes[i].size.height,
                by.y,
                gy,
            ),
    ensures
        ({
            let b = bounds_of(nodes);
            let c = bounds_of(moved_nodes(nodes, by));
            &&& b.left.finite() && b.top.finite() && b.right.finite() && b.bottom.finite()
            &&& c.left.finite() && c.top.finite() && c.right.finite() && c.bottom.finite()
            &&& 2 * abs_int(c.left.value() - (b.left.value() + by.x.value())) <= gx
            &&& 2 * abs_int(c.top.value() - (b.top.value() + by.y.value())) <= gy
            &&& 2 * abs_int(c.right.value() - (b.right.value() + by.x.value())) <= 3 * gx
            &&& 2 * abs_int(c.bottom.value() - (b.bottom.value() + by.y.value())) <= 3 * gy
        }),
{
    let next = moved_nodes(nodes, by);
    assert forall|i: int| 0 <= i < nodes.len() implies moves_finely(
        (#[trigger] nodes[i]).position.x,
        nodes[i].size.width,
        by.x,
        gx,
    ) && next[i] == moved_node(nodes[i], by) by {}
    let (xs, next_xs) = (
        nodes.map_values(|n: FlowNode| n.position.x),
        next.map_values(|n: FlowNode| n.position.x),
    );
    let (ys, next_ys) = (
        nodes.map_values(|n: FlowNode| n.position.y),
        next.map_values(|n: FlowNode| n.position.y),
    );
    let (rs, next_rs) = (
        nodes.map_values(|n: FlowNode| node_right(n)),
        next.map_values(|n: FlowNode| node_right(n)),
    );
    let (bs, next_bs) = (
        nodes.map_values(|n: FlowNode| node_bottom(n)),
        next.map_values(|n: FlowNode| node_bottom(n)),
    );
    let (dx, dy) = (by.x.value(), by.y.value());
    assert forall|i: int|
        #![trigger xs[i]]
        #![trigger next_xs[i]]
        #![trigger ys[i]]
        #![trigger next_ys[i]]
        #![trigger rs[i]]
        #![trigger next_rs[i]]
        #![trigger bs[i]]
        #![trigger next_bs[i]]
        0 <= i < nodes.len() implies {
        &&& xs[i].finite() && next_xs[i].finite() && ys[i].finite() && next_ys[i].finite()
        &&& rs[i].finite() && next_rs[i].finite() && bs[i].finite() && next_bs[i].finite()
        &&& 2 * abs_int(next_xs[i].value() - (xs[i].value() + dx)) <= gx
        &&& 2 * abs_int(next_ys[i].value() - (ys[i].value() + dy)) <= gy
        &&& 2 * abs_int(next_rs[i].value() - (rs[i].value() + dx)) <= 3 * gx
        &&& 2 * abs_int(next_bs[i].value() - (bs[i].value() + dy)) <= 3 * gy
    } by {
        let n = nodes[i];
        lemma_sides_move(n.position.x, n.size.width, by.x, gx);
        lemma_sides_move(n.position.y, n.size.height, by.y, gy);
    }
    lemma_least_moves(xs, next_xs, dx, gx);
    lemma_least_moves(ys, next_ys, dy, gy);
    lemma_greatest_moves(rs, next_rs, dx, 3 * gx);
    lemma_greatest_moves(bs, next_bs, dy, 3 * gy);
}

/// In one coordinate, the content from `low` to `high` and that from `next_low` to
/// `next_high` differ in size by no more than this (twice over), where the sides are
/// moved alike up to gaps of `g`.
pub open spec fn extent_slack(low: Double, high: Double, next_low: Double, next_high: Double, g: int) -> int {
    4 * g + magnitude_gap(high.spec_sub(low).magnitude()) + magnitude_gap(
        next_high.spec_sub(next_low).magnitude(),
    )
}

proof fn lemma_extents_close(low: Double, high: Double, next_low: Double, next_high: Double, d: int, g: int)
    requires
        low.finite(),
        high.finite(),
        next_low.finite(),
        next_high.finite(),
        high.spec_sub(low).finite(),
        next_high.spec_sub(next_low).finite(),
        2 * abs_int(next_low.value() - (low.value() + d)) <= g,
        2 * abs_int(next_high.value() - (high.value() + d)) <= 3 * g,
    ensures
        2 * abs_int(
            at_least_one(next_high.spec_sub(next_low)).value() - at_least_one(
                high.spec_sub(low),
            ).value(),
        ) <= extent_slack(low, high, next_low, next_high, g),
{
    difference_error(high, low);
    difference_error(next_high, next_low);
}

/// Two quotients of the same length are as close as their divisors make them.
proof fn lemma_quotients_close(a: Double, c: Double, next_c: Double, e: int)
    requires
        a.finite(),
        c.finite(),
        next_c.finite(),
        a.value() > 0,
        c.value() > 0,
        next_c.value() > 0,
        a.spec_div(c).finite(),
        a.spec_div(next_c).finite(),
        2 * abs_int(next_c.value() - c.value()) <= e,
    ensures
        ({
            let (q, r) = (a.spec_div(c), a.spec_div(next_c));
            2 * (c.value() * abs_int(r.value() - q.value())) <= r.value() * e + magnitude_gap(
                q.magnitude(),
            ) * c.value() + magnitude_gap(r.magnitude()) * next_c.value()
        }),
{
    let (q, r) = (a.spec_div(c), a.spec_div(next_c));
    quotient_error(a, c);
    quotient_error(a, next_c);
    lemma_quotient_value(a, next_c);
    lemma_magnitude_nonnegative(a.magnitude());
    lemma_magnitude_nonnegative(r.magnitude());
    let (m, n, v, w) = (c.value(), next_c.value(), q.value(), r.value());
    lemma_weighted(w, n - m, e);
    assert(m * (w - v) == w * n - v * m - w * (n - m)) by (nonlinear_arith);
    let k = abs_int(w - v);
    assert(m * k == abs_int(m * (w - v))) by (nonlinear_arith)
        requires
            m > 0,
            k == abs_int(w - v),
    ;
}

/// In one coordinate, how far the offset can be (four times over, and scaled as in
/// `fit_follows`) from where it would be without rounding: what centering rounds, and
/// what the start, the size and the zoom have changed by.
pub open spec fn offset_slack(
    length: Double,
    low: Double,
    high: Double,
    next_low: Double,
    next_high: Double,
    zoom: Double,
    next_zoom: Double,
    g: int,
) -> int {
    let content = at_least_one(high.spec_sub(low));
    let next_content = at_least_one(next_high.spec_sub(next_low));
    let slack = extent_slack(low, high, next_low, next_high, g);
    centering_bound(length, content, low, zoom) + centering_bound(
        length,
        next_content,
        next_low,
        next_zoom,
    ) + abs_int(zoom.value()) * (2 * g + slack) + (4 * abs_int(next_low.value()) + 2
        * next_content.value()) * abs_int(next_zoom.value() - zoom.value())
}

/// In one coordinate, the content from `low` to `high` is moved by `d` to that from
/// `next_low` to `next_high`, and the fit follows, up to rounding:
/// - its start is moved by `d`, up to `g`, and its size is kept, up to `extent_slack`;
/// - so is the zoom at which it takes the available length (the size of that error is
///   multiplied out with the size of the content);
/// - the offset goes back by `d` times the zoom, up to `offset_slack`.
pub open spec fn fit_follows(
    length: Double,
    padding: Double,
    low: Double,
    high: Double,
    next_low: Double,
    next_high: Double,
    d: Double,
    zoom: Double,
    next_zoom: Double,
    g: int,
) -> bool {
    let content = at_least_one(high.spec_sub(low));
    let next_content = at_least_one(next_high.spec_sub(next_low));
    let natural = available(length, padding).spec_div(content);
    let next_natural = available(length, padding).spec_div(next_content);
    let offset = centered_offset(length, content, low, zoom);
    let next_offset = centered_offset(length, next_content, next_low, next_zoom);
    let slack = extent_slack(low, high, next_low, next_high, g);
    &&& 2 * abs_int(next_low.value() - (low.value() + d.value())) <= g
    &&& 2 * abs_int(next_content.value() - content.value()) <= slack
    &&& 2 * (content.value() * abs_int(next_natural.value() - natural.value()))
        <= next_natural.value() * slack + magnitude_gap(natural.magnitude()) * content.value()
        + magnitude_gap(next_natural.magnitude()) * next_content.value()
    &&& 4 * abs_int(
        (next_offset.value() - offset.value()) * one() + d.value() * zoom.value(),
    ) <= offset_slack(length, low, high, next_low, next_high, zoom, next_zoom, g)
}

/// The last inequality of `fit_follows`, over integers.
proof fn lemma_offset_follows(
    s: int,
    w: int,
    d: int,
    x: int,
    next_x: int,
    low: int,
    next_low: int,
    c: int,
    next_c: int,
    z: int,
    next_z: int,
    bound: int,
    next_bound: int,
    g: int,
    slack: int,
)
    requires
        next_c >= 0,
        2 * abs_int(2 * (x * s + low * z) + c * z - w * s) <= bound,
        2 * abs_int(2 * (next_x * s + next_low * next_z) + next_c * next_z - w * s) <= next_bound,
        2 * abs_int(next_low - (low + d)) <= g,
        2 * abs_int(next_c - c) <= slack,
    ensures
        4 * abs_int((next_x - x) * s + d * z) <= bound + next_bound + abs_int(z) * (2 * g + slack)
            + (4 * abs_int(next_low) + 2 * next_c) * abs_int(next_z - z),
{
    let i = 2 * (x * s + low * z) + c * z - w * s;
    let j = 2 * (next_x * s + next_low * next_z) + next_c * next_z - w * s;
    let e = next_low - (low + d);
    let f = next_c - c;
    let dz = next_z - z;
    assert((next_x - x) * s == next_x * s - x * s) by (nonlinear_arith);
    assert(next_low * next_z == next_low * dz + low * z + d * z + e * z) by (nonlinear_arith)
        requires
            e == next_low - (low + d),
            dz == next_z - z,
    ;
    assert(next_c * next_z == next_c * dz + c * z + f * z) by (nonlinear_arith)
        requires
            f == next_c - c,
            dz == next_z - z,
    ;
    let total = (next_x - x) * s + d * z;
    assert(2 * total == j - i - 2 * (next_low * dz) - 2 * (e * z) - next_c * dz - f * z);
    lemma_weighted(z, e, g);
    lemma_weighted(z, f, slack);
    assert(z * e == e * z && z * f == f * z) by (nonlinear_arith);
    let (az, ad, al) = (abs_int(z), abs_int(dz), abs_int(next_low));
    assert(abs_int(next_low * dz) == al * ad) by (nonlinear_arith)
        requires
            al == abs_int(next_low),
            ad == abs_int(dz),
    ;
    assert(abs_int(next_c * dz) == next_c * ad) by (nonlinear_arith)
        requires
            next_c >= 0,
            ad == abs_int(dz),
    ;
    assert(az * (2 * g + slack) == 2 * (az * g) + az * slack) by (nonlinear_arith);
    assert((4 * al + 2 * next_c) * ad == 4 * (al * ad) + 2 * (next_c * ad)) by (nonlinear_arith);
}

/// In one coordinate, fitting the content from `low` to `high` does not leave the finite
/// numbers.
pub open spec fn fit_is_finite(
    length: Double,
    padding: Double,
    low: Double,
    high: Double,
    zoom: Double,
) -> bool {
    let extent = high.spec_sub(low);
    &&& extent.finite()
    &&& available(length, padding).finite()
    &&& centering_is_finite(length, at_least_one(extent), low, zoom)
}

proof fn lemma_fit_follows(
    length: Double,
    padding: Double,
    low: Double,
    high: Double,
    next_low: Double,
    next_high: Double,
    d: Double,
    zoom: Double,
    next_zoom: Double,
    g: int,
)
    requires
        fit_is_finite(length, padding, low, high, zoom),
        fit_is_finite(length, padding, next_low, next_high, next_zoom),
        high.finite(),
        next_high.finite(),
        2 * abs_int(next_low.value() - (low.value() + d.value())) <= g,
        2 * abs_int(next_high.value() - (high.value() + d.value())) <= 3 * g,
    ensures
        fit_follows(length, padding, low, high, next_low, next_high, d, zoom, next_zoom, g),
        available(length, padding).spec_div(at_least_one(high.spec_sub(low))).finite(),
        available(length, padding).spec_div(
            at_least_one(next_high.spec_sub(next_low)),
        ).finite(),
{
    let content = at_least_one(high.spec_sub(low));
    let next_content = at_least_one(next_high.spec_sub(next_low));
    let slack = extent_slack(low, high, next_low, next_high, g);
    lemma_extents_close(low, high, next_low, next_high, d.value(), g);
    lemma_at_least_one(high.spec_sub(low));
    lemma_at_least_one(next_high.spec_sub(next_low));
    lemma_at_least_one(length.spec_sub(padding.spec_mul(Double { bits: TWO_BITS })));
    lemma_quotient_is_finite(available(length, padding), content);
    lemma_quotient_is_finite(available(length, padding), next_content);
    lemma_quotients_close(available(length, padding), content, next_content, slack);
    lemma_centered(length, content, low, zoom);
    lemma_centered(length, next_content, next_low, next_zoom);
    lemma_offset_follows(
        one(),
        length.value(),
        d.value(),
        centered_offset(length, content, low, zoom).value(),
        centered_offset(length, next_content, next_low, next_zoom).value(),
        low.value(),
        next_low.value(),
        content.value(),
        next_content.value(),
        zoom.value(),
        next_zoom.value(),
        centering_bound(length, content, low, zoom),
        centering_bound(length, next_content, next_low, next_zoom),
        g,
        slack,
    );
}

/// Moving every node by the same distance keeps the fitted zoom and moves the offset
/// back by that distance times the zoom, up to rounding. The zoom changes by no more
/// than one of the two zooms at which the graph would take all of the available width
/// or height; `fit_follows` says what those and the offset can change by. (Where the
/// nodes' coordinates are moderate fractions, nothing but centering rounds:
/// `fit_moves_with_fractions`.)
pub proof fn fit_moves_with_nodes(
    nodes: Seq<FlowNode>,
    by: Point,
    gx: int,
    gy: int,
    viewport_size: Size,
    padding: Double,
    min_zoom: Double,
    max_zoom: Double,
)
    requires
        nodes.len() > 0,
        forall|i: int|
            0 <= i < nodes.len() ==> moves_finely(
                (#[trigger] nodes[i]).position.x,
                nodes[i].size.width,
                by.x,
                gx,
            ),
        forall|i: int|
            0 <= i < nodes.len() ==> moves_finely(
                (#[trigger] nodes[i]).position.y,
                nodes[i].size.height,
                by.y,
                gy,
            ),
        min_zoom.spec_le(max_zoom),
        ({
            let b = bounds_of(nodes);
            let c = bounds_of(moved_nodes(nodes, by));
            let v = fitted(b, viewport_size, padding, min_zoom, max_zoom);
            let w = fitted(c, viewport_size, padding, min_zoom, max_zoom);
            &&& fit_is_finite(viewport_size.width, padding, b.left, b.right, v.zoom)
            &&& fit_is_finite(viewport_size.height, padding, b.top, b.bottom, v.zoom)
            &&& fit_is_finite(viewport_size.width, padding, c.left, c.right, w.zoom)
            &&& fit_is_finite(viewport_size.height, padding, c.top, c.bottom, w.zoom)
        }),
    ensures
        ({
            let b = bounds_of(nodes);
            let c = bounds_of(moved_nodes(nodes, by));
            let v = fitted(b, viewport_size, padding, min_zoom, max_zoom);
            let w = fitted(c, viewport_size, padding, min_zoom, max_zoom);
            let (width, height) = (viewport_size.width, viewport_size.height);
            let (room_x, room_y) = (available(width, padding), available(height, padding));
            let change = abs_int(w.zoom.value() - v.zoom.value());
            &&& change <= abs_int(
                room_x.spec_div(at_least_one(c.right.spec_sub(c.left))).value() - room_x.spec_div(
                    at_least_one(b.right.spec_sub(b.left)),
                ).value(),
            ) || change <= abs_int(
                room_y.spec_div(at_least_one(c.bottom.spec_sub(c.top))).value() - room_y.spec_div(
                    at_least_one(b.bottom.spec_sub(b.top)),
                ).value(),
            )
            &&& fit_follows(
                width,
                padding,
                b.left,
                b.right,
                c.left,
                c.right,
                by.x,
                v.zoom,
                w.zoom,
                gx,
            )
            &&& fit_follows(
                height,
                padding,
                b.top,
                b.bottom,
                c.top,
                c.bottom,
                by.y,
                v.zoom,
                w.zoom,
                gy,
            )
        }),
{
    let b = bounds_of(nodes);
    let c = bounds_of(moved_nodes(nodes, by));
    let v = fitted(b, viewport_size, padding, min_zoom, max_zoom);
    let w = fitted(c, viewport_size, padding, min_zoom, max_zoom);
    bounds_move_with_nodes(nodes, by, gx, gy);
    lemma_fit_follows(
        viewport_size.width,
        padding,
        b.left,
        b.right,
        c.left,
        c.right,
        by.x,
        v.zoom,
        w.zoom,
        gx,
    );
    lemma_fit_follows(
        viewport_size.height,
        padding,
        b.top,
        b.bottom,
        c.top,
        c.bottom,
        by.y,
        v.zoom,
        w.zoom,
        gy,
    );
}

/// A point that is moved with its node is shown where it was, over integers.
proof fn lemma_place_follows(
    s: int,
    d: int,
    x: int,
    next_x: int,
    start: int,
    next_start: int,
    z: int,
    next_z: int,
    slack: int,
    g: int,
)
    requires
        4 * abs_int((next_x - x) * s + d * z) <= slack,
        2 * abs_int(next_start - (start + d)) <= g,
    ensures
        4 * abs_int((next_x * s + next_start * next_z) - (x * s + start * z)) <= slack + 2 * (
        abs_int(z) * g) + 4 * (abs_int(next_start) * abs_int(next_z - z)),
{
    let e = next_start - (start + d);
    let dz = next_z - z;
    assert((next_x - x) * s == next_x * s - x * s) by (nonlinear_arith);
    assert(next_start * next_z == next_start * dz + start * z + d * z + z * e) by (nonlinear_arith)
        requires
            e == next_start - (start + d),
            dz == next_z - z,
    ;
    lemma_weighted(z, e, g);
    let (a, b) = (abs_int(next_start), abs_int(dz));
    assert(abs_int(next_start * dz) == a * b) by (nonlinear_arith)
        requires
            a == abs_int(next_start),
            b == abs_int(dz),
    ;
}

/// Moving every node by the same distance shows every node where it was, up to
/// rounding: as far as the offset, the node's own position and the zoom are off.
pub proof fn moved_nodes_stay_in_place(
    nodes: Seq<FlowNode>,
    i: int,
    by: Point,
    gx: int,
    gy: int,
    viewport_size: Size,
    padding: Double,
    min_zoom: Double,
    max_zoom: Double,
)
    requires
        0 <= i < nodes.len(),
        forall|j: int|
            0 <= j < nodes.len() ==> moves_finely(
                (#[trigger] nodes[j]).position.x,
                nodes[j].size.width,
                by.x,
                gx,
            ),
        forall|j: int|
            0 <= j < nodes.len() ==> moves_finely(
                (#[trigger] nodes[j]).position.y,
                nodes[j].size.height,
                by.y,
                gy,
            ),
        min_zoom.spec_le(max_zoom),
        ({
            let b = bounds_of(nodes);
            let c = bounds_of(moved_nodes(nodes, by));
            let v = fitted(b, viewport_size, padding, min_zoom, max_zoom);
            let w = fitted(c, viewport_size, padding, min_zoom, max_zoom);
            &&& fit_is_finite(viewport_size.width, padding, b.left, b.right, v.zoom)
            &&& fit_is_finite(viewport_size.height, padding, b.top, b.bottom, v.zoom)
            &&& fit_is_finite(viewport_size.width, padding, c.left, c.right, w.zoom)
            &&& fit_is_finite(viewport_size.height, padding, c.top, c.bottom, w.zoom)
        }),
    ensures
        ({
            let b = bounds_of(nodes);
            let c = bounds_of(moved_nodes(nodes, by));
            let v = fitted(b, viewport_size, padding, min_zoom, max_zoom);
            let w = fitted(c, viewport_size, padding, min_zoom, max_zoom);
            let (p, q) = (nodes[i].position, moved_node(nodes[i], by).position);
            let (z, y) = (v.zoom.value(), w.zoom.value());
            let (width, height) = (viewport_size.width, viewport_size.height);
            &&& 4 * abs_int(
                (w.x.value() * one() + q.x.value() * y) - (v.x.value() * one() + p.x.value() * z),
            ) <= offset_slack(width, b.left, b.right, c.left, c.right, v.zoom, w.zoom, gx) + 2 * (
            abs_int(z) * gx) + 4 * (abs_int(q.x.value()) * abs_int(y - z))
            &&& 4 * abs_int(
                (w.y.value() * one() + q.y.value() * y) - (v.y.value() * one() + p.y.value() * z),
            ) <= offset_slack(height, b.top, b.bottom, c.top, c.bottom, v.zoom, w.zoom, gy) + 2 * (
            abs_int(z) * gy) + 4 * (abs_int(q.y.value()) * abs_int(y - z))
        }),
{
    let b = bounds_of(nodes);
    let c = bounds_of(moved_nodes(nodes, by));
    let v = fitted(b, viewport_size, padding, min_zoom, max_zoom);
    let w = fitted(c, viewport_size, padding, min_zoom, max_zoom);
    let (node, next) = (nodes[i], moved_node(nodes[i], by));
    let (width, height) = (viewport_size.width, viewport_size.height);
    fit_moves_with_nodes(nodes, by, gx, gy, viewport_size, padding, min_zoom, max_zoom);
    lemma_sides_move(node.position.x, node.size.width, by.x, gx);
    lemma_sides_move(node.position.y, node.size.height, by.y, gy);
    lemma_place_follows(
        one(),
        by.x.value(),
        v.x.value(),
        w.x.value(),
        node.position.x.value(),
        next.position.x.value(),
        v.zoom.value(),
        w.zoom.value(),
        offset_slack(width, b.left, b.right, c.left, c.right, v.zoom, w.zoom, gx),
        gx,
    );
    lemma_place_follows(
        one(),
        by.y.value(),
        v.y.value(),
        w.y.value(),
        node.position.y.value(),
        next.position.y.value(),
        v.zoom.value(),
        w.zoom.value(),
        offset_slack(height, b.top, b.bottom, c.top, c.bottom, v.zoom, w.zoom, gy),
        gy,
    );
}

/// In one coordinate, a node starts at `n / 2^k`, is `w / 2^k` long and is moved by
/// `m / 2^k`, and its sides stay of moderate size.
pub open spec fn moves_in_fractions(
    start: Double,
    size: Double,
    d: Double,
    n: int,
    w: int,
    m: int,
    k: nat,
) -> bool {
    &&& is_fraction(start, n, k)
    &&& is_fraction(size, w, k)
    &&& is_fraction(d, m, k)
    &&& is_moderate(n + w)
    &&& is_moderate(n + m)
    &&& is_moderate(n + m + w)
}

/// The distance between any two sides of the nodes is of moderate size.
pub open spec fn distances_are_moderate(starts: Seq<int>, sizes: Seq<int>) -> bool {
    forall|i: int, j: int|
        0 <= i < starts.len() && 0 <= j < starts.len() ==> is_moderate(
            (#[trigger] starts[i]) + sizes[i] - (#[trigger] starts[j]),
        )
}

/// In one coordinate: fractions move exactly, and their extent stays.
proof fn lemma_fractions_move(
    starts: Seq<Double>,
    ends: Seq<Double>,
    next_starts: Seq<Double>,
    next_ends: Seq<Double>,
    d: Double,
    ns: Seq<int>,
    ws: Seq<int>,
    m: int,
    k: nat,
)
    requires
        starts.len() > 0,
        ends.len() == starts.len(),
        next_starts.len() == starts.len(),
        next_ends.len() == starts.len(),
        ns.len() == starts.len(),
        is_fraction(d, m, k),
        forall|i: int|
            #![trigger starts[i]]
            #![trigger ends[i]]
            #![trigger next_starts[i]]
            #![trigger next_ends[i]]
            0 <= i < starts.len() ==> {
                &&& is_fraction(starts[i], ns[i], k)
                &&& is_fraction(ends[i], ns[i] + ws[i], k)
                &&& is_fraction(next_starts[i], ns[i] + m, k)
                &&& is_fraction(next_ends[i], ns[i] + m + ws[i], k)
            },
        distances_are_moderate(ns, ws),
    ensures
        ({
            let (low, high) = (least(starts), greatest(ends));
            let (next_low, next_high) = (least(next_starts), greatest(next_ends));
            &&& next_low.value() == low.value() + d.value()
            &&& at_least_one(next_high.spec_sub(next_low)) == at_least_one(high.spec_sub(low))
        }),
{
    let p = pow2((1074 - k) as nat) as int;
    let (low, high) = (least(starts), greatest(ends));
    let (next_low, next_high) = (least(next_starts), greatest(next_ends));
    assert forall|i: int|
        #![trigger starts[i]]
        #![trigger ends[i]]
        #![trigger next_starts[i]]
        #![trigger next_ends[i]]
        0 <= i < starts.len() implies {
        &&& starts[i].finite() && ends[i].finite()
        &&& next_starts[i].finite() && next_ends[i].finite()
        &&& next_starts[i].value() == starts[i].value() + d.value()
        &&& next_ends[i].value() == ends[i].value() + d.value()
    } by {
        let (n, w) = (ns[i], ws[i]);
        assert((n + m) * p == n * p + m * p) by (nonlinear_arith);
        assert((n + m + w) * p == (n + w) * p + m * p) by (nonlinear_arith);
    }
    lemma_least_moves(starts, next_starts, d.value(), 0);
    lemma_greatest_moves(ends, next_ends, d.value(), 0);
    lemma_least(starts);
    lemma_greatest(ends);
    lemma_least(next_starts);
    lemma_greatest(next_ends);
    let i = choose|i: int| 0 <= i < starts.len() && starts[i] == low;
    let j = choose|j: int| 0 <= j < ends.len() && ends[j] == high;
    assert(is_moderate(ns[j] + ws[j] - ns[i]));
    fractions_subtract(high, low, ns[j] + ws[j], ns[i], k);
    let next_i = choose|i: int| 0 <= i < next_starts.len() && next_starts[i] == next_low;
    let next_j = choose|j: int| 0 <= j < next_ends.len() && next_ends[j] == next_high;
    assert(is_moderate(ns[next_j] + ws[next_j] - ns[next_i]));
    fractions_subtract(
        next_high,
        next_low,
        ns[next_j] + m + ws[next_j],
        ns[next_i] + m,
        k,
    );
    let (extent, next_extent) = (high.spec_sub(low), next_high.spec_sub(next_low));
    let (a, b, e, f) = (ns[j] + ws[j], ns[i], ns[next_j] + m + ws[next_j], ns[next_i] + m);
    assert((a - b) * p == a * p - b * p) by (nonlinear_arith);
    assert((e - f) * p == e * p - f * p) by (nonlinear_arith);
    assert(next_extent.value() == extent.value());
    lemma_at_least_one(extent);
    lemma_at_least_one(next_extent);
    value_determines_pattern(at_least_one(next_extent), at_least_one(extent));
}

/// Where nothing but centering rounds, a point that is moved with its node is shown
/// where it was, in one coordinate.
proof fn lemma_place_stays(
    length: Double,
    content: Double,
    low: Double,
    next_low: Double,
    start: Double,
    next_start: Double,
    d: Double,
    zoom: Double,
)
    requires
        centering_is_finite(length, content, low, zoom),
        centering_is_finite(length, content, next_low, zoom),
        next_low.value() == low.value() + d.value(),
        next_start.value() == start.value() + d.value(),
    ensures
        stays_in_place(length, content, low, next_low, start, next_start, d, zoom),
{
    let offset = centered_offset(length, content, low, zoom);
    let next_offset = centered_offset(length, content, next_low, zoom);
    lemma_centered(length, content, low, zoom);
    lemma_centered(length, content, next_low, zoom);
    let (s, z) = (one(), zoom.value());
    let (x, y) = (offset.value(), next_offset.value());
    assert((y - x) * s == y * s - x * s) by (nonlinear_arith);
    assert(next_low.value() * z == low.value() * z + d.value() * z) by (nonlinear_arith)
        requires
            next_low.value() == low.value() + d.value(),
    ;
    assert(next_start.value() * z == start.value() * z + d.value() * z) by (nonlinear_arith)
        requires
            next_start.value() == start.value() + d.value(),
    ;
}

/// In one coordinate, the content that starts at `low` is moved by `d` and starts at
/// `next_low`, with it a side of a node from `start` to `next_start`. Centering moves the
/// offset back by `d` times the zoom and shows the side where it was, both up to what
/// centering rounds.
pub open spec fn stays_in_place(
    length: Double,
    content: Double,
    low: Double,
    next_low: Double,
    start: Double,
    next_start: Double,
    d: Double,
    zoom: Double,
) -> bool {
    let offset = centered_offset(length, content, low, zoom).value();
    let next_offset = centered_offset(length, content, next_low, zoom).value();
    let place = offset * one() + start.value() * zoom.value();
    let next_place = next_offset * one() + next_start.value() * zoom.value();
    let bound = centering_bound(length, content, low, zoom) + centering_bound(
        length,
        content,
        next_low,
        zoom,
    );
    &&& 4 * abs_int((next_offset - offset) * one() + d.value() * zoom.value()) <= bound
    &&& 4 * abs_int(next_place - place) <= bound
}

/// Moving every node by the same distance, where all coordinates are moderate fractions,
/// keeps the fitted zoom exactly, and shows every node where it was, up to what
/// centering rounds.
pub proof fn fit_moves_with_fractions(
    nodes: Seq<FlowNode>,
    by: Point,
    xs: Seq<int>,
    ws: Seq<int>,
    ys: Seq<int>,
    hs: Seq<int>,
    mx: int,
    my: int,
    k: nat,
    viewport_size: Size,
    padding: Double,
    min_zoom: Double,
    max_zoom: Double,
    i: int,
)
    requires
        0 <= i < nodes.len(),
        xs.len() == nodes.len(),
        ys.len() == nodes.len(),
        forall|j: int|
            0 <= j < nodes.len() ==> moves_in_fractions(
                (#[trigger] nodes[j]).position.x,
                nodes[j].size.width,
                by.x,
                xs[j],
                ws[j],
                mx,
                k,
            ),
        forall|j: int|
            0 <= j < nodes.len() ==> moves_in_fractions(
                (#[trigger] nodes[j]).position.y,
                nodes[j].size.height,
                by.y,
                ys[j],
                hs[j],
                my,
                k,
            ),
        distances_are_moderate(xs, ws),
        distances_are_moderate(ys, hs),
        ({
            let b = bounds_of(nodes);
            let c = bounds_of(moved_nodes(nodes, by));
            let zoom = fitted(b, viewport_size, padding, min_zoom, max_zoom).zoom;
            let width = at_least_one(b.right.spec_sub(b.left));
            let height = at_least_one(b.bottom.spec_sub(b.top));
            &&& centering_is_finite(viewport_size.width, width, b.left, zoom)
            &&& centering_is_finite(viewport_size.height, height, b.top, zoom)
            &&& centering_is_finite(viewport_size.width, width, c.left, zoom)
            &&& centering_is_finite(viewport_size.height, height, c.top, zoom)
        }),
    ensures
        ({
            let b = bounds_of(nodes);
            let c = bounds_of(moved_nodes(nodes, by));
            let v = fitted(b, viewport_size, padding, min_zoom, max_zoom);
            let w = fitted(c, viewport_size, padding, min_zoom, max_zoom);
            let width = at_least_one(b.right.spec_sub(b.left));
            let height = at_least_one(b.bottom.spec_sub(b.top));
            let (node, next) = (nodes[i], moved_node(nodes[i], by));
            &&& w.zoom == v.zoom
            &&& v.x == centered_offset(viewport_size.width, width, b.left, v.zoom)
            &&& w.x == centered_offset(viewport_size.width, width, c.left, v.zoom)
            &&& v.y == centered_offset(viewport_size.height, height, b.top, v.zoom)
            &&& w.y == centered_offset(viewport_size.height, height, c.top, v.zoom)
            &&& c.left.value() == b.left.value() + by.x.value()
            &&& c.top.value() == b.top.value() + by.y.value()
            &&& stays_in_place(
                viewport_size.width,
                width,
                b.left,
                c.left,
                node.position.x,
                next.position.x,
                by.x,
                v.zoom,
            )
            &&& stays_in_place(
                viewport_size.height,
                height,
                b.top,
                c.top,
                node.position.y,
                next.position.y,
                by.y,
                v.zoom,
            )
        }),
{
    let b = bounds_of(nodes);
    let c = bounds_of(moved_nodes(nodes, by));
    let v = fitted(b, viewport_size, padding, min_zoom, max_zoom);
    let next = moved_nodes(nodes, by);
    let (left, next_left) = (
        nodes.map_values(|n: FlowNode| n.position.x),
        next.map_values(|n: FlowNode| n.position.x),
    );
    let (top, next_top) = (
        nodes.map_values(|n: FlowNode| n.position.y),
        next.map_values(|n: FlowNode| n.position.y),
    );
    let (right, next_right) = (
        nodes.map_values(|n: FlowNode| node_right(n)),
        next.map_values(|n: FlowNode| node_right(n)),
    );
    let (bottom, next_bottom) = (
        nodes.map_values(|n: FlowNode| node_bottom(n)),
        next.map_values(|n: FlowNode| node_bottom(n)),
    );
    assert forall|j: int|
        #![trigger left[j]]
        #![trigger next_left[j]]
        #![trigger right[j]]
        #![trigger next_right[j]]
        0 <= j < nodes.len() implies {
        &&& is_fraction(left[j], xs[j], k)
        &&& is_fraction(right[j], xs[j] + ws[j], k)
        &&& is_fraction(next_left[j], xs[j] + mx, k)
        &&& is_fraction(next_right[j], xs[j] + mx + ws[j], k)
    } by {
        let n = nodes[j];
        fractions_add(n.position.x, n.size.width, xs[j], ws[j], k);
        fractions_add(n.position.x, by.x, xs[j], mx, k);
        fractions_add(n.position.x.spec_add(by.x), n.size.width, xs[j] + mx, ws[j], k);
    }
    assert forall|j: int|
        #![trigger top[j]]
        #![trigger next_top[j]]
        #![trigger bottom[j]]
        #![trigger next_bottom[j]]
        0 <= j < nodes.len() implies {
        &&& is_fraction(top[j], ys[j], k)
        &&& is_fraction(bottom[j], ys[j] + hs[j], k)
        &&& is_fraction(next_top[j], ys[j] + my, k)
        &&& is_fraction(next_bottom[j], ys[j] + my + hs[j], k)
    } by {
        let n = nodes[j];
        fractions_add(n.position.y, n.size.height, ys[j], hs[j], k);
        fractions_add(n.position.y, by.y, ys[j], my, k);
        fractions_add(n.position.y.spec_add(by.y), n.size.height, ys[j] + my, hs[j], k);
    }
    lemma_fractions_move(left, right, next_left, next_right, by.x, xs, ws, mx, k);
    lemma_fractions_move(top, bottom, next_top, next_bottom, by.y, ys, hs, my, k);
    let node = nodes[i];
    let p = pow2((1074 - k) as nat) as int;
    let (x, y) = (xs[i], ys[i]);
    assert(left[i] == node.position.x && next_left[i] == moved_node(node, by).position.x);
    assert(top[i] == node.position.y && next_top[i] == moved_node(node, by).position.y);
    assert((x + mx) * p == x * p + mx * p) by (nonlinear_arith);
    assert((y + my) * p == y * p + my * p) by (nonlinear_arith);
    lemma_place_stays(
        viewport_size.width,
        at_least_one(b.right.spec_sub(b.left)),
        b.left,
        c.left,
        node.position.x,
        moved_node(node, by).position.x,
        by.x,
        v.zoom,
    );
    lemma_place_stays(
        viewport_size.height,
        at_least_one(b.bottom.spec_sub(b.top)),
        b.top,
        c.top,
        node.position.y,
        moved_node(node, by).position.y,
        by.y,
        v.zoom,
    );
}

/// Centering in fractions is exact: the viewport is `l / 2^(j + k)` long, the content
/// `c / 2^k`, it starts at `n / 2^k`, and the zoom is `z / 2^j`.
pub proof fn centering_is_exact_in_fractions(
    length: Double,
    content: Double,
    start: Double,
    zoom: Double,
    l: int,
    c: int,
    n: int,
    z: int,
    j: nat,
    k: nat,
)
    requires
        j + k < 1074,
        is_fraction(length, l, k + j),
        is_fraction(content, c, k),
        is_fraction(start, n, k),
        is_fraction(zoom, z, j),
        is_moderate(c * z),
        is_moderate(l - c * z),
        is_moderate(n * z),
        is_moderate(l - c * z - 2 * (n * z)),
    ensures
        is_fraction(
            centered_offset(length, content, start, zoom),
            l - c * z - 2 * (n * z),
            k + j + 1,
        ),
{
    let two = Double { bits: TWO_BITS };
    constants_are_what_they_say();
    whole_is_fraction(two, 2);
    fractions_multiply(content, zoom, c, z, k, j);
    let rest = length.spec_sub(content.spec_mul(zoom));
    fractions_subtract(length, content.spec_mul(zoom), l, c * z, k + j);
    lemma_finer(rest, l - c * z, k + j);
    fractions_divide(rest, two, l - c * z, 2, k + j + 1, 0);
    fractions_multiply(start, zoom, n, z, k, j);
    lemma_finer(start.spec_mul(zoom), n * z, k + j);
    fractions_subtract(
        rest.spec_div(two),
        start.spec_mul(zoom),
        l - c * z,
        2 * (n * z),
        k + j + 1,
    );
}

/// A fraction in halves of its unit.
proof fn lemma_finer(a: Double, n: int, k: nat)
    requires
        is_fraction(a, n, k),
        k < 1074,
    ensures
        is_fraction(a, n * 2, k + 1),
        is_fraction(a, 2 * n, k + 1),
{
    lemma_pow2_unfold((1074 - k) as nat);
    let (p, q) = (pow2((1074 - k) as nat) as int, pow2((1074 - (k + 1)) as nat) as int);
    assert(n * p == (n * 2) * q && n * p == (2 * n) * q) by (nonlinear_arith)
        requires
            p == 2 * q,
    ;
}

/// Where centering is exact too, moving the content by `m / 2^k` moves the offset back by
/// exactly that times the zoom.
pub proof fn exact_centering_follows(
    length: Double,
    content: Double,
    start: Double,
    next_start: Double,
    zoom: Double,
    l: int,
    c: int,
    n: int,
    m: int,
    z: int,
    j: nat,
    k: nat,
)
    requires
        j + k < 1074,
        is_fraction(length, l, k + j),
        is_fraction(content, c, k),
        is_fraction(start, n, k),
        is_fraction(next_start, n + m, k),
        is_fraction(zoom, z, j),
        is_moderate(c * z),
        is_moderate(l - c * z),
        is_moderate(n * z),
        is_moderate((n + m) * z),
        is_moderate(l - c * z - 2 * (n * z)),
        is_moderate(l - c * z - 2 * ((n + m) * z)),
    ensures
        ({
            let offset = centered_offset(length, content, start, zoom);
            let next_offset = centered_offset(length, content, next_start, zoom);
            &&& offset.finite()
            &&& next_offset.finite()
            &&& next_offset.value() == offset.value() - (m * z) * pow2((1074 - (k + j)) as nat)
        }),
{
    centering_is_exact_in_fractions(length, content, start, zoom, l, c, n, z, j, k);
    centering_is_exact_in_fractions(length, content, next_start, zoom, l, c, n + m, z, j, k);
    lemma_pow2_unfold((1074 - (k + j)) as nat);
    let (p, q) = (pow2((1074 - (k + j)) as nat) as int, pow2((1074 - (k + j + 1)) as nat) as int);
    let (r, nz, mz) = (l - c * z, n * z, m * z);
    assert((n + m) * z == nz + mz) by (nonlinear_arith)
        requires
            nz == n * z,
            mz == m * z,
    ;
    assert((r - 2 * (nz + mz)) * q == (r - 2 * nz) * q - mz * p) by (nonlinear_arith)
        requires
            p == 2 * q,
    ;
}

} // verus!
