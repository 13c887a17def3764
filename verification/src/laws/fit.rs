//! Fitting centers the graph and keeps it within the padding and the zoom limits.
use crate::arithmetic::{lemma_abs_value, one};
use crate::double::{
    abs_int, lemma_magnitude_nonnegative, lemma_magnitude_order, lemma_magnitude_step,
    magnitude_gap, magnitude_value, Double, INFINITY_MAGNITUDE,
};
use crate::accuracy::{
    difference_error, lemma_round_exact, lemma_round_monotone, lemma_round_nearest, lemma_signed,
    lemma_weighted, product_error, quotient_error, sum_error,
};
use crate::geometry::{Size, Viewport, ONE_BITS};
use crate::graph::FlowNode;
use crate::laws::constants::{constants_are_what_they_say, whole};
use crate::laws::fractions::{
    fractions_multiply, fractions_subtract, is_fraction, is_moderate, whole_is_fraction,
};
use crate::laws::order::{
    differences_keep_order, lemma_quotient_value, products_keep_order, quotients_keep_order,
};
use crate::rounding::round_magnitude;
use crate::viewport::{
    at_least_one, available, bounds_of, centered_offset, fitted, greatest, least, natural_zoom,
    node_bottom, node_right, Bounds, TWO_BITS,
};
use vstd::arithmetic::power2::{lemma_pow2_pos, pow2};
use vstd::prelude::*;

verus! {

/// The least of a sequence is in it, is no NaN if any member is a number, and no
/// member is less.
pub proof fn lemma_least(s: Seq<Double>)
    requires
        s.len() > 0,
    ensures
        s.contains(least(s)),
        forall|i: int| 0 <= i < s.len() && !(#[trigger] s[i]).nan() ==> least(s).spec_le(s[i]),
    decreases s.len(),
{
    if s.len() > 1 {
        let t = s.drop_last();
        lemma_least(t);
        let k = choose|k: int| 0 <= k < t.len() && t[k] == least(t);
        assert(s[k] == least(t));
        assert(s[s.len() - 1] == s.last());
        assert forall|i: int| 0 <= i < s.len() && !(#[trigger] s[i]).nan() implies least(
            s,
        ).spec_le(s[i]) by {
            if i < t.len() {
                assert(t[i] == s[i]);
            }
        }
    } else {
        assert(s[0] == least(s));
    }
}

/// The greatest of a sequence is in it, is no NaN if any member is a number, and no
/// member is greater.
pub proof fn lemma_greatest(s: Seq<Double>)
    requires
        s.len() > 0,
    ensures
        s.contains(greatest(s)),
        forall|i: int| 0 <= i < s.len() && !(#[trigger] s[i]).nan() ==> s[i].spec_le(greatest(s)),
    decreases s.len(),
{
    if s.len() > 1 {
        let t = s.drop_last();
        lemma_greatest(t);
        let k = choose|k: int| 0 <= k < t.len() && t[k] == greatest(t);
        assert(s[k] == greatest(t));
        assert(s[s.len() - 1] == s.last());
        assert forall|i: int| 0 <= i < s.len() && !(#[trigger] s[i]).nan() implies s[i].spec_le(
            greatest(s),
        ) by {
            if i < t.len() {
                assert(t[i] == s[i]);
            }
        }
    } else {
        assert(s[0] == greatest(s));
    }
}

/// The bounding box holds every node: each of its sides is a side of some node, and no
/// node reaches beyond it.
pub proof fn bounds_hold_every_node(nodes: Seq<FlowNode>, i: int)
    requires
        0 <= i < nodes.len(),
    ensures
        ({
            let b = bounds_of(nodes);
            let node = nodes[i];
            &&& !node.position.x.nan() ==> b.left.spec_le(node.position.x)
            &&& !node.position.y.nan() ==> b.top.spec_le(node.position.y)
            &&& !node_right(node).nan() ==> node_right(node).spec_le(b.right)
            &&& !node_bottom(node).nan() ==> node_bottom(node).spec_le(b.bottom)
            &&& exists|j: int| 0 <= j < nodes.len() && (#[trigger] nodes[j]).position.x == b.left
            &&& exists|j: int| 0 <= j < nodes.len() && (#[trigger] nodes[j]).position.y == b.top
            &&& exists|j: int| 0 <= j < nodes.len() && node_right(#[trigger] nodes[j]) == b.right
            &&& exists|j: int| 0 <= j < nodes.len() && node_bottom(#[trigger] nodes[j]) == b.bottom
        }),
{
    let xs = nodes.map_values(|n: FlowNode| n.position.x);
    let ys = nodes.map_values(|n: FlowNode| n.position.y);
    let rs = nodes.map_values(|n: FlowNode| node_right(n));
    let bs = nodes.map_values(|n: FlowNode| node_bottom(n));
    lemma_least(xs);
    lemma_least(ys);
    lemma_greatest(rs);
    lemma_greatest(bs);
    assert(xs[i] == nodes[i].position.x);
    assert(ys[i] == nodes[i].position.y);
    assert(rs[i] == node_right(nodes[i]));
    assert(bs[i] == node_bottom(nodes[i]));
    let j = choose|j: int| 0 <= j < xs.len() && xs[j] == least(xs);
    assert(nodes[j].position.x == least(xs));
    let j = choose|j: int| 0 <= j < ys.len() && ys[j] == least(ys);
    assert(nodes[j].position.y == least(ys));
    let j = choose|j: int| 0 <= j < rs.len() && rs[j] == greatest(rs);
    assert(node_right(nodes[j]) == greatest(rs));
    let j = choose|j: int| 0 <= j < bs.len() && bs[j] == greatest(bs);
    assert(node_bottom(nodes[j]) == greatest(bs));
}

/// A length that is at least one is a number and positive.
pub proof fn lemma_at_least_one(length: Double)
    ensures
        !at_least_one(length).nan(),
        !at_least_one(length).negative(),
        at_least_one(length).value() >= one() > 0,
        at_least_one(length).finite() <==> (length.nan() || length.negative() || length.finite()),
{
    constants_are_what_they_say();
    lemma_pow2_pos(1074);
    assert(whole(1) == one()) by (nonlinear_arith);
    lemma_magnitude_nonnegative(length.magnitude());
    let i = INFINITY_MAGNITUDE as int;
    lemma_magnitude_order(ONE_BITS as int, i);
}

/// The fitted zoom lies within the limits.
pub proof fn fit_respects_limits(
    b: Bounds,
    viewport_size: Size,
    padding: Double,
    min_zoom: Double,
    max_zoom: Double,
)
    requires
        min_zoom.spec_le(max_zoom),
        !natural_zoom(b, viewport_size, padding).nan(),
    ensures
        min_zoom.spec_le(fitted(b, viewport_size, padding, min_zoom, max_zoom).zoom),
        fitted(b, viewport_size, padding, min_zoom, max_zoom).zoom.spec_le(max_zoom),
{
}

/// The zoom at which a graph fits is a number, but for an infinite graph in an
/// infinite viewport.
pub proof fn natural_zoom_is_a_number(b: Bounds, viewport_size: Size, padding: Double)
    requires
        b.right.spec_sub(b.left).finite() || available(viewport_size.width, padding).finite()
            || b.bottom.spec_sub(b.top).finite() || available(
            viewport_size.height,
            padding,
        ).finite(),
    ensures
        !natural_zoom(b, viewport_size, padding).nan(),
{
    let aw = available(viewport_size.width, padding);
    let ah = available(viewport_size.height, padding);
    let cw = at_least_one(b.right.spec_sub(b.left));
    let ch = at_least_one(b.bottom.spec_sub(b.top));
    lemma_at_least_one(b.right.spec_sub(b.left));
    lemma_at_least_one(b.bottom.spec_sub(b.top));
    lemma_at_least_one(
        viewport_size.width.spec_sub(padding.spec_mul(Double { bits: TWO_BITS })),
    );
    lemma_at_least_one(
        viewport_size.height.spec_sub(padding.spec_mul(Double { bits: TWO_BITS })),
    );
    lemma_quotient_is_a_number(aw, cw);
    lemma_quotient_is_a_number(ah, ch);
}

proof fn lemma_quotient_is_a_number(a: Double, b: Double)
    requires
        !a.nan(),
        !b.nan(),
        b.value() != 0,
    ensures
        a.finite() || b.finite() ==> !a.spec_div(b).nan(),
{
    lemma_signed(a.negative() != b.negative(), 0);
    lemma_signed(a.negative() != b.negative(), INFINITY_MAGNITUDE as int);
    if a.finite() && b.finite() {
        lemma_round_nearest(abs_int(a.value()) * one(), abs_int(b.value()));
        lemma_signed(
            a.negative() != b.negative(),
            round_magnitude(abs_int(a.value()) * one(), abs_int(b.value())),
        );
    }
}

/// A length divided by one or more stays finite.
pub proof fn lemma_quotient_is_finite(a: Double, b: Double)
    requires
        a.finite(),
        a.value() >= 0,
        b.finite(),
        b.value() >= one(),
    ensures
        a.spec_div(b).finite(),
{
    lemma_pow2_pos(1074);
    let (v, c, s) = (a.value(), b.value(), one());
    lemma_abs_value(a);
    assert((v * s) * 1 <= v * c) by (nonlinear_arith)
        requires
            v >= 0,
            c >= s,
    ;
    assert(v == magnitude_value(a.magnitude()) * 1);
    lemma_round_monotone(v * s, c, v, 1);
    lemma_round_exact(v, 1, a.magnitude());
    lemma_round_nearest(v * s, c);
    lemma_signed(a.negative() != b.negative(), round_magnitude(v * s, c));
}

/// At the zoom `zoom`, content of size `content` takes no more than the `available`
/// length, up to the rounding of their quotient.
pub open spec fn fits(content: Double, length: Double, zoom: Double) -> bool {
    2 * (zoom.value() * content.value() - length.value() * one()) <= magnitude_gap(
        length.spec_div(content).magnitude(),
    ) * content.value()
}

/// Unless the lower zoom limit forces more, the fitted graph takes no more than the
/// space between the paddings in both directions, up to rounding.
pub proof fn fit_stays_within_padding(
    b: Bounds,
    viewport_size: Size,
    padding: Double,
    min_zoom: Double,
    max_zoom: Double,
)
    requires
        min_zoom.spec_le(max_zoom),
        ({
            let aw = available(viewport_size.width, padding);
            let ah = available(viewport_size.height, padding);
            let cw = at_least_one(b.right.spec_sub(b.left));
            let ch = at_least_one(b.bottom.spec_sub(b.top));
            &&& aw.finite()
            &&& ah.finite()
            &&& cw.finite()
            &&& ch.finite()
        }),
    ensures
        ({
            let zoom = fitted(b, viewport_size, padding, min_zoom, max_zoom).zoom;
            let aw = available(viewport_size.width, padding);
            let ah = available(viewport_size.height, padding);
            let cw = at_least_one(b.right.spec_sub(b.left));
            let ch = at_least_one(b.bottom.spec_sub(b.top));
            if natural_zoom(b, viewport_size, padding).spec_lt(min_zoom) {
                zoom == min_zoom
            } else {
                fits(cw, aw, zoom) && fits(ch, ah, zoom)
            }
        }),
{
    let aw = available(viewport_size.width, padding);
    let ah = available(viewport_size.height, padding);
    let cw = at_least_one(b.right.spec_sub(b.left));
    let ch = at_least_one(b.bottom.spec_sub(b.top));
    let zoom = fitted(b, viewport_size, padding, min_zoom, max_zoom).zoom;
    lemma_at_least_one(b.right.spec_sub(b.left));
    lemma_at_least_one(b.bottom.spec_sub(b.top));
    lemma_at_least_one(
        viewport_size.width.spec_sub(padding.spec_mul(Double { bits: TWO_BITS })),
    );
    lemma_at_least_one(
        viewport_size.height.spec_sub(padding.spec_mul(Double { bits: TWO_BITS })),
    );
    lemma_quotient_is_finite(aw, cw);
    lemma_quotient_is_finite(ah, ch);
    quotient_error(aw, cw);
    quotient_error(ah, ch);
    if !natural_zoom(b, viewport_size, padding).spec_lt(min_zoom) {
        let (z, q, c) = (zoom.value(), aw.spec_div(cw).value(), cw.value());
        assert(z <= q);
        assert(z * c <= q * c) by (nonlinear_arith)
            requires
                z <= q,
                c > 0,
        ;
        let (r, d) = (ah.spec_div(ch).value(), ch.value());
        assert(z <= r);
        assert(z * d <= r * d) by (nonlinear_arith)
            requires
                z <= r,
                d > 0,
        ;
    }
}

/// Centering one coordinate does not leave the finite numbers.
pub open spec fn centering_is_finite(length: Double, content: Double, start: Double, zoom: Double) -> bool {
    let size = content.spec_mul(zoom);
    let rest = length.spec_sub(size);
    let margin = rest.spec_div(Double { bits: TWO_BITS });
    &&& length.finite()
    &&& content.finite()
    &&& start.finite()
    &&& zoom.finite()
    &&& size.finite()
    &&& rest.finite()
    &&& margin.finite()
    &&& start.spec_mul(zoom).finite()
    &&& margin.spec_sub(start.spec_mul(zoom)).finite()
}

/// How far the rounding of the five steps can move the content off the middle, in one
/// coordinate (twice over, and scaled as in `is_centered`).
pub open spec fn centering_bound(length: Double, content: Double, start: Double, zoom: Double) -> int {
    let size = content.spec_mul(zoom);
    let rest = length.spec_sub(size);
    let margin = rest.spec_div(Double { bits: TWO_BITS });
    let shift = start.spec_mul(zoom);
    let offset = centered_offset(length, content, start, zoom);
    one() * (2 * magnitude_gap(offset.magnitude()) + 2 * magnitude_gap(margin.magnitude())
        + magnitude_gap(rest.magnitude()) + magnitude_gap(size.magnitude()) + 2 * magnitude_gap(
        shift.magnitude(),
    ))
}

/// In one coordinate, the middle of the content is shown at the middle of the
/// viewport, up to the rounding of the five steps. (On the screen the content starts at
/// `start * zoom + offset` and is `content * zoom` long; twice its middle is compared
/// with `length`.)
pub open spec fn is_centered(
    length: Double,
    content: Double,
    start: Double,
    zoom: Double,
    offset: Double,
) -> bool {
    let imbalance = 2 * (offset.value() * one() + start.value() * zoom.value()) + content.value()
        * zoom.value() - length.value() * one();
    2 * abs_int(imbalance) <= centering_bound(length, content, start, zoom)
}

/// Centering centers, in one coordinate.
pub proof fn lemma_centered(length: Double, content: Double, start: Double, zoom: Double)
    requires
        centering_is_finite(length, content, start, zoom),
    ensures
        is_centered(
            length,
            content,
            start,
            zoom,
            centered_offset(length, content, start, zoom),
        ),
{
    let two = Double { bits: TWO_BITS };
    let size = content.spec_mul(zoom);
    let rest = length.spec_sub(size);
    let margin = rest.spec_div(two);
    let shift = start.spec_mul(zoom);
    let offset = centered_offset(length, content, start, zoom);
    let s = one();
    lemma_pow2_pos(1074);
    constants_are_what_they_say();
    assert(whole(2) == 2 * s) by (nonlinear_arith)
        requires
            s == one(),
    ;
    product_error(content, zoom);
    difference_error(length, size);
    quotient_error(rest, two);
    product_error(start, zoom);
    difference_error(margin, shift);
    let (l, c, st, z) = (length.value(), content.value(), start.value(), zoom.value());
    let (cz, d, h, lz, r) = (
        size.value(),
        rest.value(),
        margin.value(),
        shift.value(),
        offset.value(),
    );
    let (gz, gd, gh, gl, gr) = (
        magnitude_gap(size.magnitude()),
        magnitude_gap(rest.magnitude()),
        magnitude_gap(margin.magnitude()),
        magnitude_gap(shift.magnitude()),
        magnitude_gap(offset.magnitude()),
    );
    // The errors of the five steps, all scaled alike.
    let e1 = cz * s - c * z;
    let e2 = s * (d - (l - cz));
    let e3 = s * (2 * h - d);
    let e4 = lz * s - st * z;
    let e5 = s * (r - (h - lz));
    lemma_weighted(s, d - (l - cz), gd);
    lemma_weighted(s, r - (h - lz), gr);
    assert(h * (2 * s) - d * s == e3) by (nonlinear_arith)
        requires
            e3 == s * (2 * h - d),
    ;
    assert(gh * (2 * s) == 2 * (s * gh)) by (nonlinear_arith);
    assert(gz * s == s * gz && gl * s == s * gl) by (nonlinear_arith);
    assert(e2 == s * d - s * l + s * cz) by (nonlinear_arith)
        requires
            e2 == s * (d - (l - cz)),
    ;
    assert(e3 == 2 * (s * h) - s * d) by (nonlinear_arith)
        requires
            e3 == s * (2 * h - d),
    ;
    assert(e5 == s * r - s * h + s * lz) by (nonlinear_arith)
        requires
            e5 == s * (r - (h - lz)),
    ;
    assert(cz * s == s * cz && lz * s == s * lz && r * s == s * r && l * s == s * l)
        by (nonlinear_arith);
    let imbalance = 2 * (r * s + st * z) + c * z - l * s;
    assert(imbalance == 2 * e5 + e3 + e2 - e1 - 2 * e4);
    let bound = 2 * gr + 2 * gh + gd + gz + 2 * gl;
    assert(s * bound == 2 * (s * gr) + 2 * (s * gh) + s * gd + s * gz + 2 * (s * gl))
        by (nonlinear_arith)
        requires
            bound == 2 * gr + 2 * gh + gd + gz + 2 * gl,
    ;
}

/// Fitting shows the middle of the bounding box in the middle of the viewport, up to
/// rounding. (A box less than one wide or high counts as one.)
pub proof fn fit_centers_bounds(
    b: Bounds,
    viewport_size: Size,
    padding: Double,
    min_zoom: Double,
    max_zoom: Double,
)
    requires
        ({
            let zoom = fitted(b, viewport_size, padding, min_zoom, max_zoom).zoom;
            let cw = at_least_one(b.right.spec_sub(b.left));
            let ch = at_least_one(b.bottom.spec_sub(b.top));
            &&& centering_is_finite(viewport_size.width, cw, b.left, zoom)
            &&& centering_is_finite(viewport_size.height, ch, b.top, zoom)
        }),
    ensures
        ({
            let v = fitted(b, viewport_size, padding, min_zoom, max_zoom);
            let cw = at_least_one(b.right.spec_sub(b.left));
            let ch = at_least_one(b.bottom.spec_sub(b.top));
            &&& v.x.finite()
            &&& v.y.finite()
            &&& is_centered(viewport_size.width, cw, b.left, v.zoom, v.x)
            &&& is_centered(viewport_size.height, ch, b.top, v.zoom, v.y)
        }),
{
    let zoom = fitted(b, viewport_size, padding, min_zoom, max_zoom).zoom;
    lemma_centered(viewport_size.width, at_least_one(b.right.spec_sub(b.left)), b.left, zoom);
    lemma_centered(viewport_size.height, at_least_one(b.bottom.spec_sub(b.top)), b.top, zoom);
}

/// More room in one direction, and the zoom at which `content` takes it.
proof fn lemma_more_room(
    length1: Double,
    padding1: Double,
    length2: Double,
    padding2: Double,
    content: Double,
)
    requires
        length1.spec_le(length2),
        padding2.spec_le(padding1),
        !length1.spec_sub(padding1.spec_mul(Double { bits: TWO_BITS })).nan(),
        !length2.spec_sub(padding2.spec_mul(Double { bits: TWO_BITS })).nan(),
    ensures
        ({
            let q1 = available(length1, padding1).spec_div(at_least_one(content));
            let q2 = available(length2, padding2).spec_div(at_least_one(content));
            &&& !q1.nan() ==> q1.value() >= 0
            &&& !q2.nan() ==> q2.value() >= 0
            &&& q1.nan() ==> q2.nan()
            &&& !q1.nan() && q2.nan() ==> q1.value() == 0
            &&& !q2.nan() ==> q1.spec_le(q2)
        }),
{
    let two = Double { bits: TWO_BITS };
    constants_are_what_they_say();
    lemma_pow2_pos(1074);
    assert(whole(2) > 0) by (nonlinear_arith)
        requires
            whole(2) == 2 * one(),
            one() > 0,
    ;
    products_keep_order(padding2, padding1, two);
    let (d1, d2) = (
        length1.spec_sub(padding1.spec_mul(two)),
        length2.spec_sub(padding2.spec_mul(two)),
    );
    differences_keep_order(length1, padding1.spec_mul(two), length2, padding2.spec_mul(two));
    let (a1, a2, c) = (available(length1, padding1), available(length2, padding2), at_least_one(content));
    lemma_at_least_one(d1);
    lemma_at_least_one(d2);
    lemma_at_least_one(content);
    assert(a1.spec_le(a2));
    lemma_quotient_value(a1, c);
    lemma_quotient_value(a2, c);
    let (q1, q2) = (a1.spec_div(c), a2.spec_div(c));
    lemma_magnitude_nonnegative(q1.magnitude());
    lemma_magnitude_nonnegative(q2.magnitude());
    if a1.infinite() {
        lemma_infinite_above(a1, a2);
    }
    if !q1.nan() && !q2.nan() {
        quotients_keep_order(a1, a2, c);
    }
}

/// A number that is at least an infinity is infinite.
proof fn lemma_infinite_above(a: Double, b: Double)
    requires
        a.infinite(),
        !a.negative(),
        a.spec_le(b),
    ensures
        b.infinite(),
{
    lemma_magnitude_nonnegative(b.magnitude());
    lemma_magnitude_nonnegative(a.magnitude());
    if b.finite() {
        lemma_magnitude_order(b.magnitude(), INFINITY_MAGNITUDE as int);
    }
}

/// A larger viewport or a smaller padding never lowers the fitted zoom. (Where the
/// zoom is a number with more room, it is one with less.)
pub proof fn more_room_never_lowers_zoom(
    b: Bounds,
    size1: Size,
    padding1: Double,
    size2: Size,
    padding2: Double,
    min_zoom: Double,
    max_zoom: Double,
)
    requires
        min_zoom.spec_le(max_zoom),
        size1.width.spec_le(size2.width),
        size1.height.spec_le(size2.height),
        padding2.spec_le(padding1),
        !size1.width.spec_sub(padding1.spec_mul(Double { bits: TWO_BITS })).nan(),
        !size1.height.spec_sub(padding1.spec_mul(Double { bits: TWO_BITS })).nan(),
        !size2.width.spec_sub(padding2.spec_mul(Double { bits: TWO_BITS })).nan(),
        !size2.height.spec_sub(padding2.spec_mul(Double { bits: TWO_BITS })).nan(),
        !natural_zoom(b, size2, padding2).nan(),
    ensures
        natural_zoom(b, size1, padding1).spec_le(natural_zoom(b, size2, padding2)),
        fitted(b, size1, padding1, min_zoom, max_zoom).zoom.spec_le(
            fitted(b, size2, padding2, min_zoom, max_zoom).zoom,
        ),
{
    lemma_more_room(
        size1.width,
        padding1,
        size2.width,
        padding2,
        b.right.spec_sub(b.left),
    );
    lemma_more_room(
        size1.height,
        padding1,
        size2.height,
        padding2,
        b.bottom.spec_sub(b.top),
    );
}

/// In one coordinate, how far rounding can move a fitted graph into the padding (four
/// times over, and scaled as in `lies_within_padding`): what centering, the available
/// length, the zoom and the extent of the graph from `low` to `high` are off by.
pub open spec fn padding_slack(
    length: Double,
    padding: Double,
    low: Double,
    high: Double,
    zoom: Double,
) -> int {
    let extent = high.spec_sub(low);
    let content = at_least_one(extent);
    let paddings = padding.spec_mul(Double { bits: TWO_BITS });
    let room = length.spec_sub(paddings);
    let quotient = available(length, padding).spec_div(content);
    centering_bound(length, content, low, zoom) + one() * (magnitude_gap(room.magnitude())
        + magnitude_gap(paddings.magnitude())) + magnitude_gap(quotient.magnitude())
        * content.value() + 2 * (magnitude_gap(extent.magnitude()) * zoom.value())
}

/// In one coordinate, what reaches from `start` to `end` in the graph is shown no
/// nearer than the padding to either end of `length`, up to `slack`.
pub open spec fn lies_within_padding(
    start: Double,
    end: Double,
    length: Double,
    padding: Double,
    zoom: Double,
    offset: Double,
    slack: int,
) -> bool {
    let shown_start = offset.value() * one() + start.value() * zoom.value();
    let shown_end = offset.value() * one() + end.value() * zoom.value();
    &&& 4 * (padding.value() * one() - shown_start) <= slack
    &&& 4 * (shown_end - (length.value() - padding.value()) * one()) <= slack
}

/// In one coordinate, the paddings leave room, and fitting does not leave the finite
/// numbers.
pub open spec fn fitting_is_finite(
    length: Double,
    padding: Double,
    low: Double,
    high: Double,
    zoom: Double,
) -> bool {
    let extent = high.spec_sub(low);
    let paddings = padding.spec_mul(Double { bits: TWO_BITS });
    let room = length.spec_sub(paddings);
    &&& high.finite()
    &&& padding.finite()
    &&& paddings.finite()
    &&& room.finite()
    &&& room.value() >= one()
    &&& extent.finite()
    &&& centering_is_finite(length, at_least_one(extent), low, zoom)
}

/// The inequalities of `lemma_lies_within_padding`, over integers.
proof fn lemma_padding_arithmetic(
    s: int,
    z: int,
    x: int,
    w: int,
    p: int,
    lo: int,
    hi: int,
    start: int,
    end: int,
    c: int,
    e: int,
    a: int,
    t: int,
    bound: int,
    ga: int,
    gt: int,
    ge: int,
    gq: int,
)
    requires
        s > 0,
        z >= 0,
        lo <= start,
        end <= hi,
        e <= c,
        2 * abs_int(2 * (x * s + lo * z) + c * z - w * s) <= bound,
        2 * (z * c - a * s) <= gq * c,
        2 * abs_int(a - (w - t)) <= ga,
        2 * abs_int(t * s - p * (2 * s)) <= gt * s,
        2 * abs_int(e - (hi - lo)) <= ge,
    ensures
        4 * (p * s - (x * s + start * z)) <= bound + s * (ga + gt) + gq * c + 2 * (ge * z),
        4 * (x * s + end * z - (w - p) * s) <= bound + s * (ga + gt) + gq * c + 2 * (ge * z),
{
    let (xs, ws, ps, ts, aa) = (x * s, w * s, p * s, t * s, a * s);
    let (loz, hiz, cz) = (lo * z, hi * z, c * z);
    assert(z * c == cz) by (nonlinear_arith)
        requires
            cz == c * z,
    ;
    assert(p * (2 * s) == 2 * ps) by (nonlinear_arith)
        requires
            ps == p * s,
    ;
    assert((w - p) * s == ws - ps) by (nonlinear_arith)
        requires
            ps == p * s,
            ws == w * s,
    ;
    assert(s * (ga + gt) == ga * s + gt * s) by (nonlinear_arith);
    assert(loz <= start * z) by (nonlinear_arith)
        requires
            loz == lo * z,
            lo <= start,
            z >= 0,
    ;
    assert(end * z <= hiz) by (nonlinear_arith)
        requires
            hiz == hi * z,
            end <= hi,
            z >= 0,
    ;
    assert(2 * aa <= 2 * ws - 2 * ts + ga * s) by (nonlinear_arith)
        requires
            aa == a * s,
            ws == w * s,
            ts == t * s,
            2 * (a - (w - t)) <= ga,
            s > 0,
    ;
    assert(2 * hiz <= 2 * loz + 2 * cz + ge * z) by (nonlinear_arith)
        requires
            hiz == hi * z,
            loz == lo * z,
            cz == c * z,
            2 * hi <= 2 * lo + 2 * c + ge,
            z >= 0,
    ;
    assert(ge * z >= 0) by (nonlinear_arith)
        requires
            ge >= 0,
            z >= 0,
    ;
}

/// A fitted graph lies within the padding, in one coordinate.
proof fn lemma_lies_within_padding(
    start: Double,
    end: Double,
    length: Double,
    padding: Double,
    low: Double,
    high: Double,
    zoom: Double,
)
    requires
        fitting_is_finite(length, padding, low, high, zoom),
        low.spec_le(start),
        end.spec_le(high),
        zoom.value() >= 0,
        fits(at_least_one(high.spec_sub(low)), available(length, padding), zoom),
    ensures
        lies_within_padding(
            start,
            end,
            length,
            padding,
            zoom,
            centered_offset(length, at_least_one(high.spec_sub(low)), low, zoom),
            padding_slack(length, padding, low, high, zoom),
        ),
{
    let two = Double { bits: TWO_BITS };
    let extent = high.spec_sub(low);
    let content = at_least_one(extent);
    let paddings = padding.spec_mul(two);
    let room = length.spec_sub(paddings);
    let quotient = available(length, padding).spec_div(content);
    let offset = centered_offset(length, content, low, zoom);
    let s = one();
    lemma_pow2_pos(1074);
    constants_are_what_they_say();
    assert(whole(1) == s && whole(2) == 2 * s) by (nonlinear_arith)
        requires
            s == one(),
    ;
    lemma_centered(length, content, low, zoom);
    product_error(padding, two);
    difference_error(length, paddings);
    difference_error(high, low);
    lemma_at_least_one(extent);
    lemma_padding_arithmetic(
        s,
        zoom.value(),
        offset.value(),
        length.value(),
        padding.value(),
        low.value(),
        high.value(),
        start.value(),
        end.value(),
        content.value(),
        extent.value(),
        room.value(),
        paddings.value(),
        centering_bound(length, content, low, zoom),
        magnitude_gap(room.magnitude()),
        magnitude_gap(paddings.magnitude()),
        magnitude_gap(extent.magnitude()),
        magnitude_gap(quotient.magnitude()),
    );
}

/// A zoom above the quotient of two lengths makes the one longer than the other.
proof fn lemma_larger_zoom_exceeds(content: Double, length: Double, larger: Double)
    requires
        content.finite(),
        content.value() >= one(),
        length.finite(),
        length.value() > 0,
        length.spec_div(content).spec_lt(larger),
    ensures
        larger.value() * content.value() > length.value() * one(),
{
    let q = length.spec_div(content);
    lemma_pow2_pos(1074);
    lemma_quotient_is_finite(length, content);
    quotient_error(length, content);
    lemma_quotient_value(length, content);
    lemma_magnitude_nonnegative(content.magnitude());
    lemma_magnitude_nonnegative(length.magnitude());
    lemma_magnitude_nonnegative(q.magnitude());
    lemma_magnitude_nonnegative(larger.magnitude());
    let (m, n) = (q.magnitude(), larger.magnitude());
    if n < m {
        lemma_magnitude_order(n, m);
    }
    lemma_magnitude_step(m);
    if m + 1 < n {
        lemma_magnitude_order(m + 1, n);
    }
    let (t, c, g, v) = (larger.value(), content.value(), magnitude_gap(m), q.value());
    assert(2 * (t * c) >= 2 * (v * c) + 2 * (g * c)) by (nonlinear_arith)
        requires
            t >= v + g,
            c > 0,
    ;
    assert(g * c > 0) by (nonlinear_arith)
        requires
            g >= 1,
            c > 0,
    ;
}

/// No zoom within the limits that is larger than the fitted one fits: at each the bounding
/// box is wider or higher than the space between the paddings. (A box less than one wide
/// or high counts as one, and so does the space.)
pub proof fn no_larger_zoom_fits(
    b: Bounds,
    viewport_size: Size,
    padding: Double,
    min_zoom: Double,
    max_zoom: Double,
    larger: Double,
)
    requires
        min_zoom.spec_le(max_zoom),
        available(viewport_size.width, padding).finite(),
        available(viewport_size.height, padding).finite(),
        at_least_one(b.right.spec_sub(b.left)).finite(),
        at_least_one(b.bottom.spec_sub(b.top)).finite(),
        fitted(b, viewport_size, padding, min_zoom, max_zoom).zoom.spec_lt(larger),
        larger.spec_le(max_zoom),
    ensures
        larger.value() * at_least_one(b.right.spec_sub(b.left)).value() > available(
            viewport_size.width,
            padding,
        ).value() * one() || larger.value() * at_least_one(b.bottom.spec_sub(b.top)).value()
            > available(viewport_size.height, padding).value() * one(),
{
    let two = Double { bits: TWO_BITS };
    let (width, height) = (viewport_size.width, viewport_size.height);
    let (aw, ah) = (available(width, padding), available(height, padding));
    let (cw, ch) = (at_least_one(b.right.spec_sub(b.left)), at_least_one(b.bottom.spec_sub(b.top)));
    lemma_at_least_one(b.right.spec_sub(b.left));
    lemma_at_least_one(b.bottom.spec_sub(b.top));
    lemma_at_least_one(width.spec_sub(padding.spec_mul(two)));
    lemma_at_least_one(height.spec_sub(padding.spec_mul(two)));
    lemma_quotient_is_finite(aw, cw);
    lemma_quotient_is_finite(ah, ch);
    if aw.spec_div(cw).spec_lt(larger) {
        lemma_larger_zoom_exceeds(cw, aw, larger);
    } else {
        lemma_larger_zoom_exceeds(ch, ah, larger);
    }
}

/// Where the lower zoom limit leaves room, fitting shows every node within the padding,
/// up to rounding; and no larger zoom within the limits would. (The latter needs no room:
/// `no_larger_zoom_fits`.)
pub proof fn fit_is_largest_within_padding(
    nodes: Seq<FlowNode>,
    i: int,
    viewport_size: Size,
    padding: Double,
    min_zoom: Double,
    max_zoom: Double,
)
    requires
        0 <= i < nodes.len(),
        !nodes[i].position.x.nan(),
        !nodes[i].position.y.nan(),
        !node_right(nodes[i]).nan(),
        !node_bottom(nodes[i]).nan(),
        min_zoom.spec_le(max_zoom),
        max_zoom.value() >= 0,
        ({
            let b = bounds_of(nodes);
            let v = fitted(b, viewport_size, padding, min_zoom, max_zoom);
            &&& !natural_zoom(b, viewport_size, padding).spec_lt(min_zoom)
            &&& fitting_is_finite(viewport_size.width, padding, b.left, b.right, v.zoom)
            &&& fitting_is_finite(viewport_size.height, padding, b.top, b.bottom, v.zoom)
        }),
    ensures
        ({
            let b = bounds_of(nodes);
            let v = fitted(b, viewport_size, padding, min_zoom, max_zoom);
            let (width, height) = (viewport_size.width, viewport_size.height);
            &&& lies_within_padding(
                nodes[i].position.x,
                node_right(nodes[i]),
                width,
                padding,
                v.zoom,
                v.x,
                padding_slack(width, padding, b.left, b.right, v.zoom),
            )
            &&& lies_within_padding(
                nodes[i].position.y,
                node_bottom(nodes[i]),
                height,
                padding,
                v.zoom,
                v.y,
                padding_slack(height, padding, b.top, b.bottom, v.zoom),
            )
            &&& forall|larger: Double| #[trigger]
                v.zoom.spec_lt(larger) && larger.spec_le(max_zoom) ==> larger.value()
                    * at_least_one(b.right.spec_sub(b.left)).value() > available(
                    width,
                    padding,
                ).value() * one() || larger.value() * at_least_one(
                    b.bottom.spec_sub(b.top),
                ).value() > available(height, padding).value() * one()
        }),
{
    let b = bounds_of(nodes);
    let v = fitted(b, viewport_size, padding, min_zoom, max_zoom);
    let (width, height) = (viewport_size.width, viewport_size.height);
    let (aw, ah) = (available(width, padding), available(height, padding));
    let (cw, ch) = (at_least_one(b.right.spec_sub(b.left)), at_least_one(b.bottom.spec_sub(b.top)));
    lemma_at_least_one(b.right.spec_sub(b.left));
    lemma_at_least_one(b.bottom.spec_sub(b.top));
    lemma_at_least_one(width.spec_sub(padding.spec_mul(Double { bits: TWO_BITS })));
    lemma_at_least_one(height.spec_sub(padding.spec_mul(Double { bits: TWO_BITS })));
    bounds_hold_every_node(nodes, i);
    fit_stays_within_padding(b, viewport_size, padding, min_zoom, max_zoom);
    lemma_quotient_is_finite(aw, cw);
    lemma_quotient_is_finite(ah, ch);
    lemma_quotient_value(aw, cw);
    lemma_quotient_value(ah, ch);
    lemma_magnitude_nonnegative(aw.spec_div(cw).magnitude());
    lemma_magnitude_nonnegative(ah.spec_div(ch).magnitude());
    assert(v.zoom.value() >= 0);
    lemma_lies_within_padding(
        nodes[i].position.x,
        node_right(nodes[i]),
        width,
        padding,
        b.left,
        b.right,
        v.zoom,
    );
    lemma_lies_within_padding(
        nodes[i].position.y,
        node_bottom(nodes[i]),
        height,
        padding,
        b.top,
        b.bottom,
        v.zoom,
    );
    assert forall|larger: Double| #[trigger]
        v.zoom.spec_lt(larger) && larger.spec_le(max_zoom) implies larger.value() * cw.value()
        > aw.value() * one() || larger.value() * ch.value() > ah.value() * one() by {
        no_larger_zoom_fits(b, viewport_size, padding, min_zoom, max_zoom, larger);
    }
}

/// What is available of a length is the length less twice the padding, up to the rounding
/// of two steps; but at least one.
pub proof fn room_is_what_paddings_leave(length: Double, padding: Double)
    requires
        length.finite(),
        padding.finite(),
        padding.spec_mul(Double { bits: TWO_BITS }).finite(),
        length.spec_sub(padding.spec_mul(Double { bits: TWO_BITS })).finite(),
    ensures
        ({
            let paddings = padding.spec_mul(Double { bits: TWO_BITS });
            let room = length.spec_sub(paddings);
            let rest = available(length, padding);
            let off = magnitude_gap(room.magnitude()) + magnitude_gap(paddings.magnitude());
            let exact = length.value() - 2 * padding.value();
            &&& rest.finite()
            &&& rest.value() >= one()
            &&& 2 * rest.value() >= 2 * exact - off
            &&& rest.value() == one() || 2 * abs_int(rest.value() - exact) <= off
        }),
{
    let two = Double { bits: TWO_BITS };
    let paddings = padding.spec_mul(two);
    let room = length.spec_sub(paddings);
    constants_are_what_they_say();
    lemma_pow2_pos(1074);
    let s = one();
    assert(whole(1) == s && whole(2) == 2 * s) by (nonlinear_arith)
        requires
            s == one(),
    ;
    product_error(padding, two);
    difference_error(length, paddings);
    lemma_at_least_one(room);
    let (t, p, g) = (paddings.value(), padding.value(), magnitude_gap(paddings.magnitude()));
    let e = t - 2 * p;
    assert(t * s - p * (2 * s) == s * e) by (nonlinear_arith)
        requires
            e == t - 2 * p,
    ;
    assert(2 * abs_int(e) <= g) by (nonlinear_arith)
        requires
            2 * abs_int(s * e) <= g * s,
            s > 0,
    ;
}

/// The size of the content is the distance between its sides, up to one rounding; but at
/// least one.
pub proof fn content_is_distance_of_sides(low: Double, high: Double)
    requires
        low.finite(),
        high.finite(),
        high.spec_sub(low).finite(),
    ensures
        ({
            let content = at_least_one(high.spec_sub(low));
            let off = magnitude_gap(high.spec_sub(low).magnitude());
            let exact = high.value() - low.value();
            &&& content.finite()
            &&& content.value() >= one()
            &&& 2 * content.value() >= 2 * exact - off
            &&& content.value() == one() || 2 * abs_int(content.value() - exact) <= off
        }),
{
    constants_are_what_they_say();
    assert(whole(1) == one()) by (nonlinear_arith);
    difference_error(high, low);
    lemma_at_least_one(high.spec_sub(low));
}

/// In binary fractions both are exact: a length of `l / 2^k` less twice a padding of
/// `p / 2^k`, and sides at `a / 2^k` and `b / 2^k`.
pub proof fn room_and_content_are_exact_in_fractions(
    length: Double,
    padding: Double,
    low: Double,
    high: Double,
    l: int,
    p: int,
    a: int,
    b: int,
    k: nat,
)
    requires
        is_fraction(length, l, k),
        is_fraction(padding, p, k),
        is_fraction(low, a, k),
        is_fraction(high, b, k),
        is_moderate(p * 2),
        is_moderate(l - p * 2),
        is_moderate(b - a),
    ensures
        available(length, padding).value() == greater(length.value() - 2 * padding.value(), one()),
        at_least_one(high.spec_sub(low)).value() == greater(high.value() - low.value(), one()),
{
    let two = Double { bits: TWO_BITS };
    constants_are_what_they_say();
    assert(whole(1) == one()) by (nonlinear_arith);
    whole_is_fraction(two, 2);
    fractions_multiply(padding, two, p, 2, k, 0);
    fractions_subtract(length, padding.spec_mul(two), l, p * 2, k);
    fractions_subtract(high, low, b, a, k);
    let t = pow2((1074 - k) as nat) as int;
    assert((l - p * 2) * t == l * t - 2 * (p * t)) by (nonlinear_arith);
    assert((b - a) * t == b * t - a * t) by (nonlinear_arith);
    lemma_at_least_one(length.spec_sub(padding.spec_mul(two)));
    lemma_at_least_one(high.spec_sub(low));
}

/// The greater of two integers.
pub open spec fn greater(a: int, b: int) -> int {
    if a < b {
        b
    } else {
        a
    }
}

/// The zoom at which the graph takes the available space is the lesser of the two ratios:
/// it is no more than either, and it is one of them. Each ratio times the content is the
/// available length, up to one rounding.
pub proof fn natural_zoom_is_the_lesser_ratio(b: Bounds, viewport_size: Size, padding: Double)
    requires
        available(viewport_size.width, padding).finite(),
        available(viewport_size.height, padding).finite(),
        at_least_one(b.right.spec_sub(b.left)).finite(),
        at_least_one(b.bottom.spec_sub(b.top)).finite(),
    ensures
        ({
            let zoom = natural_zoom(b, viewport_size, padding);
            let (w, h) = (
                at_least_one(b.right.spec_sub(b.left)).value(),
                at_least_one(b.bottom.spec_sub(b.top)).value(),
            );
            let (x, y) = (
                available(viewport_size.width, padding).value(),
                available(viewport_size.height, padding).value(),
            );
            let (off_x, off_y) = (
                2 * (zoom.value() * w - x * one()),
                2 * (zoom.value() * h - y * one()),
            );
            let gap = magnitude_gap(zoom.magnitude());
            &&& zoom.finite()
            &&& zoom.value() >= 0
            &&& abs_int(off_x) <= gap * w || abs_int(off_y) <= gap * h
            &&& fits(
                at_least_one(b.right.spec_sub(b.left)),
                available(viewport_size.width, padding),
                zoom,
            )
            &&& fits(
                at_least_one(b.bottom.spec_sub(b.top)),
                available(viewport_size.height, padding),
                zoom,
            )
        }),
{
    let two = Double { bits: TWO_BITS };
    let (width, height) = (viewport_size.width, viewport_size.height);
    let (aw, ah) = (available(width, padding), available(height, padding));
    let (cw, ch) = (at_least_one(b.right.spec_sub(b.left)), at_least_one(b.bottom.spec_sub(b.top)));
    lemma_at_least_one(b.right.spec_sub(b.left));
    lemma_at_least_one(b.bottom.spec_sub(b.top));
    lemma_at_least_one(width.spec_sub(padding.spec_mul(two)));
    lemma_at_least_one(height.spec_sub(padding.spec_mul(two)));
    lemma_quotient_is_finite(aw, cw);
    lemma_quotient_is_finite(ah, ch);
    quotient_error(aw, cw);
    quotient_error(ah, ch);
    lemma_quotient_value(aw, cw);
    lemma_quotient_value(ah, ch);
    let zoom = natural_zoom(b, viewport_size, padding);
    lemma_magnitude_nonnegative(aw.spec_div(cw).magnitude());
    lemma_magnitude_nonnegative(ah.spec_div(ch).magnitude());
    let (z, q, r, c, d) = (
        zoom.value(),
        aw.spec_div(cw).value(),
        ah.spec_div(ch).value(),
        cw.value(),
        ch.value(),
    );
    assert(z * c <= q * c) by (nonlinear_arith)
        requires
            z <= q,
            c > 0,
    ;
    assert(z * d <= r * d) by (nonlinear_arith)
        requires
            z <= r,
            d > 0,
    ;
}

/// The viewport of a new canvas, which is also that of a canvas without nodes, leaves a
/// margin of 24 and does not magnify.
pub proof fn new_canvas_has_a_margin()
    ensures
        Viewport::initial().x.value() == 24 * one(),
        Viewport::initial().y.value() == 24 * one(),
        Viewport::initial().zoom.value() == one(),
{
    constants_are_what_they_say();
    assert(whole(24) == 24 * one() && whole(1) == one()) by (nonlinear_arith);
}

/// The bounding box is that of the nodes' rectangles: no node reaches beyond it, where a
/// node reaches from its position to as far to the right and down as it is wide and high,
/// up to one rounding each; and it is no larger than the nodes make it.
pub proof fn bounds_are_those_of_the_rectangles(nodes: Seq<FlowNode>, i: int)
    requires
        0 <= i < nodes.len(),
        forall|j: int|
            0 <= j < nodes.len() ==> {
                let n = #[trigger] nodes[j];
                &&& n.position.x.finite() && n.size.width.finite()
                &&& n.position.y.finite() && n.size.height.finite()
                &&& n.position.x.spec_add(n.size.width).finite()
                &&& n.position.y.spec_add(n.size.height).finite()
            },
    ensures
        ({
            let b = bounds_of(nodes);
            let n = nodes[i];
            let (right, bottom) = (
                n.position.x.spec_add(n.size.width),
                n.position.y.spec_add(n.size.height),
            );
            &&& b.left.value() <= n.position.x.value()
            &&& b.top.value() <= n.position.y.value()
            &&& 2 * (n.position.x.value() + n.size.width.value()) <= 2 * b.right.value()
                + magnitude_gap(right.magnitude())
            &&& 2 * (n.position.y.value() + n.size.height.value()) <= 2 * b.bottom.value()
                + magnitude_gap(bottom.magnitude())
            &&& exists|j: int| 0 <= j < nodes.len() && (#[trigger] nodes[j]).position.x == b.left
            &&& exists|j: int| 0 <= j < nodes.len() && (#[trigger] nodes[j]).position.y == b.top
            &&& exists|j: int|
                0 <= j < nodes.len() && 2 * abs_int(
                    b.right.value() - ((#[trigger] nodes[j]).position.x.value()
                        + nodes[j].size.width.value()),
                ) <= magnitude_gap(b.right.magnitude())
            &&& exists|j: int|
                0 <= j < nodes.len() && 2 * abs_int(
                    b.bottom.value() - ((#[trigger] nodes[j]).position.y.value()
                        + nodes[j].size.height.value()),
                ) <= magnitude_gap(b.bottom.magnitude())
        }),
{
    let b = bounds_of(nodes);
    bounds_hold_every_node(nodes, i);
    let n = nodes[i];
    sum_error(n.position.x, n.size.width);
    sum_error(n.position.y, n.size.height);
    let j = choose|j: int| 0 <= j < nodes.len() && node_right(#[trigger] nodes[j]) == b.right;
    sum_error(nodes[j].position.x, nodes[j].size.width);
    let k = choose|j: int| 0 <= j < nodes.len() && node_bottom(#[trigger] nodes[j]) == b.bottom;
    sum_error(nodes[k].position.y, nodes[k].size.height);
}

} // verus!
