//! Zooming keeps the graph point under the anchor.
use crate::arithmetic::{lemma_abs_value, one};
use crate::double::{abs_int, lemma_magnitude_nonnegative, magnitude_gap, magnitude_value, Double};
use crate::accuracy::{
    difference_error, difference_exact, lemma_negated, lemma_round_error, lemma_round_exact,
    lemma_round_nearest, lemma_signed, lemma_weighted, product_error, product_exact,
    quotient_error, quotient_exact, representable,
};
use crate::geometry::{Point, Viewport};
use crate::laws::constants::constants_are_what_they_say;
use crate::laws::fractions::{
    fractions_divide, fractions_multiply, fractions_subtract, is_fraction, is_moderate,
};
use crate::rounding::{lemma_round_is, round_magnitude};
use crate::viewport::{graph_coordinate, offset_for, zoomed, WHEEL_RATE_BITS};
use vstd::arithmetic::power2::lemma_pow2_pos;
use vstd::prelude::*;

verus! {

/// Zooming one coordinate does not leave the finite numbers.
pub open spec fn zoom_is_finite(anchor: Double, offset: Double, zoom: Double, next_zoom: Double) -> bool {
    let graph = anchor.spec_sub(offset).spec_div(zoom);
    &&& anchor.finite()
    &&& offset.finite()
    &&& zoom.finite()
    &&& zoom.value() != 0
    &&& next_zoom.finite()
    &&& anchor.spec_sub(offset).finite()
    &&& graph.finite()
    &&& graph.spec_mul(next_zoom).finite()
    &&& anchor.spec_sub(graph.spec_mul(next_zoom)).finite()
}

/// In one coordinate, how far the rounding of the four steps of a zoom can move the
/// graph point under the anchor (twice over, and scaled as in `keeps_anchor`): the sum
/// of the gaps at the four results, each weighted by what its error is multiplied with.
pub open spec fn drift_bound(anchor: Double, offset: Double, zoom: Double, next_zoom: Double) -> int {
    let distance = anchor.spec_sub(offset);
    let graph = graph_coordinate(anchor, offset, zoom);
    let shown = graph.spec_mul(next_zoom);
    let next = offset_for(anchor, graph, next_zoom);
    one() * (abs_int(zoom.value()) * magnitude_gap(next.magnitude())) + abs_int(zoom.value()) * (
    magnitude_gap(shown.magnitude()) * one()) + abs_int(next_zoom.value()) * (magnitude_gap(
        graph.magnitude(),
    ) * abs_int(zoom.value())) + one() * (abs_int(next_zoom.value()) * magnitude_gap(
        distance.magnitude(),
    ))
}

/// In one coordinate, the graph point under the anchor is shown at the anchor again
/// when the offset is `next`: its place on the screen is off by at most half a gap of
/// the new offset, and its place in the graph by what the rounding of the four steps
/// adds up to. (The graph point under the anchor is `(anchor - offset) / zoom` before
/// and `(anchor - next) / next_zoom` after; the second clause multiplies that out.)
pub open spec fn keeps_anchor(
    anchor: Double,
    offset: Double,
    zoom: Double,
    next_zoom: Double,
    next: Double,
) -> bool {
    let shown = graph_coordinate(anchor, offset, zoom).spec_mul(next_zoom);
    let drift = (anchor.value() - next.value()) * zoom.value() - (anchor.value() - offset.value())
        * next_zoom.value();
    &&& 2 * abs_int(shown.value() + next.value() - anchor.value()) <= magnitude_gap(
        next.magnitude(),
    )
    &&& 2 * (one() * abs_int(drift)) <= drift_bound(anchor, offset, zoom, next_zoom)
}

/// Four errors of `2 * e <= bound`, each weighted, bound their weighted sum.
proof fn lemma_weighted_errors(
    s: int,
    z: int,
    n: int,
    e1: int,
    e2: int,
    e3: int,
    e4: int,
    b1: int,
    b2: int,
    b3: int,
    b4: int,
)
    requires
        s > 0,
        2 * abs_int(e1) <= b1,
        2 * abs_int(e2) <= b2,
        2 * abs_int(e3) <= b3,
        2 * abs_int(e4) <= b4,
    ensures
        2 * abs_int(s * (z * e1) + z * e2 + n * e3 + s * (n * e4)) <= s * (abs_int(z) * b1)
            + abs_int(z) * b2 + abs_int(n) * b3 + s * (abs_int(n) * b4),
{
    lemma_weighted(z, e1, b1);
    lemma_weighted(z, e2, b2);
    lemma_weighted(n, e3, b3);
    lemma_weighted(n, e4, b4);
    lemma_weighted(s, z * e1, abs_int(z) * b1);
    lemma_weighted(s, n * e4, abs_int(n) * b4);
}

/// The drift of a zoom is the weighted sum of the errors of its steps.
proof fn lemma_drift_of_errors(s: int, a: int, x: int, z: int, n: int, d: int, g: int, p: int, r: int)
    ensures
        s * ((a - r) * z - (a - x) * n) == s * (z * (a - p - r)) + z * (p * s - g * n) + n * (g * z
            - d * s) + s * (n * (d - (a - x))),
{
    let (sz, sn, gzn) = (s * z, s * n, g * z * n);
    let (u, v) = ((a - r) * z, (a - x) * n);
    assert(s * (u - v) == s * u - s * v) by (nonlinear_arith);
    assert(s * u == sz * a - sz * r) by (nonlinear_arith)
        requires
            u == (a - r) * z,
            sz == s * z,
    ;
    assert(s * v == sn * a - sn * x) by (nonlinear_arith)
        requires
            v == (a - x) * n,
            sn == s * n,
    ;
    assert(s * (z * (a - p - r)) == sz * a - sz * p - sz * r) by (nonlinear_arith)
        requires
            sz == s * z,
    ;
    assert(z * (p * s - g * n) == sz * p - gzn) by (nonlinear_arith)
        requires
            sz == s * z,
            gzn == g * z * n,
    ;
    assert(n * (g * z - d * s) == gzn - sn * d) by (nonlinear_arith)
        requires
            sn == s * n,
            gzn == g * z * n,
    ;
    assert(s * (n * (d - (a - x))) == sn * d - sn * a + sn * x) by (nonlinear_arith)
        requires
            sn == s * n,
    ;
}

/// Zooming about an anchor keeps the graph point under it, in one coordinate.
proof fn lemma_keeps_anchor(anchor: Double, offset: Double, zoom: Double, next_zoom: Double)
    requires
        zoom_is_finite(anchor, offset, zoom, next_zoom),
    ensures
        keeps_anchor(
            anchor,
            offset,
            zoom,
            next_zoom,
            offset_for(anchor, graph_coordinate(anchor, offset, zoom), next_zoom),
        ),
{
    let distance = anchor.spec_sub(offset);
    let graph = graph_coordinate(anchor, offset, zoom);
    let shown = graph.spec_mul(next_zoom);
    let next = offset_for(anchor, graph, next_zoom);
    difference_error(anchor, offset);
    quotient_error(distance, zoom);
    product_error(graph, next_zoom);
    difference_error(anchor, shown);
    let s = one();
    lemma_pow2_pos(1074);
    let (a, x, z, n) = (anchor.value(), offset.value(), zoom.value(), next_zoom.value());
    let (d, g, p, r) = (distance.value(), graph.value(), shown.value(), next.value());
    let e1 = a - p - r;
    let e2 = p * s - g * n;
    let e3 = g * z - d * s;
    let e4 = d - (a - x);
    let drift = (a - r) * z - (a - x) * n;
    lemma_drift_of_errors(s, a, x, z, n, d, g, p, r);
    lemma_weighted_errors(
        s,
        z,
        n,
        e1,
        e2,
        e3,
        e4,
        magnitude_gap(next.magnitude()),
        magnitude_gap(shown.magnitude()) * s,
        magnitude_gap(graph.magnitude()) * abs_int(z),
        magnitude_gap(distance.magnitude()),
    );
    lemma_scaled(s, drift);
}

/// Zooming about an anchor keeps the graph point under the anchor where it is, up to
/// the rounding of its steps.
pub proof fn zoom_keeps_anchor(viewport: Viewport, anchor: Point, next_zoom: Double)
    requires
        zoom_is_finite(anchor.x, viewport.x, viewport.zoom, next_zoom),
        zoom_is_finite(anchor.y, viewport.y, viewport.zoom, next_zoom),
    ensures
        ({
            let next = zoomed(viewport, anchor, next_zoom);
            &&& next.zoom == next_zoom
            &&& next.x.finite()
            &&& next.y.finite()
            &&& keeps_anchor(anchor.x, viewport.x, viewport.zoom, next_zoom, next.x)
            &&& keeps_anchor(anchor.y, viewport.y, viewport.zoom, next_zoom, next.y)
        }),
{
    lemma_keeps_anchor(anchor.x, viewport.x, viewport.zoom, next_zoom);
    lemma_keeps_anchor(anchor.y, viewport.y, viewport.zoom, next_zoom);
}

/// In one coordinate, the four steps of zooming have results that are numbers:
/// `graph` and `shown` are the exact graph coordinate under the anchor and its exact
/// distance from the graph's origin on the screen.
pub open spec fn zoom_is_exact(
    anchor: Double,
    offset: Double,
    zoom: Double,
    next_zoom: Double,
    graph: int,
    shown: int,
) -> bool {
    &&& anchor.finite()
    &&& offset.finite()
    &&& zoom.finite()
    &&& zoom.value() != 0
    &&& next_zoom.finite()
    &&& representable(anchor.value() - offset.value())
    &&& representable(graph)
    &&& graph * zoom.value() == (anchor.value() - offset.value()) * one()
    &&& representable(shown)
    &&& graph * next_zoom.value() == shown * one()
    &&& representable(anchor.value() - shown)
}

/// Where no step has to round, zooming keeps the graph point under the anchor
/// exactly.
pub proof fn exact_zoom_keeps_anchor(
    anchor: Double,
    offset: Double,
    zoom: Double,
    next_zoom: Double,
    graph: int,
    shown: int,
)
    requires
        zoom_is_exact(anchor, offset, zoom, next_zoom, graph, shown),
    ensures
        ({
            let next = offset_for(anchor, graph_coordinate(anchor, offset, zoom), next_zoom);
            &&& graph_coordinate(anchor, offset, zoom).value() == graph
            &&& next.finite()
            &&& next.value() == anchor.value() - shown
            &&& (anchor.value() - next.value()) * zoom.value() == (anchor.value()
                - offset.value()) * next_zoom.value()
        }),
{
    difference_exact(anchor, offset);
    quotient_exact(anchor.spec_sub(offset), zoom, graph);
    let g = graph_coordinate(anchor, offset, zoom);
    product_exact(g, next_zoom, shown);
    difference_exact(anchor, g.spec_mul(next_zoom));
    let s = one();
    lemma_pow2_pos(1074);
    let (a, x, z, n) = (anchor.value(), offset.value(), zoom.value(), next_zoom.value());
    assert(shown * z == (a - x) * n) by (nonlinear_arith)
        requires
            graph * z == (a - x) * s,
            graph * n == shown * s,
            s > 0,
    ;
}

/// Zooming in fractions is exact where the graph coordinate under the anchor is the
/// fraction `g / 2^j`. The anchor is `m / 2^(j + k)`, the offset `n / 2^(j + k)`, and the
/// two zoom factors are `z / 2^k` and `w / 2^k`.
pub proof fn zoom_is_exact_in_fractions(
    anchor: Double,
    offset: Double,
    zoom: Double,
    next_zoom: Double,
    m: int,
    n: int,
    z: int,
    w: int,
    g: int,
    j: nat,
    k: nat,
)
    requires
        is_fraction(anchor, m, j + k),
        is_fraction(offset, n, j + k),
        is_fraction(zoom, z, k),
        is_fraction(next_zoom, w, k),
        z != 0,
        g * z == m - n,
        is_moderate(m - n),
        is_moderate(g),
        is_moderate(g * w),
        is_moderate(m - g * w),
    ensures
        ({
            let graph = graph_coordinate(anchor, offset, zoom);
            &&& is_fraction(graph, g, j)
            &&& is_fraction(offset_for(anchor, graph, next_zoom), m - g * w, j + k)
        }),
{
    fractions_subtract(anchor, offset, m, n, j + k);
    fractions_divide(anchor.spec_sub(offset), zoom, g, z, j, k);
    let graph = graph_coordinate(anchor, offset, zoom);
    fractions_multiply(graph, next_zoom, g, w, j, k);
    fractions_subtract(anchor, graph.spec_mul(next_zoom), m, g * w, j + k);
}

/// Where it is exact, zooming is undone by zooming back about the same anchor.
pub proof fn zooming_back_restores(
    anchor: Double,
    offset: Double,
    zoom: Double,
    next_zoom: Double,
    m: int,
    n: int,
    z: int,
    w: int,
    g: int,
    j: nat,
    k: nat,
)
    requires
        is_fraction(anchor, m, j + k),
        is_fraction(offset, n, j + k),
        is_fraction(zoom, z, k),
        is_fraction(next_zoom, w, k),
        z != 0,
        w != 0,
        g * z == m - n,
        is_moderate(m - n),
        is_moderate(n),
        is_moderate(g),
        is_moderate(g * w),
        is_moderate(m - g * w),
    ensures
        ({
            let there = offset_for(anchor, graph_coordinate(anchor, offset, zoom), next_zoom);
            let back = offset_for(anchor, graph_coordinate(anchor, there, next_zoom), zoom);
            back.spec_eq(offset)
        }),
{
    zoom_is_exact_in_fractions(anchor, offset, zoom, next_zoom, m, n, z, w, g, j, k);
    let there = offset_for(anchor, graph_coordinate(anchor, offset, zoom), next_zoom);
    zoom_is_exact_in_fractions(
        anchor,
        there,
        next_zoom,
        zoom,
        m,
        m - g * w,
        w,
        z,
        g,
        j,
        k,
    );
}

/// What three drifts have to do with two ways to the same zoom.
proof fn lemma_two_steps_of_drifts(a: int, x: int, p: int, once: int, twice: int, z: int, m: int, n: int)
    ensures
        z * m * (once - twice) == n * ((a - p) * z - (a - x) * m) + z * ((a - twice) * m - (a - p)
            * n) - m * ((a - once) * z - (a - x) * n),
{
    let (zm, zn, mn) = (z * m, z * n, m * n);
    assert(zm * (once - twice) == zm * once - zm * twice) by (nonlinear_arith);
    assert(n * z == zn && n * m == mn && m * z == zm) by (nonlinear_arith)
        requires
            zm == z * m,
            zn == z * n,
            mn == m * n,
    ;
    lemma_weighted_drift(n, a, x, p, z, m);
    lemma_weighted_drift(z, a, p, twice, m, n);
    lemma_weighted_drift(m, a, x, once, z, n);
}

/// A weighted drift, multiplied out.
proof fn lemma_weighted_drift(w: int, a: int, x: int, r: int, z: int, n: int)
    ensures
        w * ((a - r) * z - (a - x) * n) == (w * z) * a - (w * z) * r - (w * n) * a + (w * n) * x,
{
    let (u, v) = ((a - r) * z, (a - x) * n);
    assert(w * (u - v) == w * u - w * v) by (nonlinear_arith);
    assert(w * u == (w * z) * a - (w * z) * r) by (nonlinear_arith)
        requires
            u == (a - r) * z,
    ;
    assert(w * v == (w * n) * a - (w * n) * x) by (nonlinear_arith)
        requires
            v == (a - x) * n,
    ;
}

/// In one coordinate, going from `zoom` to `next_zoom` by way of `middle_zoom` ends at
/// the same offset as going there at once, up to the rounding of the three zooms: their
/// drift bounds, each weighted by the zoom that the other two share.
spec fn steps_agree(
    anchor: Double,
    offset: Double,
    zoom: Double,
    middle_zoom: Double,
    next_zoom: Double,
) -> bool {
    let middle = offset_for(anchor, graph_coordinate(anchor, offset, zoom), middle_zoom);
    let once = offset_for(anchor, graph_coordinate(anchor, offset, zoom), next_zoom);
    let twice = offset_for(anchor, graph_coordinate(anchor, middle, middle_zoom), next_zoom);
    2 * (one() * abs_int(
        zoom.value() * middle_zoom.value() * (once.value() - twice.value()),
    )) <= abs_int(next_zoom.value()) * drift_bound(anchor, offset, zoom, middle_zoom) + abs_int(
        zoom.value(),
    ) * drift_bound(anchor, middle, middle_zoom, next_zoom) + abs_int(middle_zoom.value())
        * drift_bound(anchor, offset, zoom, next_zoom)
}

proof fn lemma_steps_agree(
    anchor: Double,
    offset: Double,
    zoom: Double,
    middle_zoom: Double,
    next_zoom: Double,
)
    requires
        ({
            let middle = offset_for(anchor, graph_coordinate(anchor, offset, zoom), middle_zoom);
            &&& zoom_is_finite(anchor, offset, zoom, middle_zoom)
            &&& zoom_is_finite(anchor, middle, middle_zoom, next_zoom)
            &&& zoom_is_finite(anchor, offset, zoom, next_zoom)
        }),
    ensures
        steps_agree(anchor, offset, zoom, middle_zoom, next_zoom),
{
    let middle = offset_for(anchor, graph_coordinate(anchor, offset, zoom), middle_zoom);
    let once = offset_for(anchor, graph_coordinate(anchor, offset, zoom), next_zoom);
    let twice = offset_for(anchor, graph_coordinate(anchor, middle, middle_zoom), next_zoom);
    lemma_keeps_anchor(anchor, offset, zoom, middle_zoom);
    lemma_keeps_anchor(anchor, middle, middle_zoom, next_zoom);
    lemma_keeps_anchor(anchor, offset, zoom, next_zoom);
    let s = one();
    lemma_pow2_pos(1074);
    let (a, x, z) = (anchor.value(), offset.value(), zoom.value());
    let (m, n) = (middle_zoom.value(), next_zoom.value());
    let (p, o, t) = (middle.value(), once.value(), twice.value());
    let d1 = (a - p) * z - (a - x) * m;
    let d2 = (a - t) * m - (a - p) * n;
    let d3 = (a - o) * z - (a - x) * n;
    lemma_two_steps_of_drifts(a, x, p, o, t, z, m, n);
    let w = z * m * (o - t);
    assert(w == n * d1 + z * d2 - m * d3);
    lemma_scaled(s, d1);
    lemma_scaled(s, d2);
    lemma_scaled(s, d3);
    lemma_scaled(s, w);
    lemma_weighted(n, s * d1, drift_bound(anchor, offset, zoom, middle_zoom));
    lemma_weighted(z, s * d2, drift_bound(anchor, middle, middle_zoom, next_zoom));
    lemma_weighted(m, s * d3, drift_bound(anchor, offset, zoom, next_zoom));
    assert(n * (s * d1) == s * (n * d1)) by (nonlinear_arith);
    assert(z * (s * d2) == s * (z * d2)) by (nonlinear_arith);
    assert(m * (s * d3) == s * (m * d3)) by (nonlinear_arith);
    let (w1, w2, w3) = (n * d1, z * d2, m * d3);
    assert(s * w == s * w1 + s * w2 - s * w3) by (nonlinear_arith)
        requires
            w == w1 + w2 - w3,
    ;
}

/// A positive factor leaves the size of a number.
proof fn lemma_scaled(s: int, d: int)
    requires
        s > 0,
    ensures
        abs_int(s * d) == s * abs_int(d),
{
    assert(abs_int(s * d) == s * abs_int(d)) by (nonlinear_arith)
        requires
            s > 0,
    ;
}

/// Zooming about an anchor in two steps is zooming about it once, up to rounding.
pub proof fn zooming_in_steps_is_zooming_once(
    viewport: Viewport,
    anchor: Point,
    middle_zoom: Double,
    next_zoom: Double,
)
    requires
        ({
            let middle = zoomed(viewport, anchor, middle_zoom);
            &&& zoom_is_finite(anchor.x, viewport.x, viewport.zoom, middle_zoom)
            &&& zoom_is_finite(anchor.x, middle.x, middle_zoom, next_zoom)
            &&& zoom_is_finite(anchor.x, viewport.x, viewport.zoom, next_zoom)
            &&& zoom_is_finite(anchor.y, viewport.y, viewport.zoom, middle_zoom)
            &&& zoom_is_finite(anchor.y, middle.y, middle_zoom, next_zoom)
            &&& zoom_is_finite(anchor.y, viewport.y, viewport.zoom, next_zoom)
        }),
    ensures
        ({
            let middle = zoomed(viewport, anchor, middle_zoom);
            let once = zoomed(viewport, anchor, next_zoom);
            let twice = zoomed(middle, anchor, next_zoom);
            let (z, m, n) = (viewport.zoom, middle_zoom, next_zoom);
            let weight = z.value() * m.value();
            &&& twice.zoom == once.zoom
            &&& 2 * (one() * abs_int(weight * (once.x.value() - twice.x.value()))) <= abs_int(
                n.value(),
            ) * drift_bound(anchor.x, viewport.x, z, m) + abs_int(z.value()) * drift_bound(
                anchor.x,
                middle.x,
                m,
                n,
            ) + abs_int(m.value()) * drift_bound(anchor.x, viewport.x, z, n)
            &&& 2 * (one() * abs_int(weight * (once.y.value() - twice.y.value()))) <= abs_int(
                n.value(),
            ) * drift_bound(anchor.y, viewport.y, z, m) + abs_int(z.value()) * drift_bound(
                anchor.y,
                middle.y,
                m,
                n,
            ) + abs_int(m.value()) * drift_bound(anchor.y, viewport.y, z, n)
        }),
{
    lemma_steps_agree(anchor.x, viewport.x, viewport.zoom, middle_zoom, next_zoom);
    lemma_steps_agree(anchor.y, viewport.y, viewport.zoom, middle_zoom, next_zoom);
}

/// In one coordinate: zooming there and back.
proof fn lemma_there_and_back(anchor: Double, offset: Double, zoom: Double, next_zoom: Double)
    requires
        ({
            let there = offset_for(anchor, graph_coordinate(anchor, offset, zoom), next_zoom);
            &&& zoom_is_finite(anchor, offset, zoom, next_zoom)
            &&& zoom_is_finite(anchor, there, next_zoom, zoom)
        }),
    ensures
        ({
            let there = offset_for(anchor, graph_coordinate(anchor, offset, zoom), next_zoom);
            let back = offset_for(anchor, graph_coordinate(anchor, there, next_zoom), zoom);
            2 * (one() * abs_int(next_zoom.value() * (back.value() - offset.value())))
                <= drift_bound(anchor, offset, zoom, next_zoom) + drift_bound(
                anchor,
                there,
                next_zoom,
                zoom,
            )
        }),
{
    let there = offset_for(anchor, graph_coordinate(anchor, offset, zoom), next_zoom);
    let back = offset_for(anchor, graph_coordinate(anchor, there, next_zoom), zoom);
    lemma_keeps_anchor(anchor, offset, zoom, next_zoom);
    lemma_keeps_anchor(anchor, there, next_zoom, zoom);
    let s = one();
    lemma_pow2_pos(1074);
    let (a, x, z, n) = (anchor.value(), offset.value(), zoom.value(), next_zoom.value());
    let (p, r) = (there.value(), back.value());
    let d1 = (a - p) * z - (a - x) * n;
    let d2 = (a - r) * n - (a - p) * z;
    let w = n * (r - x);
    assert(w == -(d1 + d2)) by (nonlinear_arith)
        requires
            w == n * (r - x),
            d1 == (a - p) * z - (a - x) * n,
            d2 == (a - r) * n - (a - p) * z,
    ;
    lemma_scaled(s, d1);
    lemma_scaled(s, d2);
    lemma_scaled(s, w);
    assert(s * w == -(s * d1) - s * d2) by (nonlinear_arith)
        requires
            w == -(d1 + d2),
    ;
}

/// Zooming about an anchor and back about the same anchor restores the viewport, up to
/// the rounding of the two zooms. (Where no step has to round it is restored exactly:
/// `zooming_back_restores`.)
pub proof fn zooming_back_nearly_restores(viewport: Viewport, anchor: Point, next_zoom: Double)
    requires
        ({
            let there = zoomed(viewport, anchor, next_zoom);
            &&& zoom_is_finite(anchor.x, viewport.x, viewport.zoom, next_zoom)
            &&& zoom_is_finite(anchor.x, there.x, next_zoom, viewport.zoom)
            &&& zoom_is_finite(anchor.y, viewport.y, viewport.zoom, next_zoom)
            &&& zoom_is_finite(anchor.y, there.y, next_zoom, viewport.zoom)
        }),
    ensures
        ({
            let there = zoomed(viewport, anchor, next_zoom);
            let back = zoomed(there, anchor, viewport.zoom);
            let n = next_zoom.value();
            &&& back.zoom == viewport.zoom
            &&& 2 * (one() * abs_int(n * (back.x.value() - viewport.x.value()))) <= drift_bound(
                anchor.x,
                viewport.x,
                viewport.zoom,
                next_zoom,
            ) + drift_bound(anchor.x, there.x, next_zoom, viewport.zoom)
            &&& 2 * (one() * abs_int(n * (back.y.value() - viewport.y.value()))) <= drift_bound(
                anchor.y,
                viewport.y,
                viewport.zoom,
                next_zoom,
            ) + drift_bound(anchor.y, there.y, next_zoom, viewport.zoom)
        }),
{
    lemma_there_and_back(anchor.x, viewport.x, viewport.zoom, next_zoom);
    lemma_there_and_back(anchor.y, viewport.y, viewport.zoom, next_zoom);
}

/// In one coordinate: zooming to the zoom that there is already.
proof fn lemma_same_zoom(anchor: Double, offset: Double, zoom: Double)
    requires
        zoom_is_finite(anchor, offset, zoom, zoom),
    ensures
        ({
            let next = offset_for(anchor, graph_coordinate(anchor, offset, zoom), zoom);
            2 * (one() * abs_int(zoom.value() * (next.value() - offset.value()))) <= drift_bound(
                anchor,
                offset,
                zoom,
                zoom,
            )
        }),
{
    let next = offset_for(anchor, graph_coordinate(anchor, offset, zoom), zoom);
    lemma_keeps_anchor(anchor, offset, zoom, zoom);
    let (a, x, z, r) = (anchor.value(), offset.value(), zoom.value(), next.value());
    let d = (a - r) * z - (a - x) * z;
    let w = z * (r - x);
    assert(w == -d) by (nonlinear_arith)
        requires
            w == z * (r - x),
            d == (a - r) * z - (a - x) * z,
    ;
}

/// Zooming to the zoom that the viewport has already leaves it, up to rounding.
pub proof fn zooming_to_same_zoom_keeps_viewport(viewport: Viewport, anchor: Point)
    requires
        zoom_is_finite(anchor.x, viewport.x, viewport.zoom, viewport.zoom),
        zoom_is_finite(anchor.y, viewport.y, viewport.zoom, viewport.zoom),
    ensures
        ({
            let next = zoomed(viewport, anchor, viewport.zoom);
            let z = viewport.zoom.value();
            &&& next.zoom == viewport.zoom
            &&& 2 * (one() * abs_int(z * (next.x.value() - viewport.x.value()))) <= drift_bound(
                anchor.x,
                viewport.x,
                viewport.zoom,
                viewport.zoom,
            )
            &&& 2 * (one() * abs_int(z * (next.y.value() - viewport.y.value()))) <= drift_bound(
                anchor.y,
                viewport.y,
                viewport.zoom,
                viewport.zoom,
            )
        }),
{
    lemma_same_zoom(anchor.x, viewport.x, viewport.zoom);
    lemma_same_zoom(anchor.y, viewport.y, viewport.zoom);
}

/// A wheel step of `delta` puts `exponent` into the exponential: minus 0.0015 times the
/// step, up to the rounding of the product and of the rate itself. (Both sides are
/// multiplied by ten thousand and by one.) Turning the wheel up zooms in, turning it down
/// zooms out.
pub open spec fn wheels_at_rate(delta: Double, exponent: Double) -> bool {
    let error = 10000 * (exponent.value() * one()) + 15 * (one() * delta.value());
    &&& 2 * abs_int(error) <= 10000 * (magnitude_gap(exponent.magnitude()) * one()) + 10000 * (
    abs_int(delta.value()) * magnitude_gap(WHEEL_RATE_BITS as int))
    &&& delta.value() <= 0 ==> exponent.value() >= 0
    &&& delta.value() >= 0 ==> exponent.value() <= 0
}

/// The wheel zooms at a rate of 0.0015 for each unit that it is turned.
pub proof fn wheel_turns_at_its_rate(delta: Double)
    requires
        delta.finite(),
        delta.spec_neg().spec_mul(Double { bits: WHEEL_RATE_BITS }).finite(),
    ensures
        wheels_at_rate(delta, delta.spec_neg().spec_mul(Double { bits: WHEEL_RATE_BITS })),
{
    let rate = Double { bits: WHEEL_RATE_BITS };
    let back = delta.spec_neg();
    let r = back.spec_mul(rate);
    lemma_negated(delta);
    product_error(back, rate);
    constants_are_what_they_say();
    lemma_pow2_pos(1074);
    let s = one();
    lemma_round_is(15 * s, 10000, WHEEL_RATE_BITS as int);
    lemma_round_error(15 * s, 10000);
    let (d, f, v) = (delta.value(), rate.value(), r.value());
    let (g, h) = (magnitude_gap(r.magnitude()), magnitude_gap(WHEEL_RATE_BITS as int));
    let e = f * 10000 - 15 * s;
    lemma_weighted(d, e, h * 10000);
    assert(d * e == 10000 * (d * f) - 15 * (s * d)) by (nonlinear_arith)
        requires
            e == f * 10000 - 15 * s,
    ;
    assert((-d) * f == -(d * f)) by (nonlinear_arith);
    let a = abs_int(d);
    assert(a * (h * 10000) == 10000 * (a * h)) by (nonlinear_arith);
    lemma_magnitude_nonnegative(delta.magnitude());
    lemma_magnitude_nonnegative(r.magnitude());
    lemma_round_nearest(abs_int(back.value()) * abs_int(f), s);
    lemma_signed(
        back.negative() != rate.negative(),
        round_magnitude(abs_int(back.value()) * abs_int(f), s),
    );
    if d == 0 {
        lemma_abs_value(back);
        let z = abs_int(f);
        assert(0 * z == 0) by (nonlinear_arith);
        let m0 = magnitude_value(0);
        assert(m0 * s == 0) by (nonlinear_arith)
            requires
                m0 == 0,
        ;
        lemma_round_exact(0, s, 0);
    }
}

/// Zooming about an anchor leaves the anchor's graph point, and moves all others away from
/// the anchor or towards it: a graph point is shown as far from the anchor as before, times
/// the ratio of the zooms. Written out for the point at `graph`: its distances on the screen
/// are `graph * zoom + offset - anchor` before and `graph * next_zoom + next - anchor` after,
/// and each times the other's zoom is the same, up to the rounding of the zoom.
pub proof fn zoom_scales_about_anchor(
    anchor: Double,
    offset: Double,
    zoom: Double,
    next_zoom: Double,
    graph: int,
)
    requires
        zoom_is_finite(anchor, offset, zoom, next_zoom),
    ensures
        ({
            let next = offset_for(anchor, graph_coordinate(anchor, offset, zoom), next_zoom);
            let before = graph * zoom.value() + (offset.value() - anchor.value()) * one();
            let after = graph * next_zoom.value() + (next.value() - anchor.value()) * one();
            2 * abs_int(after * zoom.value() - before * next_zoom.value()) <= drift_bound(
                anchor,
                offset,
                zoom,
                next_zoom,
            )
        }),
{
    let next = offset_for(anchor, graph_coordinate(anchor, offset, zoom), next_zoom);
    lemma_keeps_anchor(anchor, offset, zoom, next_zoom);
    lemma_pow2_pos(1074);
    let s = one();
    let (a, x, r, z, n) = (
        anchor.value(),
        offset.value(),
        next.value(),
        zoom.value(),
        next_zoom.value(),
    );
    let drift = (a - r) * z - (a - x) * n;
    let (before, after) = (graph * z + (x - a) * s, graph * n + (r - a) * s);
    assert(after * z == graph * n * z + s * ((r - a) * z)) by (nonlinear_arith)
        requires
            after == graph * n + (r - a) * s,
    ;
    assert(before * n == graph * z * n + s * ((x - a) * n)) by (nonlinear_arith)
        requires
            before == graph * z + (x - a) * s,
    ;
    assert(graph * n * z == graph * z * n) by (nonlinear_arith);
    assert((r - a) * z == -((a - r) * z) && (x - a) * n == -((a - x) * n)) by (nonlinear_arith);
    let (p, q) = ((a - r) * z, (a - x) * n);
    assert(s * (-p) - s * (-q) == -(s * (p - q))) by (nonlinear_arith);
    lemma_scaled(s, drift);
}

} // verus!
