//! A dragged node and a panned viewport follow the pointer.
use crate::arithmetic::one;
use crate::double::{abs_int, magnitude_gap, signed, Double, HIDDEN_BIT};
use crate::drag::{beyond_threshold, distance_squared, dragged_position};
use crate::accuracy::{
    difference_error, difference_exact, difference_with_itself, lemma_signed, lemma_weighted,
    product_error, quotient_error, representable, sum_error, sum_exact, sum_with_zero,
    zero_divided,
};
use crate::geometry::Point;
use crate::laws::constants::{constants_are_what_they_say, whole};
use crate::laws::fractions::{
    fractions_add, fractions_multiply, fractions_subtract, is_fraction, is_moderate,
};
use crate::pan::panned_offset;
use vstd::arithmetic::power2::{lemma_pow2_adds, lemma_pow2_pos, pow2};
use vstd::prelude::*;

verus! {

/// A node is back where it was when the pointer is back where it was pressed.
pub proof fn dragging_back_restores(origin: Point, start: Point, zoom: Double)
    requires
        !origin.x.nan(),
        !origin.y.nan(),
        start.x.finite(),
        start.y.finite(),
        !zoom.nan(),
        zoom.value() != 0,
    ensures
        dragged_position(origin, start, start, zoom).x.spec_eq(origin.x),
        dragged_position(origin, start, start, zoom).y.spec_eq(origin.y),
{
    difference_with_itself(start.x);
    difference_with_itself(start.y);
    lemma_signed(false, 0);
    zero_divided(signed(false, 0), zoom);
    sum_with_zero(origin.x, signed(false, 0).spec_div(zoom));
    sum_with_zero(origin.y, signed(false, 0).spec_div(zoom));
}

/// Dragging one coordinate does not leave the finite numbers.
pub open spec fn dragging_is_finite(origin: Double, start: Double, pointer: Double, zoom: Double) -> bool {
    let step = pointer.spec_sub(start).spec_div(zoom);
    &&& origin.finite()
    &&& start.finite()
    &&& pointer.finite()
    &&& zoom.finite()
    &&& zoom.value() != 0
    &&& pointer.spec_sub(start).finite()
    &&& step.finite()
    &&& origin.spec_add(step).finite()
}

/// In one coordinate, the way of the node on the screen, `(position - origin) * zoom`,
/// is the way of the pointer, `pointer - start`, up to the rounding of three steps.
pub open spec fn follows_pointer(
    origin: Double,
    start: Double,
    pointer: Double,
    zoom: Double,
    position: Double,
) -> bool {
    let way = pointer.spec_sub(start);
    let step = way.spec_div(zoom);
    let lag = (position.value() - origin.value()) * zoom.value() - (pointer.value()
        - start.value()) * one();
    2 * abs_int(lag) <= abs_int(zoom.value()) * magnitude_gap(position.magnitude())
        + magnitude_gap(step.magnitude()) * abs_int(zoom.value()) + one() * magnitude_gap(
        way.magnitude(),
    )
}

proof fn lemma_follows_pointer(origin: Double, start: Double, pointer: Double, zoom: Double)
    requires
        dragging_is_finite(origin, start, pointer, zoom),
    ensures
        follows_pointer(
            origin,
            start,
            pointer,
            zoom,
            origin.spec_add(pointer.spec_sub(start).spec_div(zoom)),
        ),
{
    let way = pointer.spec_sub(start);
    let step = way.spec_div(zoom);
    let position = origin.spec_add(step);
    difference_error(pointer, start);
    quotient_error(way, zoom);
    sum_error(origin, step);
    let s = one();
    lemma_pow2_pos(1074);
    let (o, p, z, w, q) = (
        origin.value(),
        position.value(),
        zoom.value(),
        way.value(),
        step.value(),
    );
    let d = pointer.value() - start.value();
    let e1 = p - (o + q);
    let e3 = w - d;
    lemma_weighted(z, e1, magnitude_gap(position.magnitude()));
    lemma_weighted(s, e3, magnitude_gap(way.magnitude()));
    assert((p - o) * z - d * s == z * e1 + (q * z - w * s) + s * e3) by (nonlinear_arith)
        requires
            e1 == p - (o + q),
            e3 == w - d,
    ;
}

/// A dragged node follows the pointer on the screen at any zoom, up to rounding.
pub proof fn dragged_node_follows_pointer(origin: Point, start: Point, pointer: Point, zoom: Double)
    requires
        dragging_is_finite(origin.x, start.x, pointer.x, zoom),
        dragging_is_finite(origin.y, start.y, pointer.y, zoom),
    ensures
        ({
            let position = dragged_position(origin, start, pointer, zoom);
            &&& follows_pointer(origin.x, start.x, pointer.x, zoom, position.x)
            &&& follows_pointer(origin.y, start.y, pointer.y, zoom, position.y)
        }),
{
    lemma_follows_pointer(origin.x, start.x, pointer.x, zoom);
    lemma_follows_pointer(origin.y, start.y, pointer.y, zoom);
}

/// The viewport moves as far as the pointer, up to the rounding of two steps.
pub proof fn panned_viewport_follows_pointer(origin: Double, start: Double, pointer: Double)
    requires
        origin.finite(),
        start.finite(),
        pointer.finite(),
        origin.spec_add(pointer).finite(),
        origin.spec_add(pointer).spec_sub(start).finite(),
    ensures
        panned_offset(origin, start, pointer).finite(),
        2 * abs_int(
            (panned_offset(origin, start, pointer).value() - origin.value()) - (pointer.value()
                - start.value()),
        ) <= magnitude_gap(origin.spec_add(pointer).magnitude()) + magnitude_gap(
            panned_offset(origin, start, pointer).magnitude(),
        ),
{
    sum_error(origin, pointer);
    difference_error(origin.spec_add(pointer), start);
}

/// Where neither step has to round, the viewport moves exactly as far as the pointer;
/// with the pointer back where it was pressed, the viewport is back where it was.
pub proof fn exact_pan_follows_pointer(origin: Double, start: Double, pointer: Double)
    requires
        origin.finite(),
        start.finite(),
        pointer.finite(),
        representable(origin.value() + pointer.value()),
        representable(origin.value() + pointer.value() - start.value()),
    ensures
        panned_offset(origin, start, pointer).finite(),
        panned_offset(origin, start, pointer).value() == origin.value() + pointer.value()
            - start.value(),
        pointer.spec_eq(start) ==> panned_offset(origin, start, pointer).spec_eq(origin),
{
    sum_exact(origin, pointer);
    difference_exact(origin.spec_add(pointer), start);
}

/// In whole pixels, or in binary fractions of a pixel, the viewport moves exactly as far
/// as the pointer.
pub proof fn pan_is_exact_in_fractions(
    origin: Double,
    start: Double,
    pointer: Double,
    o: int,
    s: int,
    p: int,
    k: nat,
)
    requires
        is_fraction(origin, o, k),
        is_fraction(start, s, k),
        is_fraction(pointer, p, k),
        is_moderate(o + p),
        is_moderate(o + p - s),
    ensures
        is_fraction(panned_offset(origin, start, pointer), o + p - s, k),
{
    fractions_add(origin, pointer, o, p, k);
    fractions_subtract(origin.spec_add(pointer), start, o + p, s, k);
}

/// Between points in whole pixels, or in binary fractions `1 / 2^k` of a pixel, the
/// threshold is exactly three pixels of distance: the pointer drags if and only if the
/// square of its distance is at least nine.
pub proof fn threshold_is_three_pixels(
    start: Point,
    current: Point,
    x0: int,
    y0: int,
    x1: int,
    y1: int,
    k: nat,
)
    requires
        is_fraction(start.x, x0, k),
        is_fraction(start.y, y0, k),
        is_fraction(current.x, x1, k),
        is_fraction(current.y, y1, k),
        2 * k <= 1074,
        abs_int(x1 - x0) <= 0x400_0000,
        abs_int(y1 - y0) <= 0x400_0000,
    ensures
        beyond_threshold(start, current) <==> (x1 - x0) * (x1 - x0) + (y1 - y0) * (y1 - y0) >= 9
            * pow2(2 * k),
{
    let (dx, dy) = (x1 - x0, y1 - y0);
    lemma_square(dx);
    lemma_square(dy);
    fractions_subtract(current.x, start.x, x1, x0, k);
    fractions_subtract(current.y, start.y, y1, y0, k);
    let (fx, fy) = (current.x.spec_sub(start.x), current.y.spec_sub(start.y));
    fractions_multiply(fx, fx, dx, dx, k, k);
    fractions_multiply(fy, fy, dy, dy, k, k);
    fractions_add(fx.spec_mul(fx), fy.spec_mul(fy), dx * dx, dy * dy, k + k);
    constants_are_what_they_say();
    let d = distance_squared(start, current);
    let q = dx * dx + dy * dy;
    let p = pow2((1074 - 2 * k) as nat) as int;
    let w = pow2(2 * k) as int;
    lemma_pow2_pos((1074 - 2 * k) as nat);
    lemma_pow2_adds((1074 - 2 * k) as nat, 2 * k);
    assert(one() == p * w);
    assert(d.value() == q * p);
    assert(whole(9) <= q * p <==> 9 * w <= q) by (nonlinear_arith)
        requires
            whole(9) == 9 * one(),
            one() == p * w,
            p > 0,
    ;
}

proof fn lemma_square(d: int)
    requires
        abs_int(d) <= 0x400_0000,
    ensures
        0 <= d * d <= HIDDEN_BIT,
{
    assert(0 <= d * d <= 0x10_0000_0000_0000) by (nonlinear_arith)
        requires
            -0x400_0000 <= d <= 0x400_0000,
    ;
}

/// Measuring a distance does not leave the finite numbers.
pub open spec fn measuring_is_finite(start: Point, current: Point) -> bool {
    let dx = current.x.spec_sub(start.x);
    let dy = current.y.spec_sub(start.y);
    &&& start.x.finite()
    &&& start.y.finite()
    &&& current.x.finite()
    &&& current.y.finite()
    &&& dx.finite()
    &&& dy.finite()
    &&& dx.spec_mul(dx).finite()
    &&& dy.spec_mul(dy).finite()
    &&& distance_squared(start, current).finite()
}

/// Between any two points, the square of the distance that the threshold looks at is
/// that of the coordinates' differences, up to the rounding of three steps; and the
/// differences are those of the coordinates, up to one rounding each.
pub proof fn distance_is_measured(start: Point, current: Point)
    requires
        measuring_is_finite(start, current),
    ensures
        ({
            let dx = current.x.spec_sub(start.x);
            let dy = current.y.spec_sub(start.y);
            let d = distance_squared(start, current);
            &&& 2 * abs_int(dx.value() - (current.x.value() - start.x.value())) <= magnitude_gap(
                dx.magnitude(),
            )
            &&& 2 * abs_int(dy.value() - (current.y.value() - start.y.value())) <= magnitude_gap(
                dy.magnitude(),
            )
            &&& 2 * abs_int(
                d.value() * one() - (dx.value() * dx.value() + dy.value() * dy.value()),
            ) <= one() * (magnitude_gap(d.magnitude()) + magnitude_gap(
                dx.spec_mul(dx).magnitude(),
            ) + magnitude_gap(dy.spec_mul(dy).magnitude()))
        }),
{
    let dx = current.x.spec_sub(start.x);
    let dy = current.y.spec_sub(start.y);
    let (px, py) = (dx.spec_mul(dx), dy.spec_mul(dy));
    let d = distance_squared(start, current);
    difference_error(current.x, start.x);
    difference_error(current.y, start.y);
    product_error(dx, dx);
    product_error(dy, dy);
    sum_error(px, py);
    let s = one();
    lemma_pow2_pos(1074);
    let e = d.value() - (px.value() + py.value());
    let (g, gx, gy) = (
        magnitude_gap(d.magnitude()),
        magnitude_gap(px.magnitude()),
        magnitude_gap(py.magnitude()),
    );
    lemma_weighted(s, e, g);
    assert(s * e == d.value() * s - px.value() * s - py.value() * s) by (nonlinear_arith)
        requires
            e == d.value() - (px.value() + py.value()),
    ;
    assert(s * (g + gx + gy) == s * g + gx * s + gy * s) by (nonlinear_arith);
}

/// The threshold is a squared distance of nine: the pointer drags if and only if the
/// square that is measured is a number and at least nine.
pub proof fn threshold_is_nine(start: Point, current: Point)
    ensures
        ({
            let (dx, dy) = (current.x.spec_sub(start.x), current.y.spec_sub(start.y));
            let square = dx.spec_mul(dx).spec_add(dy.spec_mul(dy));
            beyond_threshold(start, current) <==> !square.nan() && square.value() >= 9 * one()
        }),
{
    constants_are_what_they_say();
    assert(whole(9) == 9 * one()) by (nonlinear_arith);
}

/// Moving the press and the pointer together does not matter, nor does the order of the
/// two: in binary fractions only their distance does.
pub proof fn threshold_depends_on_distance_alone(
    start: Point,
    current: Point,
    other_start: Point,
    other: Point,
    x0: int,
    y0: int,
    x1: int,
    y1: int,
    u0: int,
    v0: int,
    u1: int,
    v1: int,
    k: nat,
)
    requires
        is_fraction(start.x, x0, k),
        is_fraction(start.y, y0, k),
        is_fraction(current.x, x1, k),
        is_fraction(current.y, y1, k),
        is_fraction(other_start.x, u0, k),
        is_fraction(other_start.y, v0, k),
        is_fraction(other.x, u1, k),
        is_fraction(other.y, v1, k),
        2 * k <= 1074,
        abs_int(x1 - x0) <= 0x400_0000,
        abs_int(y1 - y0) <= 0x400_0000,
        abs_int(u1 - u0) == abs_int(x1 - x0),
        abs_int(v1 - v0) == abs_int(y1 - y0),
    ensures
        beyond_threshold(start, current) == beyond_threshold(other_start, other),
{
    threshold_is_three_pixels(start, current, x0, y0, x1, y1, k);
    threshold_is_three_pixels(other_start, other, u0, v0, u1, v1, k);
    let (a, b, c, d) = (x1 - x0, y1 - y0, u1 - u0, v1 - v0);
    assert(a * a == c * c) by (nonlinear_arith)
        requires
            abs_int(a) == abs_int(c),
    ;
    assert(b * b == d * d) by (nonlinear_arith)
        requires
            abs_int(b) == abs_int(d),
    ;
}

} // verus!
