//! The dotted background stays within one tile and moves with the viewport.
use crate::arithmetic::{lemma_abs_value, one};
use crate::double::{
    abs_int, lemma_magnitude_nonnegative, lemma_magnitude_order, lemma_magnitude_step,
    magnitude_gap, signed, Double,
};
use crate::accuracy::{
    lemma_round_exact, lemma_round_monotone, lemma_round_nearest, lemma_signed, product_error,
    remainder_exact, sum_error,
};
use crate::geometry::Viewport;
use crate::laws::constants::{constants_are_what_they_say, whole};
use crate::laws::fractions::{
    fractions_multiply, is_fraction, is_moderate, whole_is_fraction,
};
use crate::laws::order::{products_commute, products_keep_order};
use crate::rounding::round_magnitude;
use crate::viewport::{spec_dots_size, DOT_SPACING_BITS};
use vstd::arithmetic::power2::lemma_pow2_pos;
use vstd::prelude::*;

verus! {

/// The background starts within its first tile. Where it starts is the offset modulo
/// the size of a tile: exactly for an offset that is not negative, and up to one
/// rounding for one that is.
pub proof fn dots_stay_in_first_tile(offset: Double, zoom: Double)
    requires
        offset.finite(),
        spec_dots_size(zoom).finite(),
        spec_dots_size(zoom).value() > 0,
    ensures
        ({
            let size = spec_dots_size(zoom);
            let r = offset.spec_rem_euclid(size);
            &&& r.finite()
            &&& 0 <= r.value() <= size.value()
            &&& 2 * abs_int(r.value() - offset.value() % size.value()) <= magnitude_gap(
                r.magnitude(),
            )
            &&& offset.value() >= 0 ==> r.value() == offset.value() % size.value()
        }),
{
    let size = spec_dots_size(zoom);
    let rem = offset.spec_rem(size);
    let r = offset.spec_rem_euclid(size);
    remainder_exact(offset, size);
    lemma_abs_value(offset);
    lemma_abs_value(size);
    lemma_magnitude_nonnegative(size.magnitude());
    lemma_magnitude_nonnegative(offset.magnitude());
    lemma_magnitude_nonnegative(rem.magnitude());
    lemma_signed(false, 0);
    lemma_magnitude_step(r.magnitude());
    let v = size.value();
    let x = offset.value();
    vstd::arithmetic::div_mod::lemma_small_mod(0, v as nat);
    if rem.value() < 0 {
        // The offset is negative and not a multiple of the tile.
        let a = size.spec_abs();
        assert(a == size);
        let sum = rem.value() + v;
        assert(0 < sum < v);
        lemma_round_monotone(sum, 1, v, 1);
        lemma_round_exact(v, 1, size.magnitude());
        lemma_round_nearest(sum, 1);
        let m = round_magnitude(sum, 1);
        lemma_signed(false, m);
        assert(r == signed(false, m));
        lemma_magnitude_nonnegative(m);
        if m < size.magnitude() {
            lemma_magnitude_order(m, size.magnitude());
        }
        sum_error(rem, size);
        lemma_negative_modulo(x, v);
    } else {
        assert(r == rem);
        if x < 0 {
            lemma_negative_modulo(x, v);
        }
    }
}

/// The modulus of a negative number, by that of its absolute value.
proof fn lemma_negative_modulo(x: int, v: int)
    requires
        x < 0,
        v > 0,
    ensures
        x % v == if (-x) % v == 0 {
            0
        } else {
            v - (-x) % v
        },
{
    let q = (-x) / v;
    let r = (-x) % v;
    vstd::arithmetic::div_mod::lemma_fundamental_div_mod(-x, v);
    if r == 0 {
        assert(x == (-q) * v + 0) by (nonlinear_arith)
            requires
                -x == v * q + r,
                r == 0,
        ;
        vstd::arithmetic::div_mod::lemma_fundamental_div_mod_converse(x, v, -q, 0);
    } else {
        assert(x == (-q - 1) * v + (v - r)) by (nonlinear_arith)
            requires
                -x == v * q + r,
        ;
        vstd::arithmetic::div_mod::lemma_fundamental_div_mod_converse(x, v, -q - 1, v - r);
    }
}

/// Offsets of the same sign that differ by whole tiles show the same background.
pub proof fn dots_repeat_by_tiles(offset: Double, moved: Double, zoom: Double)
    requires
        offset.finite(),
        moved.finite(),
        spec_dots_size(zoom).finite(),
        spec_dots_size(zoom).value() > 0,
        offset.negative() == moved.negative(),
        offset.value() % spec_dots_size(zoom).value() == moved.value() % spec_dots_size(
            zoom,
        ).value(),
    ensures
        offset.spec_rem_euclid(spec_dots_size(zoom)) == moved.spec_rem_euclid(
            spec_dots_size(zoom),
        ),
{
    let v = spec_dots_size(zoom).value();
    let x = offset.value();
    let y = moved.value();
    lemma_magnitude_nonnegative(offset.magnitude());
    lemma_magnitude_nonnegative(moved.magnitude());
    vstd::arithmetic::div_mod::lemma_small_mod(0, v as nat);
    if x < 0 {
        lemma_negative_modulo(x, v);
    }
    if y < 0 {
        lemma_negative_modulo(y, v);
    }
    assert(abs_int(x) % v == abs_int(y) % v);
}

/// Offsets that differ by whole tiles, whatever their signs, show the same background
/// up to the rounding of the two results.
pub proof fn dots_nearly_repeat_by_tiles(offset: Double, moved: Double, zoom: Double)
    requires
        offset.finite(),
        moved.finite(),
        spec_dots_size(zoom).finite(),
        spec_dots_size(zoom).value() > 0,
        offset.value() % spec_dots_size(zoom).value() == moved.value() % spec_dots_size(
            zoom,
        ).value(),
    ensures
        ({
            let r = offset.spec_rem_euclid(spec_dots_size(zoom));
            let s = moved.spec_rem_euclid(spec_dots_size(zoom));
            2 * abs_int(r.value() - s.value()) <= magnitude_gap(r.magnitude()) + magnitude_gap(
                s.magnitude(),
            )
        }),
{
    dots_stay_in_first_tile(offset, zoom);
    dots_stay_in_first_tile(moved, zoom);
}

/// Whether two backgrounds that start at `r` and at `s` are the same up to whole tiles:
/// `k` tiles apart, and half of `bound`.
pub open spec fn apart_by_tiles(r: Double, s: Double, size: Double, k: int, bound: int) -> bool {
    2 * abs_int(s.value() - r.value() - k * size.value()) <= bound
}

/// Wherever an offset is moved to, the background starts where it was, up to whole tiles:
/// it is off by no more than the move is off `i` tiles, and the rounding of the two
/// results.
pub proof fn dots_follow_moves_by_tiles(offset: Double, moved: Double, zoom: Double, i: int)
    requires
        offset.finite(),
        moved.finite(),
        spec_dots_size(zoom).finite(),
        spec_dots_size(zoom).value() > 0,
    ensures
        ({
            let size = spec_dots_size(zoom);
            let (r, s) = (offset.spec_rem_euclid(size), moved.spec_rem_euclid(size));
            let bound = 2 * abs_int(moved.value() - (offset.value() + i * size.value()))
                + magnitude_gap(r.magnitude()) + magnitude_gap(s.magnitude());
            exists|k: int| #[trigger] apart_by_tiles(r, s, size, k, bound)
        }),
{
    dots_stay_in_first_tile(offset, zoom);
    dots_stay_in_first_tile(moved, zoom);
    let size = spec_dots_size(zoom);
    let v = size.value();
    let (x, y) = (offset.value(), moved.value());
    vstd::arithmetic::div_mod::lemma_fundamental_div_mod(x, v);
    vstd::arithmetic::div_mod::lemma_fundamental_div_mod(y, v);
    let (p, q) = (x / v, y / v);
    let k = i + p - q;
    assert(k * v == i * v + v * p - v * q) by (nonlinear_arith)
        requires
            k == i + p - q,
    ;
    let (r, s) = (offset.spec_rem_euclid(size), moved.spec_rem_euclid(size));
    let bound = 2 * abs_int(y - (x + i * v)) + magnitude_gap(r.magnitude()) + magnitude_gap(
        s.magnitude(),
    );
    assert(apart_by_tiles(r, s, size, k, bound));
}

/// What the rounding of a pan by `tiles` tiles adds up to: the distance, the new offset,
/// and the positions in their tiles before and after.
pub open spec fn tiles_bound(offset: Double, tiles: Double, size: Double) -> int {
    let distance = tiles.spec_mul(size);
    let moved = offset.spec_add(distance);
    magnitude_gap(distance.magnitude()) + magnitude_gap(moved.magnitude()) + magnitude_gap(
        offset.spec_rem_euclid(size).magnitude(),
    ) + magnitude_gap(moved.spec_rem_euclid(size).magnitude())
}

/// Panning one coordinate by whole tiles.
proof fn lemma_panning_by_tiles(offset: Double, tiles: Double, zoom: Double, i: int)
    requires
        offset.finite(),
        tiles.finite(),
        tiles.value() == whole(i),
        spec_dots_size(zoom).finite(),
        spec_dots_size(zoom).value() > 0,
        tiles.spec_mul(spec_dots_size(zoom)).finite(),
        offset.spec_add(tiles.spec_mul(spec_dots_size(zoom))).finite(),
    ensures
        ({
            let size = spec_dots_size(zoom);
            let moved = offset.spec_add(tiles.spec_mul(size));
            exists|k: int| #[trigger]
                apart_by_tiles(
                    offset.spec_rem_euclid(size),
                    moved.spec_rem_euclid(size),
                    size,
                    k,
                    tiles_bound(offset, tiles, size),
                )
        }),
{
    let size = spec_dots_size(zoom);
    let distance = tiles.spec_mul(size);
    let moved = offset.spec_add(distance);
    product_error(tiles, size);
    sum_error(offset, distance);
    lemma_pow2_pos(1074);
    let (d, v, g, s) = (
        distance.value(),
        size.value(),
        magnitude_gap(distance.magnitude()),
        one(),
    );
    let t = whole(i);
    assert(d * s - t * v == s * (d - i * v)) by (nonlinear_arith)
        requires
            t == i * s,
    ;
    let e = d - i * v;
    assert(2 * abs_int(e) <= g) by (nonlinear_arith)
        requires
            2 * abs_int(s * e) <= g * s,
            s > 0,
    ;
    dots_follow_moves_by_tiles(offset, moved, zoom, i);
    let (before, after) = (offset.spec_rem_euclid(size), moved.spec_rem_euclid(size));
    let bound = 2 * abs_int(moved.value() - (offset.value() + i * v)) + magnitude_gap(
        before.magnitude(),
    ) + magnitude_gap(after.magnitude());
    let k = choose|k: int| #[trigger] apart_by_tiles(before, after, size, k, bound);
    assert(apart_by_tiles(before, after, size, k, tiles_bound(offset, tiles, size)));
}

/// Panning by `i` whole tiles to the right and `j` down leaves the dots where they were, up
/// to whole tiles and to rounding.
pub proof fn panning_by_tiles_keeps_dots(
    viewport: Viewport,
    right: Double,
    down: Double,
    i: int,
    j: int,
)
    requires
        viewport.x.finite(),
        viewport.y.finite(),
        right.finite(),
        right.value() == whole(i),
        down.finite(),
        down.value() == whole(j),
        ({
            let size = spec_dots_size(viewport.zoom);
            &&& size.finite()
            &&& size.value() > 0
            &&& right.spec_mul(size).finite()
            &&& viewport.x.spec_add(right.spec_mul(size)).finite()
            &&& down.spec_mul(size).finite()
            &&& viewport.y.spec_add(down.spec_mul(size)).finite()
        }),
    ensures
        ({
            let size = spec_dots_size(viewport.zoom);
            let x = viewport.x.spec_add(right.spec_mul(size));
            let y = viewport.y.spec_add(down.spec_mul(size));
            &&& exists|k: int| #[trigger]
                apart_by_tiles(
                    viewport.x.spec_rem_euclid(size),
                    x.spec_rem_euclid(size),
                    size,
                    k,
                    tiles_bound(viewport.x, right, size),
                )
            &&& exists|k: int| #[trigger]
                apart_by_tiles(
                    viewport.y.spec_rem_euclid(size),
                    y.spec_rem_euclid(size),
                    size,
                    k,
                    tiles_bound(viewport.y, down, size),
                )
        }),
{
    lemma_panning_by_tiles(viewport.x, right, viewport.zoom, i);
    lemma_panning_by_tiles(viewport.y, down, viewport.zoom, j);
}

/// The dots are 20 apart in the graph at every zoom: on the screen they are 20 times the
/// zoom apart, up to the rounding of one product.
pub proof fn dots_keep_their_distance(zoom: Double)
    requires
        zoom.finite(),
        (Double { bits: DOT_SPACING_BITS }).spec_mul(zoom).finite(),
    ensures
        spec_dots_size(zoom).finite(),
        2 * abs_int(spec_dots_size(zoom).value() - 20 * zoom.value()) <= magnitude_gap(
            spec_dots_size(zoom).magnitude(),
        ),
{
    let spacing = Double { bits: DOT_SPACING_BITS };
    let size = spec_dots_size(zoom);
    constants_are_what_they_say();
    product_error(spacing, zoom);
    lemma_pow2_pos(1074);
    let (d, z, g, s) = (size.value(), zoom.value(), magnitude_gap(size.magnitude()), one());
    let e = d - 20 * z;
    let t = whole(20);
    assert(d * s - t * z == s * e) by (nonlinear_arith)
        requires
            t == 20 * s,
            e == d - 20 * z,
    ;
    assert(2 * abs_int(e) <= g) by (nonlinear_arith)
        requires
            2 * abs_int(s * e) <= g * s,
            s > 0,
    ;
}

/// In binary fractions the distance is exact.
pub proof fn dots_distance_is_exact_in_fractions(zoom: Double, n: int, k: nat)
    requires
        is_fraction(zoom, n, k),
        is_moderate(20 * n),
    ensures
        is_fraction(spec_dots_size(zoom), 20 * n, k),
{
    let spacing = Double { bits: DOT_SPACING_BITS };
    constants_are_what_they_say();
    whole_is_fraction(spacing, 20);
    fractions_multiply(spacing, zoom, 20, n, 0, k);
}

/// Zooming in never brings the dots nearer to each other.
pub proof fn dots_spread_with_the_zoom(zoom: Double, larger: Double)
    requires
        zoom.spec_le(larger),
    ensures
        spec_dots_size(zoom).spec_le(spec_dots_size(larger)),
{
    let spacing = Double { bits: DOT_SPACING_BITS };
    constants_are_what_they_say();
    lemma_pow2_pos(1074);
    assert(whole(20) > 0) by (nonlinear_arith)
        requires
            whole(20) == 20 * one(),
            one() > 0,
    ;
    products_keep_order(zoom, larger, spacing);
    products_commute(spacing, zoom);
    products_commute(spacing, larger);
}

/// The dots stay where they are in the graph: a dot is shown a whole number of distances
/// away from where the graph's origin is shown, up to one rounding.
pub proof fn dots_lie_on_the_grid(offset: Double, zoom: Double)
    requires
        offset.finite(),
        spec_dots_size(zoom).finite(),
        spec_dots_size(zoom).value() > 0,
    ensures
        ({
            let size = spec_dots_size(zoom);
            let r = offset.spec_rem_euclid(size);
            exists|k: int| #[trigger]
                apart_by_tiles(offset, r, size, k, magnitude_gap(r.magnitude()))
        }),
{
    dots_stay_in_first_tile(offset, zoom);
    let size = spec_dots_size(zoom);
    let r = offset.spec_rem_euclid(size);
    let (x, v) = (offset.value(), size.value());
    vstd::arithmetic::div_mod::lemma_fundamental_div_mod(x, v);
    let q = x / v;
    let k = -q;
    assert(k * v == -(v * q)) by (nonlinear_arith)
        requires
            k == -q,
    ;
    assert(apart_by_tiles(offset, r, size, k, magnitude_gap(r.magnitude())));
}

} // verus!
