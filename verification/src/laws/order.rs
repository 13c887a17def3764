//! Arithmetic keeps the order of numbers.
use crate::arithmetic::{lemma_abs_value, one};
use crate::double::{
    abs_int, lemma_magnitude_nonnegative, lemma_magnitude_order, magnitude_value, Double,
    INFINITY_MAGNITUDE,
};
use crate::accuracy::{
    lemma_negated, lemma_round_exact, lemma_round_monotone, lemma_round_nearest, lemma_signed,
};
use crate::rounding::round_magnitude;
use vstd::arithmetic::power2::lemma_pow2_pos;
use vstd::prelude::*;

verus! {

/// The value of the number nearest to `num / den`.
pub open spec fn rounded_value(num: int, den: int) -> int {
    if num < 0 {
        -magnitude_value(round_magnitude(-num, den))
    } else {
        magnitude_value(round_magnitude(num, den))
    }
}

/// Larger magnitudes have no smaller values.
proof fn lemma_magnitudes_in_order(m: int, n: int)
    requires
        0 <= m <= n,
    ensures
        0 <= magnitude_value(m) <= magnitude_value(n),
{
    lemma_magnitude_nonnegative(m);
    if m < n {
        lemma_magnitude_order(m, n);
    }
}

proof fn lemma_rounded_in_order(num1: int, num2: int, den: int)
    requires
        den > 0,
        num1 <= num2,
    ensures
        rounded_value(num1, den) <= rounded_value(num2, den),
        abs_int(rounded_value(num1, den)) <= magnitude_value(INFINITY_MAGNITUDE as int),
{
    let i = INFINITY_MAGNITUDE as int;
    let m = round_magnitude(abs_int(num1), den);
    let n = round_magnitude(abs_int(num2), den);
    lemma_round_nearest(abs_int(num1), den);
    lemma_round_nearest(abs_int(num2), den);
    lemma_magnitudes_in_order(m, i);
    lemma_magnitudes_in_order(n, i);
    if num1 >= 0 {
        assert(num1 * den <= num2 * den) by (nonlinear_arith)
            requires
                num1 <= num2,
                den > 0,
        ;
        lemma_round_monotone(num1, den, num2, den);
        lemma_magnitudes_in_order(m, n);
    } else if num2 < 0 {
        assert((-num2) * den <= (-num1) * den) by (nonlinear_arith)
            requires
                num1 <= num2,
                den > 0,
        ;
        lemma_round_monotone(-num2, den, -num1, den);
        lemma_magnitudes_in_order(n, m);
    }
}

/// No number lies beyond the infinities, and a number as large as an infinity is it.
proof fn lemma_between_infinities(a: Double)
    requires
        !a.nan(),
    ensures
        abs_int(a.value()) <= magnitude_value(INFINITY_MAGNITUDE as int),
        abs_int(a.value()) == magnitude_value(INFINITY_MAGNITUDE as int) <==> a.infinite(),
        a.negative() ==> a.value() <= 0,
        !a.negative() ==> a.value() >= 0,
{
    lemma_abs_value(a);
    lemma_magnitude_nonnegative(a.magnitude());
    lemma_magnitudes_in_order(a.magnitude(), INFINITY_MAGNITUDE as int);
    if a.finite() {
        lemma_magnitude_order(a.magnitude(), INFINITY_MAGNITUDE as int);
    }
}

proof fn lemma_sum_value(a: Double, b: Double)
    requires
        a.finite(),
        b.finite(),
    ensures
        !a.spec_add(b).nan(),
        a.spec_add(b).value() == rounded_value(a.value() + b.value(), 1),
{
    let s = a.value() + b.value();
    lemma_round_nearest(abs_int(s), 1);
    lemma_signed(s < 0, round_magnitude(abs_int(s), 1));
    if s == 0 {
        lemma_round_exact(0, 1, 0);
        lemma_signed(a.negative() && b.negative(), 0);
    }
}

/// The sum of larger numbers is no smaller.
pub proof fn sums_keep_order(a1: Double, b1: Double, a2: Double, b2: Double)
    requires
        a1.spec_le(a2),
        b1.spec_le(b2),
        !a1.spec_add(b1).nan(),
        !a2.spec_add(b2).nan(),
    ensures
        a1.spec_add(b1).spec_le(a2.spec_add(b2)),
{
    lemma_between_infinities(a1);
    lemma_between_infinities(b1);
    lemma_between_infinities(a2);
    lemma_between_infinities(b2);
    lemma_between_infinities(a1.spec_add(b1));
    lemma_between_infinities(a2.spec_add(b2));
    if a1.finite() && b1.finite() && a2.finite() && b2.finite() {
        lemma_sum_value(a1, b1);
        lemma_sum_value(a2, b2);
        lemma_rounded_in_order(a1.value() + b1.value(), a2.value() + b2.value(), 1);
    }
}

/// The difference of a larger number and a smaller one is no smaller.
pub proof fn differences_keep_order(a1: Double, b1: Double, a2: Double, b2: Double)
    requires
        a1.spec_le(a2),
        b2.spec_le(b1),
        !a1.spec_sub(b1).nan(),
        !a2.spec_sub(b2).nan(),
    ensures
        a1.spec_sub(b1).spec_le(a2.spec_sub(b2)),
{
    lemma_negated(b1);
    lemma_negated(b2);
    sums_keep_order(a1, b1.spec_neg(), a2, b2.spec_neg());
}

/// A product with a positive number keeps the order.
pub proof fn products_keep_order(a1: Double, a2: Double, b: Double)
    requires
        a1.spec_le(a2),
        b.finite(),
        b.value() > 0,
    ensures
        a1.spec_mul(b).spec_le(a2.spec_mul(b)),
{
    lemma_between_infinities(a1);
    lemma_between_infinities(a2);
    lemma_between_infinities(b);
    lemma_product_value(a1, b);
    lemma_product_value(a2, b);
    if a1.finite() && a2.finite() {
        let (v, w, c) = (a1.value(), a2.value(), b.value());
        assert(v * c <= w * c) by (nonlinear_arith)
            requires
                v <= w,
                c > 0,
        ;
        lemma_pow2_pos(1074);
        lemma_rounded_in_order(v * c, w * c, one());
    } else {
        lemma_between_infinities(a1.spec_mul(b));
        lemma_between_infinities(a2.spec_mul(b));
    }
}

proof fn lemma_product_value(a: Double, b: Double)
    requires
        !a.nan(),
        b.finite(),
        b.value() > 0,
    ensures
        !a.spec_mul(b).nan(),
        a.finite() ==> a.spec_mul(b).value() == rounded_value(a.value() * b.value(), one()),
        a.infinite() ==> a.spec_mul(b).value() == a.value(),
{
    lemma_between_infinities(a);
    lemma_between_infinities(b);
    lemma_pow2_pos(1074);
    lemma_magnitude_nonnegative(0);
    lemma_signed(a.negative(), INFINITY_MAGNITUDE as int);
    if a.finite() {
        let (v, c) = (a.value(), b.value());
        let num = abs_int(v) * abs_int(c);
        assert(num == abs_int(v * c) && (v < 0 <==> v * c < 0) && (v == 0 <==> v * c == 0))
            by (nonlinear_arith)
            requires
                num == abs_int(v) * abs_int(c),
                c > 0,
        ;
        lemma_round_nearest(num, one());
        lemma_signed(a.negative(), round_magnitude(num, one()));
        if v * c == 0 {
            assert(magnitude_value(0) * one() == 0) by (nonlinear_arith)
                requires
                    magnitude_value(0) == 0,
            ;
            lemma_round_exact(0, one(), 0);
        }
    } else {
        lemma_abs_value(a);
        assert(a.value() != 0) by {
            lemma_magnitude_nonnegative(a.magnitude());
        }
    }
}

/// The quotient of a larger number by a positive one is no smaller.
pub proof fn quotients_keep_order(a1: Double, a2: Double, b: Double)
    requires
        a1.spec_le(a2),
        !b.nan(),
        b.value() > 0,
        !a1.spec_div(b).nan(),
        !a2.spec_div(b).nan(),
    ensures
        a1.spec_div(b).spec_le(a2.spec_div(b)),
{
    lemma_between_infinities(a1);
    lemma_between_infinities(a2);
    lemma_between_infinities(b);
    lemma_between_infinities(a1.spec_div(b));
    lemma_between_infinities(a2.spec_div(b));
    lemma_quotient_value(a1, b);
    lemma_quotient_value(a2, b);
    if a1.finite() && a2.finite() && b.finite() {
        let (v, w, s) = (a1.value(), a2.value(), one());
        lemma_pow2_pos(1074);
        assert(v * s <= w * s) by (nonlinear_arith)
            requires
                v <= w,
                s > 0,
        ;
        lemma_rounded_in_order(v * s, w * s, b.value());
    }
}

/// What a quotient by a positive number is.
pub proof fn lemma_quotient_value(a: Double, b: Double)
    requires
        !a.nan(),
        !b.nan(),
        b.value() > 0,
    ensures
        a.spec_div(b).nan() <==> a.infinite() && b.infinite(),
        a.finite() && b.finite() ==> a.spec_div(b).value() == rounded_value(
            a.value() * one(),
            b.value(),
        ),
        a.finite() && b.infinite() ==> a.spec_div(b).value() == 0,
        a.infinite() && b.finite() ==> a.spec_div(b).value() == a.value(),
        a.spec_div(b).negative() == a.negative() || a.spec_div(b).nan(),
{
    lemma_between_infinities(a);
    lemma_between_infinities(b);
    lemma_magnitude_nonnegative(0);
    lemma_signed(a.negative(), INFINITY_MAGNITUDE as int);
    lemma_signed(a.negative(), 0);
    lemma_abs_value(a);
    if a.finite() && b.finite() {
        let (v, c, s) = (a.value(), b.value(), one());
        lemma_pow2_pos(1074);
        let num = abs_int(v) * s;
        assert(num == abs_int(v * s) && (v < 0 <==> v * s < 0) && (v == 0 <==> v * s == 0))
            by (nonlinear_arith)
            requires
                num == abs_int(v) * s,
                s > 0,
        ;
        lemma_round_nearest(num, c);
        lemma_signed(a.negative(), round_magnitude(num, c));
        if v * s == 0 {
            assert(magnitude_value(0) * c == 0) by (nonlinear_arith)
                requires
                    magnitude_value(0) == 0,
            ;
            lemma_round_exact(0, c, 0);
        }
    }
}

/// The order of two factors does not matter.
pub proof fn products_commute(a: Double, b: Double)
    ensures
        a.spec_mul(b) == b.spec_mul(a),
{
    let (x, y) = (abs_int(a.value()), abs_int(b.value()));
    assert(x * y == y * x) by (nonlinear_arith);
}

/// The order of two summands does not matter.
pub proof fn sums_commute(a: Double, b: Double)
    ensures
        a.spec_add(b) == b.spec_add(a),
{
}

} // verus!
