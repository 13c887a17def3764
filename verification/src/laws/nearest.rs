//! No number is nearer to the exact result than the one that arithmetic returns.
use crate::accuracy::{
    lemma_negated, lemma_round_exact, lemma_round_nearest, lemma_signed, remainder_exact,
};
use crate::arithmetic::{lemma_abs_value, one};
use crate::double::{
    abs_int, lemma_magnitude_nonnegative, lemma_magnitude_order, magnitude_value, Double,
    INFINITY_MAGNITUDE,
};
use crate::rounding::{lemma_midpoint_order, round_magnitude, twice_midpoint};
use vstd::arithmetic::div_mod::lemma_fundamental_div_mod;
use vstd::arithmetic::power2::lemma_pow2_pos;
use vstd::prelude::*;

verus! {

/// Whether no number is nearer to `num / den` than `r`, whose distance is multiplied with
/// `den`; of two that are equally near it is the one with the even pattern.
pub open spec fn is_nearest_number(r: Double, num: int, den: int) -> bool {
    forall|c: Double| #[trigger]
        c.finite() ==> {
            let (near, other) = (abs_int(r.value() * den - num), abs_int(c.value() * den - num));
            near <= other && (near == other && c.value() != r.value() ==> r.bits % 2 == 0)
        }
}

/// The nearest magnitude is at most as far away as any other.
proof fn lemma_nearest_magnitude(num: int, den: int, n: int)
    requires
        num >= 0,
        den > 0,
        0 <= n < INFINITY_MAGNITUDE,
        round_magnitude(num, den) < INFINITY_MAGNITUDE,
    ensures
        ({
            let m = round_magnitude(num, den);
            let (near, other) = (
                abs_int(magnitude_value(m) * den - num),
                abs_int(magnitude_value(n) * den - num),
            );
            near <= other && (near == other && n != m ==> m % 2 == 0)
        }),
{
    let m = round_magnitude(num, den);
    lemma_round_nearest(num, den);
    let (v, w) = (magnitude_value(m), magnitude_value(n));
    if n > m {
        if n > m + 1 {
            lemma_magnitude_order(m + 1, n);
        }
        lemma_magnitude_order(m, n);
        let u = magnitude_value(m + 1);
        assert(twice_midpoint(m) * den == v * den + u * den) by (nonlinear_arith)
            requires
                twice_midpoint(m) == v + u,
        ;
        assert(u * den <= w * den && v * den < w * den) by (nonlinear_arith)
            requires
                u <= w,
                v < w,
                den > 0,
        ;
        if w * den == u * den {
            assert(2 * num <= v * den + u * den);
        }
    } else if n < m {
        if n < m - 1 {
            lemma_magnitude_order(n, m - 1);
        }
        lemma_magnitude_order(n, m);
        let u = magnitude_value(m - 1);
        assert(twice_midpoint(m - 1) * den == v * den + u * den) by (nonlinear_arith)
            requires
                twice_midpoint(m - 1) == v + u,
        ;
        assert(w * den <= u * den && w * den < v * den) by (nonlinear_arith)
            requires
                w <= u,
                w < v,
                den > 0,
        ;
    }
}

/// A signed result whose magnitude is nearest is nearest.
proof fn lemma_nearest_signed(r: Double, negative: bool, num: int, den: int)
    requires
        num >= 0,
        den > 0,
        r.finite(),
        r.negative() == negative,
        r.magnitude() == round_magnitude(num, den),
    ensures
        is_nearest_number(
            r,
            if negative {
                -num
            } else {
                num
            },
            den,
        ),
{
    let signed_num = if negative {
        -num
    } else {
        num
    };
    let m = r.magnitude();
    lemma_magnitude_nonnegative(m);
    let v = magnitude_value(m);
    assert((-v) * den == -(v * den)) by (nonlinear_arith);
    assert forall|c: Double| #[trigger] c.finite() implies {
        let (near, other) = (
            abs_int(r.value() * den - signed_num),
            abs_int(c.value() * den - signed_num),
        );
        near <= other && (near == other && c.value() != r.value() ==> r.bits % 2 == 0)
    } by {
        let n = c.magnitude();
        lemma_magnitude_nonnegative(n);
        let w = magnitude_value(n);
        assert((-w) * den == -(w * den)) by (nonlinear_arith);
        assert(w * den >= 0) by (nonlinear_arith)
            requires
                w >= 0,
                den > 0,
        ;
        lemma_nearest_magnitude(num, den, n);
        lemma_nearest_magnitude(num, den, 0);
        let z = magnitude_value(0);
        assert(z * den == 0) by (nonlinear_arith)
            requires
                z == 0,
        ;
        if c.negative() != negative && w != 0 {
            assert(w * den > 0) by (nonlinear_arith)
                requires
                    w > 0,
                    den > 0,
            ;
        }
    }
}

/// Of all numbers the sum that is returned is nearest to the exact one.
pub proof fn sums_are_nearest(a: Double, b: Double)
    requires
        a.finite(),
        b.finite(),
        a.spec_add(b).finite(),
    ensures
        is_nearest_number(a.spec_add(b), a.value() + b.value(), 1),
{
    let s = a.value() + b.value();
    let r = a.spec_add(b);
    if s == 0 {
        let negative = a.negative() && b.negative();
        lemma_signed(negative, 0);
        lemma_round_exact(0, 1, 0);
        lemma_nearest_signed(r, negative, 0, 1);
    } else {
        lemma_round_nearest(abs_int(s), 1);
        lemma_signed(s < 0, round_magnitude(abs_int(s), 1));
        lemma_nearest_signed(r, s < 0, abs_int(s), 1);
    }
}

/// Of all numbers the difference that is returned is nearest to the exact one.
pub proof fn differences_are_nearest(a: Double, b: Double)
    requires
        a.finite(),
        b.finite(),
        a.spec_sub(b).finite(),
    ensures
        is_nearest_number(a.spec_sub(b), a.value() - b.value(), 1),
{
    lemma_negated(b);
    sums_are_nearest(a, b.spec_neg());
}

/// Of all numbers the product that is returned is nearest to the exact one.
pub proof fn products_are_nearest(a: Double, b: Double)
    requires
        a.finite(),
        b.finite(),
        a.spec_mul(b).finite(),
    ensures
        is_nearest_number(a.spec_mul(b), a.value() * b.value(), one()),
{
    let (va, vb) = (a.value(), b.value());
    let num = abs_int(va) * abs_int(vb);
    lemma_pow2_pos(1074);
    lemma_magnitude_nonnegative(a.magnitude());
    lemma_magnitude_nonnegative(b.magnitude());
    let negative = a.negative() != b.negative();
    assert(num >= 0 && va * vb == if negative {
        -num
    } else {
        num
    }) by (nonlinear_arith)
        requires
            num == abs_int(va) * abs_int(vb),
            a.negative() ==> va <= 0,
            !a.negative() ==> va >= 0,
            b.negative() ==> vb <= 0,
            !b.negative() ==> vb >= 0,
            negative == (a.negative() != b.negative()),
    ;
    lemma_round_nearest(num, one());
    lemma_signed(negative, round_magnitude(num, one()));
    lemma_nearest_signed(a.spec_mul(b), negative, num, one());
}

/// Of all numbers the quotient that is returned is nearest to the exact one. (The
/// distances are multiplied with the size of the divisor.)
pub proof fn quotients_are_nearest(a: Double, b: Double)
    requires
        a.finite(),
        b.finite(),
        b.value() != 0,
        a.spec_div(b).finite(),
    ensures
        is_nearest_number(
            a.spec_div(b),
            if b.value() < 0 {
                -(a.value() * one())
            } else {
                a.value() * one()
            },
            abs_int(b.value()),
        ),
{
    let (va, vb, s) = (a.value(), b.value(), one());
    let (num, den) = (abs_int(va) * s, abs_int(vb));
    lemma_pow2_pos(1074);
    lemma_magnitude_nonnegative(a.magnitude());
    lemma_magnitude_nonnegative(b.magnitude());
    let negative = a.negative() != b.negative();
    assert(num >= 0 && (if vb < 0 {
        -(va * s)
    } else {
        va * s
    }) == if negative {
        -num
    } else {
        num
    }) by (nonlinear_arith)
        requires
            num == abs_int(va) * s,
            s > 0,
            vb != 0,
            a.negative() ==> va <= 0,
            !a.negative() ==> va >= 0,
            b.negative() ==> vb <= 0,
            !b.negative() ==> vb >= 0,
            negative == (a.negative() != b.negative()),
    ;
    lemma_round_nearest(num, den);
    lemma_signed(negative, round_magnitude(num, den));
    lemma_nearest_signed(a.spec_div(b), negative, num, den);
}

/// What arithmetic does with what is no finite number: a NaN stays one; infinities of
/// opposite signs have no sum, an infinity and zero no product, two infinities or two zeros
/// no quotient; else infinities win, and dividing by one leaves nothing.
pub proof fn what_is_not_finite(a: Double, b: Double)
    ensures
        a.nan() || b.nan() ==> a.spec_add(b).nan() && a.spec_mul(b).nan() && a.spec_div(b).nan(),
        a.infinite() && b.infinite() ==> (a.spec_add(b).nan() <==> a.negative() != b.negative()),
        a.infinite() && !b.nan() && !a.spec_add(b).nan() ==> a.spec_add(b) == a,
        b.infinite() && !a.nan() && !a.spec_add(b).nan() ==> a.spec_add(b) == b,
        a.infinite() && b.magnitude() == 0 ==> a.spec_mul(b).nan() && b.spec_mul(a).nan(),
        a.infinite() && !b.nan() && b.magnitude() != 0 ==> {
            &&& a.spec_mul(b).infinite()
            &&& a.spec_mul(b).negative() == (a.negative() != b.negative())
        },
        a.infinite() && b.infinite() ==> a.spec_div(b).nan(),
        a.magnitude() == 0 && b.magnitude() == 0 ==> a.spec_div(b).nan(),
        a.infinite() && b.finite() ==> {
            &&& a.spec_div(b).infinite()
            &&& a.spec_div(b).negative() == (a.negative() != b.negative())
        },
        a.finite() && b.infinite() ==> {
            &&& a.spec_div(b).magnitude() == 0
            &&& a.spec_div(b).negative() == (a.negative() != b.negative())
        },
        a.finite() && a.magnitude() != 0 && b.magnitude() == 0 ==> {
            &&& a.spec_div(b).infinite()
            &&& a.spec_div(b).negative() == (a.negative() != b.negative())
        },
        a.finite() && b.finite() ==> !a.spec_add(b).nan() && !a.spec_mul(b).nan(),
{
    lemma_abs_value(a);
    lemma_abs_value(b);
    lemma_signed(a.negative() != b.negative(), 0);
    lemma_signed(a.negative() != b.negative(), INFINITY_MAGNITUDE as int);
    lemma_signed(a.negative() && b.negative(), 0);
    if a.finite() && b.finite() {
        lemma_pow2_pos(1074);
        let s = a.value() + b.value();
        lemma_round_nearest(abs_int(s), 1);
        lemma_signed(s < 0, round_magnitude(abs_int(s), 1));
        let num = abs_int(a.value()) * abs_int(b.value());
        lemma_round_nearest(num, one());
        lemma_signed(a.negative() != b.negative(), round_magnitude(num, one()));
    }
}

/// Which results are negative, zeros among them: a sum or a difference has the sign of the
/// exact one, and where that is zero it is negative only if both sides are; a product or a
/// quotient is negative if exactly one operand is.
pub proof fn signs_of_results(a: Double, b: Double)
    requires
        a.finite(),
        b.finite(),
    ensures
        a.spec_add(b).negative() == if a.value() + b.value() == 0 {
            a.negative() && b.negative()
        } else {
            a.value() + b.value() < 0
        },
        a.spec_sub(b).negative() == if a.value() - b.value() == 0 {
            a.negative() && !b.negative()
        } else {
            a.value() - b.value() < 0
        },
        a.spec_mul(b).negative() == (a.negative() != b.negative()),
        b.value() != 0 ==> a.spec_div(b).negative() == (a.negative() != b.negative()),
{
    lemma_pow2_pos(1074);
    lemma_abs_value(b);
    lemma_negated(b);
    let negative = a.negative() != b.negative();
    let (s, d) = (a.value() + b.value(), a.value() - b.value());
    let num = abs_int(a.value()) * abs_int(b.value());
    lemma_round_nearest(abs_int(s), 1);
    lemma_round_nearest(abs_int(d), 1);
    lemma_round_nearest(num, one());
    lemma_signed(a.negative() && b.negative(), 0);
    lemma_signed(a.negative() && !b.negative(), 0);
    lemma_signed(s < 0, round_magnitude(abs_int(s), 1));
    lemma_signed(d < 0, round_magnitude(abs_int(d), 1));
    lemma_signed(negative, round_magnitude(num, one()));
    if b.value() != 0 {
        let (n, den) = (abs_int(a.value()) * one(), abs_int(b.value()));
        lemma_round_nearest(n, den);
        lemma_signed(negative, round_magnitude(n, den));
    }
}

/// What is rounded leaves the finite numbers from the midpoint on between the greatest of
/// them and the power of two behind it.
proof fn lemma_overflow(num: int, den: int)
    requires
        den > 0,
    ensures
        round_magnitude(num, den) == INFINITY_MAGNITUDE <==> twice_midpoint(
            INFINITY_MAGNITUDE - 1,
        ) * den <= 2 * num,
{
    let m = round_magnitude(num, den);
    let top = INFINITY_MAGNITUDE - 1;
    lemma_round_nearest(num, den);
    if m < top {
        lemma_midpoint_order(m, top);
        let (x, y) = (twice_midpoint(m), twice_midpoint(top));
        assert(x * den < y * den) by (nonlinear_arith)
            requires
                x < y,
                den > 0,
        ;
    }
}

/// Only what is too large becomes infinite: exact results from halfway on between the
/// greatest finite number and the power of two behind it.
pub proof fn what_overflows(a: Double, b: Double)
    requires
        a.finite(),
        b.finite(),
    ensures
        ({
            let limit = twice_midpoint(INFINITY_MAGNITUDE - 1);
            &&& a.spec_add(b).infinite() <==> limit <= 2 * abs_int(a.value() + b.value())
            &&& a.spec_sub(b).infinite() <==> limit <= 2 * abs_int(a.value() - b.value())
            &&& a.spec_mul(b).infinite() <==> limit * one() <= 2 * (abs_int(a.value()) * abs_int(
                b.value(),
            ))
            &&& b.value() != 0 ==> (a.spec_div(b).infinite() <==> limit * abs_int(b.value()) <= 2
                * (abs_int(a.value()) * one()))
        }),
{
    lemma_pow2_pos(1074);
    lemma_negated(b);
    lemma_abs_value(b);
    let top = INFINITY_MAGNITUDE - 1;
    lemma_magnitude_nonnegative(top);
    lemma_magnitude_order(top, INFINITY_MAGNITUDE as int);
    let negative = a.negative() != b.negative();
    let (s, d) = (a.value() + b.value(), a.value() - b.value());
    let num = abs_int(a.value()) * abs_int(b.value());
    lemma_overflow(abs_int(s), 1);
    lemma_overflow(abs_int(d), 1);
    lemma_overflow(num, one());
    lemma_round_nearest(abs_int(s), 1);
    lemma_round_nearest(abs_int(d), 1);
    lemma_round_nearest(num, one());
    lemma_signed(a.negative() && b.negative(), 0);
    lemma_signed(a.negative() && !b.negative(), 0);
    lemma_signed(s < 0, round_magnitude(abs_int(s), 1));
    lemma_signed(d < 0, round_magnitude(abs_int(d), 1));
    lemma_signed(negative, round_magnitude(num, one()));
    if b.value() != 0 {
        let (n, den) = (abs_int(a.value()) * one(), abs_int(b.value()));
        lemma_overflow(n, den);
        lemma_round_nearest(n, den);
        lemma_signed(negative, round_magnitude(n, den));
    }
}

/// Whether `r` is what a whole number of times `b` leaves of `a`.
pub open spec fn is_left(a: int, b: int, r: int) -> bool {
    exists|q: int| a == #[trigger] (q * b) + r
}

proof fn lemma_is_left(a: int, b: int, r: int)
    requires
        b != 0,
        abs_int(r) == abs_int(a) % abs_int(b),
        r > 0 ==> a >= 0,
        r < 0 ==> a <= 0,
    ensures
        is_left(a, b, r),
        is_left(a, b, r + abs_int(b)),
{
    let (n, d) = (abs_int(a), abs_int(b));
    lemma_fundamental_div_mod(n, d);
    let k = n / d;
    let q = if (a < 0) == (b < 0) {
        k
    } else {
        -k
    };
    assert(a == q * b + r) by (nonlinear_arith)
        requires
            n == d * k + n % d,
            n == abs_int(a),
            d == abs_int(b),
            abs_int(r) == n % d,
            r > 0 ==> a >= 0,
            r < 0 ==> a <= 0,
            q == if (a < 0) == (b < 0) {
                k
            } else {
                -k
            },
    ;
    let p = if b < 0 {
        q + 1
    } else {
        q - 1
    };
    assert(a == p * b + (r + d)) by (nonlinear_arith)
        requires
            a == q * b + r,
            d == abs_int(b),
            p == if b < 0 {
                q + 1
            } else {
                q - 1
            },
    ;
}

/// The remainder is what the division leaves, exactly: less than the divisor, and with the
/// sign of the dividend. An infinite dividend or a divisor of zero has none, and an infinite
/// divisor leaves all.
pub proof fn remainders_are_left(a: Double, b: Double)
    ensures
        a.finite() && b.finite() && b.value() != 0 ==> {
            let r = a.spec_rem(b);
            &&& r.finite()
            &&& is_left(a.value(), b.value(), r.value())
            &&& abs_int(r.value()) < abs_int(b.value())
            &&& r.negative() == a.negative()
        },
        a.spec_rem(b).nan() <==> !a.finite() || b.nan() || b.value() == 0,
        a.finite() && b.infinite() ==> a.spec_rem(b) == a,
{
    lemma_abs_value(a);
    lemma_abs_value(b);
    if a.finite() && b.finite() && b.value() != 0 {
        remainder_exact(a, b);
        lemma_abs_value(a.spec_rem(b));
        lemma_is_left(a.value(), b.value(), a.spec_rem(b).value());
    }
}

/// The least nonnegative remainder is the number nearest to what the division leaves if it
/// leaves nothing negative. A zero keeps the sign of the dividend.
pub proof fn least_remainders_are_left(a: Double, b: Double)
    requires
        a.finite(),
        b.finite(),
        b.value() != 0,
    ensures
        ({
            let r = a.spec_rem_euclid(b);
            &&& r.finite()
            &&& r.value() >= 0
            &&& exists|left: int|
                {
                    &&& 0 <= left < abs_int(b.value())
                    &&& #[trigger] is_left(a.value(), b.value(), left)
                    &&& is_nearest_number(r, left, 1)
                    &&& left == 0 ==> r.magnitude() == 0 && r.negative() == a.negative()
                }
        }),
{
    let rem = a.spec_rem(b);
    remainder_exact(a, b);
    lemma_abs_value(a);
    lemma_abs_value(rem);
    lemma_abs_value(b);
    lemma_signed(false, 0);
    lemma_is_left(a.value(), b.value(), rem.value());
    let size = b.spec_abs();
    if rem.value() < 0 {
        let left = rem.value() + size.value();
        assert(size.value() == abs_int(b.value()));
        assert(is_left(a.value(), b.value(), left));
        what_overflows(rem, size);
        signs_of_results(rem, size);
        let (m, top) = (size.magnitude(), INFINITY_MAGNITUDE - 1);
        if m < top {
            lemma_magnitude_order(m, top);
        }
        lemma_magnitude_order(top, INFINITY_MAGNITUDE as int);
        what_is_not_finite(rem, size);
        sums_are_nearest(rem, size);
        lemma_abs_value(rem.spec_add(size));
    } else {
        let left = rem.value();
        assert(is_left(a.value(), b.value(), left));
        assert(is_nearest_number(rem, left, 1)) by {
            assert(rem.value() * 1 - left == 0);
        }
    }
}

} // verus!
