//! How far the arithmetic is from exact arithmetic.
use crate::arithmetic::{lemma_abs_value, lemma_remainder_scaled, one};
use crate::double::{
    abs_int, lemma_magnitude_nonnegative, lemma_magnitude_step, magnitude_gap,
    magnitude_value, signed, Double, HIDDEN_BIT, INFINITY_MAGNITUDE,
};
use crate::rounding::{
    lemma_grid_value, lemma_midpoint_order, lemma_round_is, nearest, round_magnitude,
    twice_midpoint,
};
use vstd::arithmetic::power2::{
    lemma2_to64, lemma_pow2_adds, lemma_pow2_pos, lemma_pow2_unfold, pow2,
};
use vstd::prelude::*;

verus! {

proof fn lemma_nearest_search(num: int, den: int, m: int) -> (r: int)
    requires
        den > 0,
        0 <= m <= INFINITY_MAGNITUDE,
        m > 0 ==> twice_midpoint(m - 1) * den < 2 * num,
    ensures
        nearest(num, den, r),
    decreases INFINITY_MAGNITUDE - m,
{
    let w = twice_midpoint(m) * den;
    if m == INFINITY_MAGNITUDE {
        m
    } else if w < 2 * num {
        lemma_nearest_search(num, den, m + 1)
    } else if w == 2 * num && m % 2 == 1 {
        lemma_midpoint_order(m, m + 1);
        assert(w < twice_midpoint(m + 1) * den) by (nonlinear_arith)
            requires
                w == twice_midpoint(m) * den,
                twice_midpoint(m) < twice_midpoint(m + 1),
                den > 0,
        ;
        m + 1
    } else {
        m
    }
}

/// Every quotient of a number that is not negative has a nearest magnitude.
pub proof fn lemma_round_nearest(num: int, den: int)
    requires
        den > 0,
    ensures
        nearest(num, den, round_magnitude(num, den)),
        0 <= round_magnitude(num, den) <= INFINITY_MAGNITUDE,
{
    let r = lemma_nearest_search(num, den, 0);
    lemma_round_is(num, den, r);
}

/// What a magnitude stands for exactly is rounded to it.
pub proof fn lemma_round_exact(num: int, den: int, m: int)
    requires
        den > 0,
        0 <= m < INFINITY_MAGNITUDE,
        num == magnitude_value(m) * den,
    ensures
        round_magnitude(num, den) == m,
{
    let v = magnitude_value(m);
    lemma_magnitude_step(m);
    assert(twice_midpoint(m) * den > 2 * num) by (nonlinear_arith)
        requires
            twice_midpoint(m) > 2 * v,
            num == v * den,
            den > 0,
    ;
    if m > 0 {
        lemma_magnitude_step(m - 1);
        assert(twice_midpoint(m - 1) * den < 2 * num) by (nonlinear_arith)
            requires
                twice_midpoint(m - 1) < 2 * v,
                num == v * den,
                den > 0,
        ;
    }
    lemma_round_is(num, den, m);
}

/// A smaller quotient is not rounded to a larger magnitude.
pub proof fn lemma_round_monotone(num1: int, den1: int, num2: int, den2: int)
    requires
        den1 > 0,
        den2 > 0,
        num1 * den2 <= num2 * den1,
    ensures
        round_magnitude(num1, den1) <= round_magnitude(num2, den2),
{
    lemma_round_nearest(num1, den1);
    lemma_round_nearest(num2, den2);
    let m = round_magnitude(num1, den1);
    let n = round_magnitude(num2, den2);
    if n < m {
        let low = twice_midpoint(n);
        let high = twice_midpoint(m - 1);
        if n < m - 1 {
            lemma_midpoint_order(n, m - 1);
        }
        // high * den1 <= 2 * num1 and 2 * num2 <= low * den2
        assert(high * den1 * den2 <= 2 * num1 * den2) by (nonlinear_arith)
            requires
                high * den1 <= 2 * num1,
                den2 > 0,
        ;
        assert(2 * num2 * den1 <= low * den2 * den1) by (nonlinear_arith)
            requires
                2 * num2 <= low * den2,
                den1 > 0,
        ;
        assert(low * den2 * den1 <= high * den1 * den2) by (nonlinear_arith)
            requires
                low <= high,
                den1 > 0,
                den2 > 0,
        ;
        assert(2 * num1 * den2 <= 2 * num2 * den1) by (nonlinear_arith)
            requires
                num1 * den2 <= num2 * den1,
        ;
        // All of these are equal, so both lie on the midpoint of neighbours.
        assert(low * (den2 * den1) == high * (den2 * den1)) by (nonlinear_arith)
            requires
                low * den2 * den1 == high * den1 * den2,
        ;
        assert(den2 * den1 > 0) by (nonlinear_arith)
            requires
                den1 > 0,
                den2 > 0,
        ;
        assert(low == high) by (nonlinear_arith)
            requires
                low * (den2 * den1) == high * (den2 * den1),
                den2 * den1 > 0,
        ;
        assert(n == m - 1);
        assert(high * den1 == 2 * num1) by (nonlinear_arith)
            requires
                high * den1 * den2 == 2 * num1 * den2,
                den2 > 0,
        ;
        assert(low * den2 == 2 * num2) by (nonlinear_arith)
            requires
                low * den2 * den1 == 2 * num2 * den1,
                den1 > 0,
        ;
    }
}

/// Gaps do not shrink as magnitudes grow.
proof fn lemma_gap_grows(m: int)
    requires
        0 < m,
    ensures
        magnitude_gap(m - 1) <= magnitude_gap(m),
        magnitude_gap(m - 1) >= 1,
{
    let h = HIDDEN_BIT as int;
    lemma_magnitude_step(m - 1);
    lemma_magnitude_step(m);
    let e = m / h;
    let f = (m - 1) / h;
    assert(f == e || f == e - 1);
    if f < e && e > 1 {
        lemma_pow2_unfold((e - 1) as nat);
    }
}

/// A finite result is off by at most half the gap above it.
pub proof fn lemma_round_error(num: int, den: int)
    requires
        num >= 0,
        den > 0,
        round_magnitude(num, den) < INFINITY_MAGNITUDE,
    ensures
        ({
            let m = round_magnitude(num, den);
            let off = 2 * (magnitude_value(m) * den - num);
            -(magnitude_gap(m) * den) <= off <= magnitude_gap(m) * den
        }),
{
    let m = round_magnitude(num, den);
    lemma_round_nearest(num, den);
    let v = magnitude_value(m);
    let g = magnitude_gap(m);
    lemma_magnitude_step(m);
    assert(twice_midpoint(m) * den == 2 * (v * den) + g * den) by (nonlinear_arith)
        requires
            twice_midpoint(m) == 2 * v + g,
    ;
    if m > 0 {
        lemma_gap_grows(m);
        lemma_magnitude_step(m - 1);
        let b = magnitude_gap(m - 1);
        assert(twice_midpoint(m - 1) * den == 2 * (v * den) - b * den) by (nonlinear_arith)
            requires
                twice_midpoint(m - 1) == 2 * v - b,
        ;
        assert(b * den <= g * den) by (nonlinear_arith)
            requires
                b <= g,
                den > 0,
        ;
    } else {
        assert(v * den == 0) by (nonlinear_arith)
            requires
                v == 0,
        ;
        assert(g * den > 0) by (nonlinear_arith)
            requires
                g >= 1,
                den > 0,
        ;
    }
}

/// What a signed magnitude is.
pub proof fn lemma_signed(negative: bool, m: int)
    requires
        0 <= m <= INFINITY_MAGNITUDE,
    ensures
        signed(negative, m).negative() == negative,
        signed(negative, m).magnitude() == m,
        signed(negative, m).value() == if negative {
            -magnitude_value(m)
        } else {
            magnitude_value(m)
        },
        !signed(negative, m).nan(),
{
}

/// A sum or difference that stays finite is off by at most half the gap above the
/// result.
pub proof fn sum_error(a: Double, b: Double)
    requires
        a.finite(),
        b.finite(),
        a.spec_add(b).finite(),
    ensures
        2 * abs_int(a.spec_add(b).value() - (a.value() + b.value())) <= magnitude_gap(
            a.spec_add(b).magnitude(),
        ),
{
    let s = a.value() + b.value();
    let r = a.spec_add(b);
    if s == 0 {
        lemma_signed(a.negative() && b.negative(), 0);
    } else {
        lemma_round_nearest(abs_int(s), 1);
        lemma_signed(s < 0, round_magnitude(abs_int(s), 1));
        lemma_round_error(abs_int(s), 1);
    }
}

/// A product that stays finite is off by at most half the gap above it.
pub proof fn product_error(a: Double, b: Double)
    requires
        a.finite(),
        b.finite(),
        a.spec_mul(b).finite(),
    ensures
        2 * abs_int(a.spec_mul(b).value() * one() - a.value() * b.value()) <= magnitude_gap(
            a.spec_mul(b).magnitude(),
        ) * one(),
{
    let num = abs_int(a.value()) * abs_int(b.value());
    lemma_pow2_pos(1074);
    assert(num >= 0) by (nonlinear_arith)
        requires
            num == abs_int(a.value()) * abs_int(b.value()),
    ;
    let m = round_magnitude(num, one());
    let v = magnitude_value(m);
    lemma_round_nearest(num, one());
    let negative = a.negative() != b.negative();
    lemma_signed(negative, m);
    lemma_round_error(num, one());
    lemma_magnitude_nonnegative(a.magnitude());
    lemma_magnitude_nonnegative(b.magnitude());
    let va = a.value();
    let vb = b.value();
    assert(va * vb == if negative {
        -num
    } else {
        num
    }) by (nonlinear_arith)
        requires
            num == abs_int(va) * abs_int(vb),
            a.negative() ==> va <= 0,
            !a.negative() ==> va >= 0,
            b.negative() ==> vb <= 0,
            !b.negative() ==> vb >= 0,
            negative == (a.negative() != b.negative()),
    ;
    assert((-v) * one() == -(v * one())) by (nonlinear_arith);
}

/// A quotient that stays finite is off by at most half the gap above it.
pub proof fn quotient_error(a: Double, b: Double)
    requires
        a.finite(),
        b.finite(),
        b.value() != 0,
        a.spec_div(b).finite(),
    ensures
        2 * abs_int(a.spec_div(b).value() * b.value() - a.value() * one()) <= magnitude_gap(
            a.spec_div(b).magnitude(),
        ) * abs_int(b.value()),
{
    let num = abs_int(a.value()) * one();
    let den = abs_int(b.value());
    lemma_pow2_pos(1074);
    assert(num >= 0) by (nonlinear_arith)
        requires
            num == abs_int(a.value()) * one(),
            one() > 0,
    ;
    let m = round_magnitude(num, den);
    let v = magnitude_value(m);
    lemma_round_nearest(num, den);
    let negative = a.negative() != b.negative();
    lemma_signed(negative, m);
    lemma_round_error(num, den);
    lemma_magnitude_nonnegative(a.magnitude());
    lemma_magnitude_nonnegative(b.magnitude());
    let va = a.value();
    let vb = b.value();
    let s = one();
    let vr = a.spec_div(b).value();
    assert(abs_int(vr * vb - va * s) == abs_int(v * den - num)) by (nonlinear_arith)
        requires
            num == abs_int(va) * s,
            den == abs_int(vb),
            a.negative() ==> va <= 0,
            !a.negative() ==> va >= 0,
            b.negative() ==> vb <= 0,
            !b.negative() ==> vb >= 0,
            negative == (a.negative() != b.negative()),
            vr == if negative {
                -v
            } else {
                v
            },
    ;
}

/// Whether the integer `n` is the value of a finite number.
pub open spec fn representable(n: int) -> bool {
    exists|m: int| 0 <= m < INFINITY_MAGNITUDE && #[trigger] magnitude_value(m) == abs_int(n)
}

/// A sum that is itself a number is returned exactly.
pub proof fn sum_exact(a: Double, b: Double)
    requires
        a.finite(),
        b.finite(),
        representable(a.value() + b.value()),
    ensures
        a.spec_add(b).finite(),
        a.spec_add(b).value() == a.value() + b.value(),
{
    let s = a.value() + b.value();
    if s == 0 {
        lemma_signed(a.negative() && b.negative(), 0);
    } else {
        let m = choose|m: int|
            0 <= m < INFINITY_MAGNITUDE && #[trigger] magnitude_value(m) == abs_int(s);
        lemma_round_exact(abs_int(s), 1, m);
        lemma_signed(s < 0, m);
    }
}

/// A product that is itself a number is returned exactly.
pub proof fn product_exact(a: Double, b: Double, n: int)
    requires
        a.finite(),
        b.finite(),
        representable(n),
        a.value() * b.value() == n * one(),
    ensures
        a.spec_mul(b).finite(),
        a.spec_mul(b).value() == n,
{
    let num = abs_int(a.value()) * abs_int(b.value());
    lemma_pow2_pos(1074);
    let m = choose|m: int|
        0 <= m < INFINITY_MAGNITUDE && #[trigger] magnitude_value(m) == abs_int(n);
    lemma_magnitude_nonnegative(a.magnitude());
    lemma_magnitude_nonnegative(b.magnitude());
    let va = a.value();
    let vb = b.value();
    let negative = a.negative() != b.negative();
    assert(num == abs_int(n) * one() && (negative ==> n <= 0) && (!negative ==> n >= 0)) by (nonlinear_arith)
        requires
            num == abs_int(va) * abs_int(vb),
            va * vb == n * one(),
            one() > 0,
            a.negative() ==> va <= 0,
            !a.negative() ==> va >= 0,
            b.negative() ==> vb <= 0,
            !b.negative() ==> vb >= 0,
            negative == (a.negative() != b.negative()),
    ;
    lemma_round_exact(num, one(), m);
    lemma_signed(negative, m);
}

/// A quotient that is itself a number is returned exactly.
pub proof fn quotient_exact(a: Double, b: Double, n: int)
    requires
        a.finite(),
        b.finite(),
        b.value() != 0,
        representable(n),
        n * b.value() == a.value() * one(),
    ensures
        a.spec_div(b).finite(),
        a.spec_div(b).value() == n,
{
    let num = abs_int(a.value()) * one();
    let den = abs_int(b.value());
    lemma_pow2_pos(1074);
    let m = choose|m: int|
        0 <= m < INFINITY_MAGNITUDE && #[trigger] magnitude_value(m) == abs_int(n);
    lemma_magnitude_nonnegative(a.magnitude());
    lemma_magnitude_nonnegative(b.magnitude());
    let va = a.value();
    let vb = b.value();
    let s = one();
    let negative = a.negative() != b.negative();
    assert(num == abs_int(n) * den && (negative ==> n <= 0) && (!negative ==> n >= 0)) by (nonlinear_arith)
        requires
            num == abs_int(va) * s,
            den == abs_int(vb),
            den > 0,
            n * vb == va * s,
            s > 0,
            a.negative() ==> va <= 0,
            !a.negative() ==> va >= 0,
            b.negative() ==> vb <= 0,
            !b.negative() ==> vb >= 0,
            negative == (a.negative() != b.negative()),
    ;
    lemma_round_exact(num, den, m);
    lemma_signed(negative, m);
}

/// An integer of at most fifty-three binary digits, times a power of two, is the
/// value of a number.
pub proof fn digits_representable(s: int, e: nat)
    requires
        abs_int(s) < 2 * HIDDEN_BIT || (abs_int(s) == 2 * HIDDEN_BIT && e < 2045),
        e <= 2045,
    ensures
        representable(s * pow2(e)),
    decreases e,
{
    let a = abs_int(s);
    let p = pow2(e) as int;
    lemma_pow2_pos(e);
    assert(abs_int(s * p) == a * p) by (nonlinear_arith)
        requires
            a == abs_int(s),
            p > 0,
    ;
    if e == 0 || a >= HIDDEN_BIT {
        let m = e * HIDDEN_BIT + a;
        lemma_grid_value(e as int, a);
        assert(m < INFINITY_MAGNITUDE) by (nonlinear_arith)
            requires
                m == e * HIDDEN_BIT + a,
                e <= 2045,
                a < 2 * HIDDEN_BIT || (a == 2 * HIDDEN_BIT && e < 2045),
                HIDDEN_BIT == 0x10_0000_0000_0000,
                INFINITY_MAGNITUDE == 0x7ff0_0000_0000_0000,
        ;
        assert(m >= 0) by (nonlinear_arith)
            requires
                m == e * HIDDEN_BIT + a,
                e >= 0,
                a >= 0,
                HIDDEN_BIT >= 0,
        ;
    } else {
        lemma_pow2_unfold(e);
        let q = pow2((e - 1) as nat) as int;
        digits_representable(2 * s, (e - 1) as nat);
        assert((2 * s) * q == s * p) by (nonlinear_arith)
            requires
                p == 2 * q,
        ;
    }
}

/// A finite magnitude has a significand of fifty-three digits and an exponent.
proof fn lemma_digits(m: int) -> (r: (int, nat))
    requires
        0 <= m < INFINITY_MAGNITUDE,
    ensures
        magnitude_value(m) == r.0 * pow2(r.1),
        0 <= r.0 < 2 * HIDDEN_BIT,
        r.1 <= 2045,
{
    let h = HIDDEN_BIT as int;
    lemma2_to64();
    if m / h <= 0 {
        assert((m % h) * pow2(0) == m % h) by (nonlinear_arith)
            requires
                pow2(0) == 1,
        ;
        (m % h, 0)
    } else {
        (h + m % h, (m / h - 1) as nat)
    }
}

/// What is a multiple of `p` keeps that through a remainder.
proof fn lemma_multiple_remainder(a: int, b: int, p: int) -> (k: int)
    requires
        0 <= a,
        b > 0,
        p > 0,
    ensures
        (a * p) % (b * p) == k * p,
        0 <= k <= a,
        k < b,
{
    lemma_remainder_scaled(a, b, p);
    vstd::arithmetic::div_mod::lemma_mod_decreases(a as nat, b as nat);
    a % b
}

/// The remainder of two numbers is itself a number.
pub proof fn remainder_representable(m: int, n: int)
    requires
        0 <= m < INFINITY_MAGNITUDE,
        0 < n < INFINITY_MAGNITUDE,
    ensures
        representable(magnitude_value(m) % magnitude_value(n)),
        0 <= magnitude_value(m) % magnitude_value(n) < magnitude_value(n),
{
    lemma_magnitude_nonnegative(m);
    lemma_magnitude_nonnegative(n);
    let (s, e) = lemma_digits(m);
    let (t, f) = lemma_digits(n);
    let p = pow2(e) as int;
    let q = pow2(f) as int;
    lemma_pow2_pos(e);
    lemma_pow2_pos(f);
    assert(t > 0) by (nonlinear_arith)
        requires
            t * q > 0,
            t >= 0,
    ;
    if e >= f {
        let u = pow2((e - f) as nat) as int;
        lemma_pow2_pos((e - f) as nat);
        lemma_pow2_adds((e - f) as nat, f);
        assert(s * p == (s * u) * q) by (nonlinear_arith)
            requires
                p == u * q,
        ;
        assert(s * u >= 0) by (nonlinear_arith)
            requires
                s >= 0,
                u >= 0,
        ;
        let k = lemma_multiple_remainder(s * u, t, q);
        digits_representable(k, f);
    } else {
        let u = pow2((f - e) as nat) as int;
        lemma_pow2_pos((f - e) as nat);
        lemma_pow2_adds((f - e) as nat, e);
        assert(t * q == (t * u) * p) by (nonlinear_arith)
            requires
                q == u * p,
        ;
        assert(t * u > 0) by (nonlinear_arith)
            requires
                t > 0,
                u > 0,
        ;
        let k = lemma_multiple_remainder(s, t * u, p);
        digits_representable(k, e);
    }
}

/// The truncating remainder is exact: it has the sign of the dividend, and is less
/// than the divisor in magnitude.
pub proof fn remainder_exact(a: Double, b: Double)
    requires
        a.finite(),
        b.finite(),
        b.value() != 0,
    ensures
        a.spec_rem(b).finite(),
        a.spec_rem(b).negative() == a.negative(),
        abs_int(a.spec_rem(b).value()) == abs_int(a.value()) % abs_int(b.value()),
        abs_int(a.spec_rem(b).value()) < abs_int(b.value()),
{
    lemma_abs_value(a);
    lemma_abs_value(b);
    let n = abs_int(a.value()) % abs_int(b.value());
    remainder_representable(a.magnitude(), b.magnitude());
    let m = choose|m: int|
        0 <= m < INFINITY_MAGNITUDE && #[trigger] magnitude_value(m) == abs_int(n);
    lemma_round_exact(n, 1, m);
    lemma_signed(a.negative(), m);
    lemma_magnitude_nonnegative(m);
}

/// Adding zero, of either sign, changes no number.
pub proof fn sum_with_zero(a: Double, b: Double)
    requires
        !a.nan(),
        b.magnitude() == 0,
    ensures
        a.spec_add(b).spec_eq(a),
        !a.negative() ==> !a.spec_add(b).negative(),
{
    if a.finite() {
        lemma_abs_value(a);
        lemma_abs_value(b);
        assert(magnitude_value(a.magnitude()) == abs_int(a.value() + b.value()));
        if a.value() != 0 {
            lemma_round_exact(abs_int(a.value()), 1, a.magnitude());
        }
        lemma_signed(a.negative() && b.negative(), 0);
        lemma_signed(a.value() < 0, a.magnitude());
    }
}

/// A number less itself is nothing.
pub proof fn difference_with_itself(a: Double)
    requires
        a.finite(),
    ensures
        a.spec_sub(a) == signed(false, 0),
{
}

/// Nothing divided by a number is nothing.
pub proof fn zero_divided(a: Double, b: Double)
    requires
        a.magnitude() == 0,
        !b.nan(),
        b.value() != 0,
    ensures
        a.spec_div(b).magnitude() == 0,
{
    lemma_abs_value(a);
    lemma_signed(a.negative() != b.negative(), 0);
    if b.finite() {
        let den = abs_int(b.value());
        assert(abs_int(a.value()) * one() == 0) by (nonlinear_arith)
            requires
                abs_int(a.value()) == 0,
        ;
        assert(magnitude_value(0) * den == 0) by (nonlinear_arith)
            requires
                magnitude_value(0) == 0,
        ;
        lemma_round_exact(0, den, 0);
    }
}

/// A difference that stays finite is off by at most half the gap above it.
pub proof fn difference_error(a: Double, b: Double)
    requires
        a.finite(),
        b.finite(),
        a.spec_sub(b).finite(),
    ensures
        2 * abs_int(a.spec_sub(b).value() - (a.value() - b.value())) <= magnitude_gap(
            a.spec_sub(b).magnitude(),
        ),
{
    lemma_negated(b);
    sum_error(a, b.spec_neg());
}

/// What the number with the other sign is.
pub proof fn lemma_negated(a: Double)
    ensures
        a.spec_neg().value() == -a.value(),
        a.spec_neg().magnitude() == a.magnitude(),
        a.spec_neg().negative() == !a.negative(),
{
}

/// A difference that is itself a number is returned exactly.
pub proof fn difference_exact(a: Double, b: Double)
    requires
        a.finite(),
        b.finite(),
        representable(a.value() - b.value()),
    ensures
        a.spec_sub(b).finite(),
        a.spec_sub(b).value() == a.value() - b.value(),
{
    lemma_negated(b);
    sum_exact(a, b.spec_neg());
}

/// A weight scales an error and its bound alike.
pub proof fn lemma_weighted(w: int, e: int, b: int)
    requires
        2 * abs_int(e) <= b,
    ensures
        2 * abs_int(w * e) <= abs_int(w) * b,
{
    assert(2 * abs_int(w * e) <= abs_int(w) * b) by (nonlinear_arith)
        requires
            2 * abs_int(e) <= b,
    ;
}

} // verus!
