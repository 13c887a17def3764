//! Arithmetic on whole numbers and on binary fractions of moderate size is exact.
use crate::arithmetic::one;
use crate::double::{
    abs_int, lemma_magnitude_nonnegative, lemma_signed_order, Double, HIDDEN_BIT,
};
use crate::accuracy::{
    difference_exact, digits_representable, product_exact, quotient_exact, sum_exact,
};
use crate::laws::constants::whole;
use vstd::arithmetic::power2::{lemma_pow2_adds, lemma_pow2_pos, pow2};
use vstd::prelude::*;

verus! {

/// Whether `a` is the binary fraction `n / 2^k`.
pub open spec fn is_fraction(a: Double, n: int, k: nat) -> bool {
    a.finite() && k <= 1074 && a.value() == n * pow2((1074 - k) as nat)
}

/// Whether an integer has at most fifty-three binary digits (or is the next one).
pub open spec fn is_moderate(n: int) -> bool {
    abs_int(n) <= 2 * HIDDEN_BIT
}

/// A number is the whole number `n` if it is the fraction `n / 2^0`.
pub proof fn whole_is_fraction(a: Double, n: int)
    ensures
        is_fraction(a, n, 0) <==> a.finite() && a.value() == whole(n),
{
}

/// A number other than zero has only one pattern.
pub proof fn value_determines_pattern(a: Double, b: Double)
    requires
        a.value() == b.value(),
        a.value() != 0,
    ensures
        a == b,
{
    lemma_signed_order(a, b);
    lemma_magnitude_nonnegative(a.magnitude());
    lemma_magnitude_nonnegative(b.magnitude());
}

/// The sum of fractions is exact.
pub proof fn fractions_add(a: Double, b: Double, m: int, n: int, k: nat)
    requires
        is_fraction(a, m, k),
        is_fraction(b, n, k),
        is_moderate(m + n),
    ensures
        is_fraction(a.spec_add(b), m + n, k),
{
    let p = pow2((1074 - k) as nat) as int;
    digits_representable(m + n, (1074 - k) as nat);
    assert((m + n) * p == m * p + n * p) by (nonlinear_arith);
    sum_exact(a, b);
}

/// The difference of fractions is exact.
pub proof fn fractions_subtract(a: Double, b: Double, m: int, n: int, k: nat)
    requires
        is_fraction(a, m, k),
        is_fraction(b, n, k),
        is_moderate(m - n),
    ensures
        is_fraction(a.spec_sub(b), m - n, k),
{
    let p = pow2((1074 - k) as nat) as int;
    digits_representable(m - n, (1074 - k) as nat);
    assert((m - n) * p == m * p - n * p) by (nonlinear_arith);
    difference_exact(a, b);
}

/// The product of fractions is exact.
pub proof fn fractions_multiply(a: Double, b: Double, m: int, n: int, j: nat, k: nat)
    requires
        is_fraction(a, m, j),
        is_fraction(b, n, k),
        j + k <= 1074,
        is_moderate(m * n),
    ensures
        is_fraction(a.spec_mul(b), m * n, j + k),
{
    let p = pow2((1074 - j) as nat) as int;
    let q = pow2((1074 - k) as nat) as int;
    let r = pow2((1074 - j - k) as nat) as int;
    digits_representable(m * n, (1074 - j - k) as nat);
    lemma_pow2_adds((1074 - j) as nat, (1074 - k) as nat);
    lemma_pow2_adds((1074 - j - k) as nat, 1074);
    assert((1074 - j) as nat + (1074 - k) as nat == (1074 - j - k) as nat + 1074);
    assert(a.value() * b.value() == ((m * n) * r) * one()) by (nonlinear_arith)
        requires
            a.value() == m * p,
            b.value() == n * q,
            p * q == r * one(),
    ;
    product_exact(a, b, (m * n) * r);
}

/// The quotient of fractions is exact where it is a fraction again.
pub proof fn fractions_divide(a: Double, b: Double, q: int, n: int, j: nat, k: nat)
    requires
        is_fraction(a, q * n, j + k),
        is_fraction(b, n, k),
        n != 0,
        is_moderate(q),
    ensures
        is_fraction(a.spec_div(b), q, j),
{
    let p = pow2((1074 - j - k) as nat) as int;
    let r = pow2((1074 - k) as nat) as int;
    let s = pow2((1074 - j) as nat) as int;
    lemma_pow2_pos((1074 - k) as nat);
    assert(b.value() != 0) by (nonlinear_arith)
        requires
            b.value() == n * r,
            n != 0,
            r > 0,
    ;
    digits_representable(q, (1074 - j) as nat);
    lemma_pow2_adds((1074 - j) as nat, (1074 - k) as nat);
    lemma_pow2_adds((1074 - j - k) as nat, 1074);
    assert((1074 - j) as nat + (1074 - k) as nat == (1074 - j - k) as nat + 1074);
    assert((q * s) * b.value() == a.value() * one()) by (nonlinear_arith)
        requires
            a.value() == (q * n) * p,
            b.value() == n * r,
            s * r == p * one(),
    ;
    quotient_exact(a, b, q * s);
}

} // verus!
