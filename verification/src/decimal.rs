//! Numbers in decimal notation: the shortest digits that a number can be told from its
//! neighbours by.
use crate::accuracy::{lemma_round_exact, lemma_round_nearest};
use crate::arithmetic::{decode, one};
use crate::double::{
    abs_int, lemma_magnitude_nonnegative, lemma_magnitude_order, lemma_magnitude_step,
    magnitude_gap, magnitude_value, HIDDEN_BIT, INFINITY_MAGNITUDE,
};
use crate::digits::{lemma_tens_adds, lemma_tens_order, lemma_tens_pos, tens};
use crate::natural::Natural;
use crate::rounding::{lemma_round_is, nearest, round_magnitude, twice_midpoint};
use vstd::arithmetic::power2::{
    lemma2_to64, lemma2_to64_rest, lemma_pow2_adds, lemma_pow2_pos, lemma_pow2_unfold, pow2,
};
use vstd::prelude::*;

verus! {

/// Whether `d * 10^e`, read as a number, is the one with magnitude `m`: whether that
/// is the nearest.
pub open spec fn reads_as(d: nat, e: int, m: int) -> bool {
    nearest((d * tens(e)) * one(), tens(-e) as int, m)
}

/// Whether some multiple of `10^e` reads as the number with magnitude `m`.
pub open spec fn has_decimal(e: int, m: int) -> bool {
    exists|d: nat| #[trigger] reads_as(d, e, m)
}

/// How far `d * 10^e` is from the number with magnitude `m`, scaled to whole numbers.
pub open spec fn decimal_error(d: nat, e: int, m: int) -> int {
    abs_int((d * tens(e)) * one() - magnitude_value(m) * tens(-e))
}

/// Whether `d * 10^e` is the shortest decimal that reads as the number with magnitude
/// `m`: none with a digit less does. Of those with as many digits it is the nearest, and
/// of two that are equally near the greater.
pub open spec fn is_shortest(d: nat, e: int, m: int) -> bool {
    &&& reads_as(d, e, m)
    &&& !has_decimal(e + 1, m)
    &&& forall|c: nat| #[trigger]
        reads_as(c, e, m) ==> decimal_error(d, e, m) <= decimal_error(c, e, m)
    &&& forall|c: nat| #[trigger]
        reads_as(c, e, m) && c > d ==> decimal_error(d, e, m) < decimal_error(c, e, m)
}

/// A power of two is no more than the power of ten with a third of its exponent.
pub proof fn lemma_pow2_tens(k: nat)
    ensures
        pow2(3 * k) <= tens(k as int),
    decreases k,
{
    lemma2_to64();
    if k > 0 {
        lemma_pow2_tens((k - 1) as nat);
        lemma_pow2_adds(3 * (k - 1) as nat, 3);
        assert(pow2(3) == 8);
    }
}

/// What printing the number with magnitude `m` starts from: twice the number, the gaps
/// above and below it, and twice one, all without the common factor `f`.
pub open spec fn is_scaled(m: int, f: int, number: nat, above: nat, below: nat, unit: nat) -> bool {
    &&& 0 < m < INFINITY_MAGNITUDE
    &&& f > 0
    &&& 2 * magnitude_value(m) == f * number
    &&& magnitude_gap(m) == f * above
    &&& magnitude_gap(m - 1) == f * below
    &&& 2 * one() == f * unit
    &&& above > 0
    &&& below > 0
    &&& unit > 0
    &&& below < number
}

/// What printing starts from, whatever the common factor was.
pub open spec fn is_start(m: int, number: nat, above: nat, below: nat, unit: nat) -> bool {
    exists|f: int| #[trigger] is_scaled(m, f, number, above, below, unit)
}

/// Two comparisons are the same where the sides differ by positive factors only.
pub proof fn lemma_same_order(x: int, y: int, t: int, a: int, b: int, k: int)
    requires
        t > 0,
        k > 0,
        x * t == k * a,
        y * t == k * b,
    ensures
        x <= y <==> a <= b,
        x == y <==> a == b,
        abs_int(x) * t == k * abs_int(a),
{
    assert(x <= y <==> x * t <= y * t) by (nonlinear_arith)
        requires
            t > 0,
    ;
    assert(a <= b <==> k * a <= k * b) by (nonlinear_arith)
        requires
            k > 0,
    ;
    assert(y <= x <==> y * t <= x * t) by (nonlinear_arith)
        requires
            t > 0,
    ;
    assert(b <= a <==> k * b <= k * a) by (nonlinear_arith)
        requires
            k > 0,
    ;
    assert(abs_int(x) * t == abs_int(x * t) && k * abs_int(a) == abs_int(k * a))
        by (nonlinear_arith)
        requires
            t > 0,
            k > 0,
    ;
}

/// Ten to a difference of exponents, without fractions.
proof fn lemma_tens_difference(top: int, n: int)
    requires
        top >= 0,
        n >= 0,
    ensures
        tens(top - n) * tens(n) == tens(top) * tens(n - top),
{
    if top >= n {
        lemma_tens_adds(top - n, n);
        assert(tens(top) * 1 == tens(top)) by (nonlinear_arith);
    } else {
        lemma_tens_adds(top, n - top);
        assert(1 * tens(n) == tens(n)) by (nonlinear_arith);
    }
}

/// Whether a decimal reads as the number, over scaled integers.
proof fn lemma_reads_as(
    m: int,
    f: int,
    number: nat,
    above: nat,
    below: nat,
    unit: nat,
    top: int,
    n: int,
    d: nat,
)
    requires
        is_scaled(m, f, number, above, below, unit),
        top >= 0,
        n >= 0,
    ensures
        ({
            let (t, q) = (tens(n) as int, d * (unit * tens(top)));
            reads_as(d, top - n, m) <==> {
                &&& (number - below) * t <= q
                &&& (number - below) * t == q ==> m % 2 == 0
                &&& q <= (number + above) * t
                &&& q == (number + above) * t ==> m % 2 == 0
            }
        }),
{
    let e = top - n;
    let (a, b, t, u) = (tens(e) as int, tens(-e) as int, tens(n) as int, tens(top) as int);
    lemma_tens_pos(e);
    lemma_tens_pos(-e);
    lemma_tens_pos(n);
    lemma_tens_difference(top, n);
    lemma_magnitude_step(m);
    lemma_magnitude_step(m - 1);
    let y = 2 * ((d * a) * one());
    let q = d * (unit * u);
    let k = f * b;
    assert(k > 0) by (nonlinear_arith)
        requires
            k == f * b,
            f > 0,
            b > 0,
    ;
    assert(y * t == k * q) by {
        let da = d * a;
        assert(y == da * (f * unit)) by (nonlinear_arith)
            requires
                y == 2 * (da * one()),
                2 * one() == f * unit,
        ;
        assert((da * (f * unit)) * t == (d * (f * unit)) * (a * t)) by (nonlinear_arith)
            requires
                da == d * a,
        ;
        assert((d * (f * unit)) * (u * b) == (f * b) * (d * (unit * u))) by (nonlinear_arith);
    }
    let (high, low) = (number + above, number - below);
    assert(twice_midpoint(m) == f * high) by (nonlinear_arith)
        requires
            twice_midpoint(m) == f * number + f * above,
            high == number + above,
    ;
    assert(twice_midpoint(m - 1) == f * low) by (nonlinear_arith)
        requires
            twice_midpoint(m - 1) == f * number - f * below,
            low == number - below,
    ;
    assert(((f * high) * b) * t == k * (high * t)) by (nonlinear_arith)
        requires
            k == f * b,
    ;
    assert(((f * low) * b) * t == k * (low * t)) by (nonlinear_arith)
        requires
            k == f * b,
    ;
    lemma_same_order((f * high) * b, y, t, high * t, q, k);
    lemma_same_order(y, (f * high) * b, t, q, high * t, k);
    lemma_same_order((f * low) * b, y, t, low * t, q, k);
}

/// How far a decimal is from the number, over scaled integers.
proof fn lemma_decimal_error(
    m: int,
    f: int,
    number: nat,
    above: nat,
    below: nat,
    unit: nat,
    top: int,
    n: int,
    d: nat,
)
    requires
        is_scaled(m, f, number, above, below, unit),
        top >= 0,
        n >= 0,
    ensures
        decimal_error(d, top - n, m) * (2 * tens(n)) == (f * tens(n - top)) * abs_int(
            d * (unit * tens(top)) - number * tens(n),
        ),
        2 * tens(n) > 0,
        f * tens(n - top) > 0,
{
    let e = top - n;
    let (a, b, t, u) = (tens(e) as int, tens(-e) as int, tens(n) as int, tens(top) as int);
    lemma_tens_pos(-e);
    lemma_tens_pos(n);
    lemma_tens_difference(top, n);
    let v = magnitude_value(m);
    let x = (d * a) * one() - v * b;
    let q = d * (unit * u);
    let k = f * b;
    assert(k > 0) by (nonlinear_arith)
        requires
            k == f * b,
            f > 0,
            b > 0,
    ;
    let y = (d * a) * one();
    assert(y * (2 * t) == k * q) by {
        let da = d * a;
        assert(y * (2 * t) == (da * (f * unit)) * t) by (nonlinear_arith)
            requires
                y == da * one(),
                2 * one() == f * unit,
        ;
        assert((da * (f * unit)) * t == (d * (f * unit)) * (a * t)) by (nonlinear_arith)
            requires
                da == d * a,
        ;
        assert((d * (f * unit)) * (u * b) == (f * b) * (d * (unit * u))) by (nonlinear_arith);
    }
    assert((v * b) * (2 * t) == k * (number * t)) by (nonlinear_arith)
        requires
            2 * v == f * number,
            k == f * b,
    ;
    let z = v * b;
    assert((y - z) * (2 * t) == y * (2 * t) - z * (2 * t)) by (nonlinear_arith);
    let w = number * t;
    assert(k * (q - w) == k * q - k * w) by (nonlinear_arith);
    assert(0 * (2 * t) == k * 0) by (nonlinear_arith);
    lemma_same_order(x, 0, 2 * t, q - w, 0, k);
}

/// Whether the digits `d`, cut off with `rest` left over, read as the number: whether
/// the rest is within the gap below.
spec fn reads_down(m: int, rest: int, low: int) -> bool {
    rest <= low && (rest == low ==> m % 2 == 0)
}

/// Whether one more than the digits reads as the number: whether what is missing to it is
/// within the gap above.
spec fn reads_up(m: int, missing: int, high: int) -> bool {
    missing <= high && (missing == high ==> m % 2 == 0)
}

/// What the digits `d` with `rest` left over at place `top - n` mean: they or one more
/// read as the number if any multiple of the place does, and they are nearest to it.
proof fn lemma_candidates(
    m: int,
    f: int,
    number: nat,
    above: nat,
    below: nat,
    unit: nat,
    top: int,
    n: int,
    d: nat,
    rest: int,
    c: nat,
)
    requires
        is_scaled(m, f, number, above, below, unit),
        top >= 0,
        n >= 0,
        d * (unit * tens(top)) + rest == number * tens(n),
        0 <= rest < unit * tens(top),
    ensures
        ({
            let missing = unit * tens(top) - rest;
            let down = reads_down(m, rest, (below * tens(n)) as int);
            let up = reads_up(m, missing, (above * tens(n)) as int);
            let e = top - n;
            &&& reads_as(d, e, m) <==> down
            &&& reads_as(d + 1, e, m) <==> up
            &&& c < d && reads_as(c, e, m) ==> down
            &&& c > d + 1 && reads_as(c, e, m) ==> up
            &&& rest <= missing ==> decimal_error(d, e, m) <= decimal_error(d + 1, e, m)
            &&& rest < missing ==> decimal_error(d, e, m) < decimal_error(d + 1, e, m)
            &&& missing <= rest ==> decimal_error(d + 1, e, m) <= decimal_error(d, e, m)
            &&& c < d ==> decimal_error(d, e, m) <= decimal_error(c, e, m)
            &&& c > d + 1 ==> decimal_error(d + 1, e, m) < decimal_error(c, e, m)
        }),
{
    let (t, scale) = (tens(n) as int, (unit * tens(top)) as int);
    let (low, high) = (below * t, above * t);
    lemma_tens_pos(n);
    lemma_reads_as(m, f, number, above, below, unit, top, n, d);
    lemma_reads_as(m, f, number, above, below, unit, top, n, d + 1);
    lemma_reads_as(m, f, number, above, below, unit, top, n, c);
    lemma_decimal_error(m, f, number, above, below, unit, top, n, d);
    lemma_decimal_error(m, f, number, above, below, unit, top, n, d + 1);
    lemma_decimal_error(m, f, number, above, below, unit, top, n, c);
    assert((number - below) * t == number * t - low) by (nonlinear_arith)
        requires
            low == below * t,
    ;
    assert((number + above) * t == number * t + high) by (nonlinear_arith)
        requires
            high == above * t,
    ;
    assert(low > 0) by (nonlinear_arith)
        requires
            low == below * t,
            below > 0,
            t > 0,
    ;
    assert(high > 0) by (nonlinear_arith)
        requires
            high == above * t,
            above > 0,
            t > 0,
    ;
    assert((d + 1) * scale == d * scale + scale) by (nonlinear_arith);
    if c < d {
        assert(c * scale + scale <= d * scale) by (nonlinear_arith)
            requires
                c + 1 <= d,
                scale > 0,
        ;
    }
    if c > d + 1 {
        assert(d * scale + 2 * scale <= c * scale) by (nonlinear_arith)
            requires
                d + 2 <= c,
                scale > 0,
        ;
    }
    let k = f * tens(n - top);
    let w = number * t;
    let (x0, x1, x2) = (
        abs_int(d * scale - w),
        abs_int((d + 1) * scale - w),
        abs_int(c * scale - w),
    );
    let e = top - n;
    lemma_errors_in_order(decimal_error(d, e, m), decimal_error(d + 1, e, m), 2 * t, x0, x1, k);
    lemma_errors_in_order(decimal_error(d, e, m), decimal_error(c, e, m), 2 * t, x0, x2, k);
    lemma_errors_in_order(decimal_error(d + 1, e, m), decimal_error(c, e, m), 2 * t, x1, x2, k);
}

proof fn lemma_errors_in_order(x: int, y: int, t: int, a: int, b: int, k: int)
    requires
        t > 0,
        k > 0,
        x * t == k * a,
        y * t == k * b,
    ensures
        x <= y <==> a <= b,
        x < y <==> a < b,
{
    lemma_same_order(x, y, t, a, b, k);
}

/// Where neither the digits nor one more read as the number, no multiple of the place
/// does.
proof fn lemma_no_decimal(
    m: int,
    f: int,
    number: nat,
    above: nat,
    below: nat,
    unit: nat,
    top: int,
    n: int,
    d: nat,
    rest: int,
)
    requires
        is_scaled(m, f, number, above, below, unit),
        top >= 0,
        n >= 0,
        d * (unit * tens(top)) + rest == number * tens(n),
        0 <= rest < unit * tens(top),
        !reads_down(m, rest, (below * tens(n)) as int),
        !reads_up(m, unit * tens(top) - rest, (above * tens(n)) as int),
    ensures
        !has_decimal(top - n, m),
{
    assert forall|c: nat| !#[trigger] reads_as(c, top - n, m) by {
        lemma_candidates(m, f, number, above, below, unit, top, n, d, rest, c);
    }
}

/// The nearest of the two candidates that read as the number is the shortest decimal.
proof fn lemma_shortest(
    m: int,
    f: int,
    number: nat,
    above: nat,
    below: nat,
    unit: nat,
    top: int,
    n: int,
    d: nat,
    rest: int,
    choose_up: bool,
)
    requires
        is_scaled(m, f, number, above, below, unit),
        top >= 0,
        n >= 0,
        d * (unit * tens(top)) + rest == number * tens(n),
        0 <= rest < unit * tens(top),
        !has_decimal(top - n + 1, m),
        ({
            let missing = unit * tens(top) - rest;
            let down = reads_down(m, rest, (below * tens(n)) as int);
            let up = reads_up(m, missing, (above * tens(n)) as int);
            &&& down || up
            &&& choose_up == (up && (!down || missing <= rest))
        }),
    ensures
        is_shortest(
            if choose_up {
                d + 1
            } else {
                d
            },
            top - n,
            m,
        ),
{
    let e = top - n;
    let r = if choose_up {
        d + 1
    } else {
        d
    };
    lemma_candidates(m, f, number, above, below, unit, top, n, d, rest, d);
    assert forall|c: nat| #[trigger] reads_as(c, e, m) implies decimal_error(r, e, m)
        <= decimal_error(c, e, m) && (c > r ==> decimal_error(r, e, m) < decimal_error(
        c,
        e,
        m,
    )) by {
        lemma_candidates(m, f, number, above, below, unit, top, n, d, rest, c);
    }
}

/// The next digit: how often `scale` goes into `rest`, and what is left over.
pub fn next_digit(rest: Natural, scale: &Natural) -> (r: (u64, Natural))
    requires
        rest@ < 10 * scale@,
    ensures
        r.0 <= 9,
        r.0 * scale@ + r.1@ == rest@,
        r.1@ < scale@,
{
    let mut digit: u64 = 0;
    let mut left: Natural = rest;
    let ghost s = scale@;
    proof {
        assert(0 * s == 0) by (nonlinear_arith);
    }
    while !left.less_than(scale)
        invariant
            digit * s + left@ == rest@,
            s == scale@,
            rest@ < 10 * s,
        decreases left@,
    {
        proof {
            assert((digit + 1) * s == digit * s + s) by (nonlinear_arith);
            assert(digit + 1 <= 9) by (nonlinear_arith)
                requires
                    (digit + 1) * s < 10 * s,
                    s >= 0,
            ;
            assert(s > 0);
        }
        left = left.minus(scale);
        digit = digit + 1;
    }
    proof {
        assert(digit <= 9) by (nonlinear_arith)
            requires
                digit * s < 10 * s,
        ;
    }
    (digit, left)
}

/// Whether the sum of two numbers is less than a third.
fn sum_is_less(a: &Natural, b: &Natural, c: &Natural) -> (r: bool)
    ensures
        r == (a@ + b@ < c@),
{
    if a.less_than(c) {
        let rest: Natural = c.minus(a);
        b.less_than(&rest)
    } else {
        false
    }
}

/// What printing starts from: twice the number, the gaps above and below it, and twice
/// one, without a common factor.
pub fn start(m: u64) -> (r: (Natural, Natural, Natural, Natural))
    requires
        0 < m < INFINITY_MAGNITUDE,
    ensures
        is_start(m as int, r.0@, r.1@, r.2@, r.3@),
        r.0@ <= 0x40_0000_0000_0000 * r.1@,
        r.0@ + r.1@ <= pow2(1026),
        r.3@ <= pow2(1075),
{
    let (s, e): (u64, u32) = decode(m);
    let ghost v = magnitude_value(m as int);
    let ghost h = HIDDEN_BIT as int;
    proof {
        lemma2_to64();
        lemma_magnitude_step(m - 1);
        lemma_magnitude_nonnegative(m - 1);
        if e == 0 {
            assert(m as int / h <= 1);
            assert((m - 1) / h <= 1);
            assert(s * pow2(0) == s) by (nonlinear_arith)
                requires
                    pow2(0) == 1,
            ;
            assert(magnitude_gap(m as int) == 1 && magnitude_gap(m - 1) == 1);
        } else {
            lemma_pow2_unfold(e as nat);
            lemma_pow2_pos((e - 1) as nat);
            assert(m == e * h + s);
            if s > h {
                assert((m - 1) / h == e + 1) by (nonlinear_arith)
                    requires
                        m == e * h + s,
                        h < s < 2 * h,
                ;
            } else {
                assert((m - 1) / h == e) by (nonlinear_arith)
                    requires
                        m == e * h + s,
                        s == h,
                        h > 0,
                ;
            }
            assert(magnitude_gap(m - 1) == if s > h {
                pow2(e as nat) as int
            } else {
                pow2((e - 1) as nat) as int
            });
        }
    }
    if e == 0 {
        let number: Natural = Natural::from_u64(2 * s);
        let (above, below): (Natural, Natural) = (Natural::from_u64(1), Natural::from_u64(1));
        let unit: Natural = Natural::power_of_two(1075);
        proof {
            lemma_pow2_unfold(1075);
            lemma_pow2_pos(1075);
            lemma_factors(1, number@, above@, below@, unit@);
            assert(is_scaled(m as int, 1, number@, above@, below@, unit@));
            assert(is_start(m as int, number@, above@, below@, unit@));
            lemma_pow2_at_least(1026);
        }
        (number, above, below, unit)
    } else if e <= 1076 {
        let number: Natural = Natural::from_u64(4 * s);
        let above: Natural = Natural::from_u64(2);
        let below: Natural = Natural::from_u64(
            if s > HIDDEN_BIT {
                2
            } else {
                1
            },
        );
        let unit: Natural = Natural::power_of_two(1076 - e);
        proof {
            let f = pow2((e - 1) as nat) as int;
            lemma_pow2_adds((e - 1) as nat, (1076 - e) as nat);
            lemma_pow2_unfold(1075);
            lemma_pow2_pos((1076 - e) as nat);
            let p = pow2(e as nat) as int;
            let (x, a, b) = (number@, above@, below@);
            assert(2 * (s * p) == f * x) by (nonlinear_arith)
                requires
                    p == 2 * f,
                    x == 4 * s,
            ;
            assert(f * a == p) by (nonlinear_arith)
                requires
                    p == 2 * f,
                    a == 2,
            ;
            assert(b == 1 ==> f * b == f) by (nonlinear_arith);
            assert(b == 2 ==> f * b == 2 * f) by (nonlinear_arith);
            assert(is_scaled(m as int, f, number@, above@, below@, unit@));
            assert(is_start(m as int, number@, above@, below@, unit@));
            lemma_pow2_at_least(1026);
            lemma_pow2_below((1076 - e) as nat, 1075);
        }
        (number, above, below, unit)
    } else {
        let number: Natural = Natural::from_u64(s).times_power_of_two(e - 1074);
        let above: Natural = Natural::power_of_two(e - 1075);
        let below: Natural = if s > HIDDEN_BIT {
            Natural::power_of_two(e - 1075)
        } else {
            Natural::power_of_two(e - 1076)
        };
        let unit: Natural = Natural::from_u64(1);
        proof {
            let f = pow2(1075) as int;
            lemma_pow2_pos(1075);
            lemma_pow2_unfold(1075);
            lemma_pow2_adds(1075, (e - 1075) as nat);
            lemma_pow2_adds(1075, (e - 1076) as nat);
            lemma_pow2_unfold((e - 1074) as nat);
            lemma_pow2_pos((e - 1075) as nat);
            lemma_pow2_pos((e - 1076) as nat);
            let (p, a, b) = (
                pow2(e as nat) as int,
                pow2((e - 1075) as nat) as int,
                pow2((e - 1074) as nat) as int,
            );
            assert(2 * (s * p) == f * (s * b)) by (nonlinear_arith)
                requires
                    p == f * a,
                    b == 2 * a,
            ;
            assert(s * b <= 0x40_0000_0000_0000 * a) by (nonlinear_arith)
                requires
                    b == 2 * a,
                    s <= 0x20_0000_0000_0000,
                    a >= 0,
            ;
            assert(s * b >= 2 * a) by (nonlinear_arith)
                requires
                    b == 2 * a,
                    s >= 1,
                    a >= 0,
            ;
            let u = unit@;
            assert(f * u == f) by (nonlinear_arith)
                requires
                    u == 1,
            ;
            lemma_pow2_unfold((e - 1075) as nat);
            assert(is_scaled(m as int, f, number@, above@, below@, unit@));
            assert(is_start(m as int, number@, above@, below@, unit@));
            lemma_pow2_below((e - 1075) as nat, 970);
            lemma_pow2_adds(970, 56);
            lemma_pow2_adds(32, 24);
            assert(0x40_0000_0000_0000 * a + a <= pow2(1026)) by (nonlinear_arith)
                requires
                    a <= pow2(970),
                    pow2(970) * 0x100_0000_0000_0000 == pow2(1026),
            ;
            lemma_pow2_pos(1075);
        }
        (number, above, below, unit)
    }
}

/// One leaves every factor.
proof fn lemma_factors(f: int, a: nat, b: nat, c: nat, d: nat)
    requires
        f == 1,
    ensures
        f * a == a,
        f * b == b,
        f * c == c,
        f * d == d,
{
    assert(f * a == a && f * b == b && f * c == c && f * d == d) by (nonlinear_arith)
        requires
            f == 1,
    ;
}

proof fn lemma_pow2_below(i: nat, j: nat)
    requires
        i <= j,
    ensures
        pow2(i) <= pow2(j),
{
    lemma_pow2_adds(i, (j - i) as nat);
    lemma_pow2_pos(i);
    lemma_pow2_pos((j - i) as nat);
    let (a, b) = (pow2(i), pow2((j - i) as nat));
    assert(a <= a * b) by (nonlinear_arith)
        requires
            b >= 1,
    ;
}

/// Powers of two from sixty-four on are beyond what a machine word holds.
proof fn lemma_pow2_at_least(k: nat)
    requires
        k >= 64,
    ensures
        pow2(k) >= 0x1_0000_0000_0000_0000,
{
    lemma2_to64();
    lemma_pow2_below(64, k);
}

/// The shortest decimal that reads as the number with magnitude `m`: its digits, and the
/// power of ten that they count.
pub fn shortest_decimal(m: u64) -> (r: (u64, i32))
    requires
        0 < m < INFINITY_MAGNITUDE,
    ensures
        is_shortest(r.0 as nat, r.1 as int, m as int),
        0 < r.0 <= 0x1000_0000_0000_0000,
        -1100 <= r.1 <= 400,
{
    let (number, above, below, unit): (Natural, Natural, Natural, Natural) = start(m);
    let ghost (w, a, b, u) = (number@, above@, below@, unit@);
    let ghost f = choose|f: int| #[trigger] is_scaled(m as int, f, w, a, b, u);
    // Find a power of ten beyond the number, with no decimal near it.
    let mut scale: Natural = unit;
    let mut place: i32 = 0;
    proof {
        lemma_pow2_tens(342);
        assert(u * tens(0) == u) by (nonlinear_arith)
            requires
                tens(0) == 1,
        ;
    }
    while !sum_is_less(&number, &above, &scale)
        invariant
            number@ == w,
            above@ == a,
            u > 0,
            w + a <= tens(342),
            0 <= place <= 343,
            scale@ == u * tens(place as int),
            place > 0 ==> u * tens(place - 1) <= w + a,
        decreases
            if w + a < scale@ {
                0
            } else {
                w + a + 1 - scale@
            },
    {
        proof {
            let (p, t) = (place as int, tens(place as int));
            lemma_tens_pos(p);
            assert(t <= u * t && (u * t) * 10 == u * (10 * t) && u * t > 0) by (nonlinear_arith)
                requires
                    u > 0,
                    t > 0,
            ;
            lemma_tens_order(p, 342);
        }
        scale = scale.times(10);
        place = place + 1;
    }
    let ghost top = place as int;
    let ghost s = scale@;
    let ghost mut n: int = 0;
    let even: bool = m % 2 == 0;
    let mut rest: Natural = number;
    let mut low: Natural = below;
    let mut high: Natural = above;
    let mut digits: u64 = 0;
    let mut down: bool = false;
    let mut up: bool = false;
    proof {
        assert(w * tens(0) == w && a * tens(0) == a && b * tens(0) == b && 0 * s == 0)
            by (nonlinear_arith)
            requires
                tens(0) == 1,
        ;
        lemma_start_bound(u, top);
    }
    while !down && !up
        invariant
            is_scaled(m as int, f, w, a, b, u),
            0 <= top <= 343,
            0 <= n <= 1000,
            place == top - n,
            s == u * tens(top),
            s <= tens(1000),
            scale@ == s,
            even == (m % 2 == 0),
            w <= 0x40_0000_0000_0000 * a,
            digits * s + rest@ == w * tens(n),
            rest@ < s,
            low@ == b * tens(n),
            high@ == a * tens(n),
            down == reads_down(m as int, rest@ as int, low@ as int),
            up == reads_up(m as int, s - rest@, high@ as int),
            digits <= 0xfff_ffff_ffff_ffff,
            down || up ==> !has_decimal(place + 1, m as int),
        decreases
            if down || up {
                0
            } else {
                s - low@ + 1
            },
    {
        proof {
            lemma_tens_pos(n);
            lemma_no_decimal(m as int, f, w, a, b, u, top, n, digits as nat, rest@ as int);
            lemma_digits_bound(w, a, digits as nat, s, rest@, tens(n));
            let t = tens(n);
            assert(t <= b * t) by (nonlinear_arith)
                requires
                    b >= 1,
            ;
            if n >= 1000 {
                lemma_tens_order(n, 1000);
                assert(t < s);
                assert(n == 1000);
            }
            assert((w * t) * 10 == w * (10 * t) && (a * t) * 10 == a * (10 * t) && (b * t) * 10 == b
                * (10 * t)) by (nonlinear_arith);
            let (d, r) = (digits as nat, rest@);
            assert((d * s + r) * 10 == (10 * d) * s + r * 10) by (nonlinear_arith);
        }
        let ghost before = digits as nat;
        let (digit, left): (u64, Natural) = next_digit(rest.times(10), &scale);
        rest = left;
        low = low.times(10);
        high = high.times(10);
        digits = 10 * digits + digit;
        place = place - 1;
        proof {
            n = n + 1;
            assert((10 * before) * s + digit * s == (10 * before + digit) * s) by (nonlinear_arith);
        }
        let missing: Natural = scale.minus(&rest);
        down = if even {
            !low.less_than(&rest)
        } else {
            rest.less_than(&low)
        };
        up = if even {
            !high.less_than(&missing)
        } else {
            missing.less_than(&high)
        };
    }
    let missing: Natural = scale.minus(&rest);
    let choose_up: bool = up && (!down || !rest.less_than(&missing));
    proof {
        lemma_shortest(m as int, f, w, a, b, u, top, n, digits as nat, rest@ as int, choose_up);
    }
    if choose_up {
        (digits + 1, place)
    } else {
        proof {
            lemma_digits_positive(m as int, digits as nat, place as int);
        }
        (digits, place)
    }
}

/// The greatest unit and the greatest power of ten that a scale is made of.
proof fn lemma_start_bound(u: nat, top: int)
    requires
        u <= pow2(1075),
        0 <= top <= 343,
    ensures
        u * tens(top) <= tens(1000),
{
    lemma_pow2_below(1075, 1077);
    lemma_pow2_tens(359);
    lemma_tens_adds(359, top);
    lemma_tens_adds(359 + top, 1000 - 359 - top);
    lemma_tens_pos(1000 - 359 - top);
    let (t, x, y) = (tens(top), tens(359), tens(1000 - 359 - top));
    assert(u * t <= x * t) by (nonlinear_arith)
        requires
            u <= x,
    ;
    let z = x * t;
    assert(z <= z * y) by (nonlinear_arith)
        requires
            y >= 1,
    ;
}

/// Where a gap is less than the place, the digits are no more than the number has gaps.
proof fn lemma_digits_bound(w: nat, a: nat, d: nat, s: nat, rest: nat, t: nat)
    requires
        a > 0,
        t > 0,
        s > 0,
        w <= 0x40_0000_0000_0000 * a,
        d * s + rest == w * t,
        a * t <= s - rest,
    ensures
        d <= 0x40_0000_0000_0000,
{
    let c: nat = 0x40_0000_0000_0000;
    assert(w * t <= c * (a * t)) by (nonlinear_arith)
        requires
            w <= c * a,
    ;
    assert(c * (a * t) <= c * s) by (nonlinear_arith)
        requires
            a * t <= s,
            c >= 0,
    ;
    assert(d <= c) by (nonlinear_arith)
        requires
            d * s <= c * s,
            s > 0,
    ;
}

/// Zero does not read as another number.
pub proof fn lemma_digits_positive(m: int, d: nat, e: int)
    requires
        m > 0,
        reads_as(d, e, m),
    ensures
        d > 0,
{
    if d == 0 {
        let x = twice_midpoint(m - 1);
        lemma_tens_pos(-e);
        lemma_magnitude_step(m - 1);
        lemma_magnitude_nonnegative(m - 1);
        let t = tens(-e);
        assert(x * t > 0) by (nonlinear_arith)
            requires
                x > 0,
                t > 0,
        ;
        let z = tens(e);
        assert((d * z) * one() == 0) by (nonlinear_arith)
            requires
                d == 0,
        ;
    }
}

/// A decimal reads the same with a zero more and the next smaller power of ten.
pub proof fn lemma_finer_decimal(d: nat, e: int, m: int)
    requires
        reads_as(d, e + 1, m),
    ensures
        reads_as(10 * d, e, m),
{
    let (a, b) = (tens(e + 1), tens(e));
    if e >= 0 {
        assert((10 * d) * b == d * a) by (nonlinear_arith)
            requires
                a == 10 * b,
        ;
    } else {
        let x = d * a;
        assert((10 * d) * b == 10 * x) by (nonlinear_arith)
            requires
                a == 1,
                b == 1,
                x == d * a,
        ;
        let (num, den) = (x * one(), tens(-(e + 1)) as int);
        let (low, high) = (twice_midpoint(m - 1), twice_midpoint(m));
        assert((10 * x) * one() == 10 * num) by (nonlinear_arith)
            requires
                num == x * one(),
        ;
        assert(low * (10 * den) == 10 * (low * den)) by (nonlinear_arith);
        assert(high * (10 * den) == 10 * (high * den)) by (nonlinear_arith);
    }
}

/// A decimal reads the same with more zeros.
pub proof fn lemma_finer_decimals(d: nat, e: int, g: int, m: int)
    requires
        reads_as(d, g, m),
        e <= g,
    ensures
        has_decimal(e, m),
    decreases g - e,
{
    if e < g {
        lemma_finer_decimal(d, g - 1, m);
        lemma_finer_decimals(10 * d, e, g - 1, m);
    }
}

/// A number has only one shortest decimal, and none with a larger power of ten reads as
/// it.
pub proof fn shortest_is_unique(d: nat, e: int, c: nat, g: int, m: int)
    requires
        is_shortest(d, e, m),
    ensures
        g > e ==> !reads_as(c, g, m),
        is_shortest(c, g, m) ==> c == d && g == e,
{
    if g > e && reads_as(c, g, m) {
        lemma_finer_decimals(c, e + 1, g, m);
    }
    if is_shortest(c, g, m) && g < e {
        lemma_finer_decimals(d, g + 1, e, m);
    }
}

/// Reading the shortest decimal of a number gives the number back.
pub proof fn shortest_reads_back(d: nat, e: int, m: int)
    requires
        is_shortest(d, e, m),
    ensures
        round_magnitude((d * tens(e)) * one(), tens(-e) as int) == m,
{
    lemma_tens_pos(-e);
    lemma_round_is((d * tens(e)) * one(), tens(-e) as int, m);
}

/// Five to the power `i`.
spec fn fives(i: nat) -> nat
    decreases i,
{
    if i == 0 {
        1
    } else {
        5 * fives((i - 1) as nat)
    }
}

/// A power of ten is made of a power of five and one of two.
proof fn lemma_tens_factors(i: nat)
    ensures
        tens(i as int) == fives(i) * pow2(i),
        tens(i as int) >= pow2(i),
    decreases i,
{
    lemma2_to64();
    if i > 0 {
        let k = (i - 1) as nat;
        lemma_tens_factors(k);
        lemma_pow2_unfold(i);
        let (f, p) = (fives(k), pow2(k));
        assert(10 * (f * p) == (5 * f) * (2 * p)) by (nonlinear_arith);
    }
}

/// Every number is a decimal with enough digits behind the point.
proof fn lemma_has_exact_decimal(m: int)
    requires
        0 < m < INFINITY_MAGNITUDE,
    ensures
        has_decimal(-1074, m),
{
    lemma_magnitude_nonnegative(m);
    lemma_tens_factors(1074);
    lemma_tens_pos(1074);
    let (v, f, t, s) = (magnitude_value(m), fives(1074) as int, tens(1074) as int, one());
    assert(v * f >= 0) by (nonlinear_arith)
        requires
            v >= 0,
            f >= 0,
    ;
    let d = (v * f) as nat;
    let x = tens(-1074);
    assert((d * x) * s == v * t) by (nonlinear_arith)
        requires
            d == v * f,
            x == 1,
            t == f * s,
    ;
    lemma_round_exact(v * t, t, m);
    lemma_round_nearest(v * t, t);
    assert(reads_as(d, -1074, m));
}

/// No number is a multiple of a power of ten beyond all numbers.
proof fn lemma_has_no_coarse_decimal(m: int)
    requires
        0 < m < INFINITY_MAGNITUDE,
    ensures
        !has_decimal(1100, m),
{
    let (t, s) = (tens(1100) as int, one());
    lemma_tens_factors(1100);
    lemma_pow2_below(1026, 1100);
    lemma_pow2_adds(1026, 1074);
    lemma_pow2_adds(52, 2046);
    lemma_pow2_pos(1074);
    lemma2_to64();
    lemma2_to64_rest();
    let i = INFINITY_MAGNITUDE as int;
    assert(magnitude_value(i) == pow2(2098)) by {
        assert(i / (HIDDEN_BIT as int) == 2047 && i % (HIDDEN_BIT as int) == 0);
    }
    lemma_pow2_below(2098, 2100);
    lemma_pow2_unfold(2100);
    lemma_pow2_unfold(2099);
    lemma_magnitude_order(m, i);
    if m + 1 < i {
        lemma_magnitude_order(m + 1, i);
    }
    assert forall|d: nat| !#[trigger] reads_as(d, 1100, m) by {
        if reads_as(d, 1100, m) {
            lemma_digits_positive(m, d, 1100);
            let x = tens(-1100) as int;
            let h = twice_midpoint(m);
            assert(h * x == h) by (nonlinear_arith)
                requires
                    x == 1,
            ;
            assert((d * t) * s >= pow2(1026) * s) by (nonlinear_arith)
                requires
                    d >= 1,
                    t >= pow2(1026),
                    s > 0,
            ;
        }
    }
}

/// From a place where a number has a decimal up to one where it has none, there is a
/// last one where it has.
proof fn lemma_last_place(m: int, e: int, top: int) -> (r: int)
    requires
        e < top,
        has_decimal(e, m),
        !has_decimal(top, m),
    ensures
        has_decimal(r, m),
        !has_decimal(r + 1, m),
    decreases top - e,
{
    if has_decimal(e + 1, m) {
        lemma_last_place(m, e + 1, top)
    } else {
        e
    }
}

/// Among the decimals of a place that read as a number there is a nearest one.
proof fn lemma_nearest_decimal(m: int, e: int, d: nat) -> (r: nat)
    requires
        reads_as(d, e, m),
    ensures
        reads_as(r, e, m),
        forall|c: nat| #[trigger]
            reads_as(c, e, m) ==> decimal_error(r, e, m) <= decimal_error(c, e, m),
        forall|c: nat| #[trigger]
            reads_as(c, e, m) && c > r ==> decimal_error(r, e, m) < decimal_error(c, e, m),
    decreases
            decimal_error(d, e, m),
            magnitude_value(m) * tens(-e) + decimal_error(d, e, m) - (d * tens(e)) * one(),
{
    if exists|c: nat| #[trigger]
        reads_as(c, e, m) && decimal_error(c, e, m) < decimal_error(d, e, m) {
        let c = choose|c: nat| #[trigger]
            reads_as(c, e, m) && decimal_error(c, e, m) < decimal_error(d, e, m);
        lemma_nearest_decimal(m, e, c)
    } else if exists|c: nat| #[trigger]
        reads_as(c, e, m) && c > d && decimal_error(c, e, m) <= decimal_error(d, e, m) {
        let c = choose|c: nat| #[trigger]
            reads_as(c, e, m) && c > d && decimal_error(c, e, m) <= decimal_error(d, e, m);
        let (t, s) = (tens(e) as int, one());
        lemma_tens_pos(e);
        lemma_pow2_pos(1074);
        assert((c * t) * s > (d * t) * s) by (nonlinear_arith)
            requires
                c > d,
                t > 0,
                s > 0,
        ;
        lemma_nearest_decimal(m, e, c)
    } else {
        d
    }
}

/// Every number has a shortest decimal.
pub proof fn shortest_exists(m: int) -> (r: (nat, int))
    requires
        0 < m < INFINITY_MAGNITUDE,
    ensures
        is_shortest(r.0, r.1, m),
{
    lemma_has_exact_decimal(m);
    lemma_has_no_coarse_decimal(m);
    let e = lemma_last_place(m, -1074, 1100);
    let d = choose|d: nat| #[trigger] reads_as(d, e, m);
    (lemma_nearest_decimal(m, e, d), e)
}

} // verus!
