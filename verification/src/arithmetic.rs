//! Arithmetic on [`Double`]: each operation returns the number nearest to the exact
//! result, ties to even.
use crate::double::{
    abs_int, lemma_magnitude_nonnegative, lemma_magnitude_step, magnitude_gap, magnitude_value, nan,
    signed, Double, HIDDEN_BIT, INFINITY_MAGNITUDE, NAN_BITS,
};
use crate::rounding::{
    bit_length, lemma_grid_value, lemma_round_is, nearest, not_above, not_below, power_of_two,
    round, round_magnitude, twice_midpoint, UNIT_EXPONENT,
};
use vstd::arithmetic::power2::{
    lemma2_to64, lemma2_to64_rest, lemma_pow2_adds, lemma_pow2_pos, lemma_pow2_strictly_increases,
    lemma_pow2_unfold, pow2,
};
use vstd::prelude::*;

verus! {

/// The unit of [`Double::value`] is one over this.
pub open spec fn one() -> int {
    pow2(1074) as int
}

/// The number with sign `negative` that is nearest to `num / den` in magnitude.
pub open spec fn rounded(negative: bool, num: int, den: int) -> Double {
    signed(negative, round_magnitude(num, den))
}

/// The infinity with sign `negative`.
pub open spec fn infinity(negative: bool) -> Double {
    signed(negative, INFINITY_MAGNITUDE as int)
}

impl Double {
    /// The sum. The zero that two numbers cancel to is positive; the sum of two
    /// negative zeros is negative.
    pub open spec fn spec_add(self, other: Double) -> Double {
        let sum = self.value() + other.value();
        if self.nan() || other.nan() {
            nan()
        } else if self.infinite() && other.infinite() && self.negative() != other.negative() {
            nan()
        } else if self.infinite() {
            self
        } else if other.infinite() {
            other
        } else if sum == 0 {
            signed(self.negative() && other.negative(), 0)
        } else {
            rounded(sum < 0, abs_int(sum), 1)
        }
    }

    /// The difference: the sum with the other sign.
    pub open spec fn spec_sub(self, other: Double) -> Double {
        self.spec_add(other.spec_neg())
    }

    /// The product. It is negative if exactly one factor is.
    pub open spec fn spec_mul(self, other: Double) -> Double {
        let negative = self.negative() != other.negative();
        if self.nan() || other.nan() {
            nan()
        } else if self.infinite() || other.infinite() {
            if self.value() == 0 || other.value() == 0 {
                nan()
            } else {
                infinity(negative)
            }
        } else {
            rounded(negative, abs_int(self.value()) * abs_int(other.value()), one())
        }
    }

    /// The quotient. It is negative if exactly one operand is.
    pub open spec fn spec_div(self, other: Double) -> Double {
        let negative = self.negative() != other.negative();
        if self.nan() || other.nan() {
            nan()
        } else if self.infinite() {
            if other.infinite() {
                nan()
            } else {
                infinity(negative)
            }
        } else if other.infinite() {
            signed(negative, 0)
        } else if other.value() == 0 {
            if self.value() == 0 {
                nan()
            } else {
                infinity(negative)
            }
        } else {
            rounded(negative, abs_int(self.value()) * one(), abs_int(other.value()))
        }
    }

    /// The remainder of the division that truncates: it has the sign of `self`.
    pub open spec fn spec_rem(self, other: Double) -> Double {
        if self.nan() || other.nan() || self.infinite() || other.value() == 0 {
            nan()
        } else if other.infinite() {
            self
        } else {
            rounded(self.negative(), abs_int(self.value()) % abs_int(other.value()), 1)
        }
    }

    /// The least nonnegative remainder.
    pub open spec fn spec_rem_euclid(self, other: Double) -> Double {
        let r = self.spec_rem(other);
        if r.spec_lt(signed(false, 0)) {
            r.spec_add(other.spec_abs())
        } else {
            r
        }
    }
}

/// The significand and the exponent of a finite number.
pub fn decode(m: u64) -> (r: (u64, u32))
    requires
        m < INFINITY_MAGNITUDE,
    ensures
        magnitude_value(m as int) == r.0 * pow2(r.1 as nat),
        r.0 < 2 * HIDDEN_BIT,
        r.1 <= 2045,
        r.1 > 0 ==> r.0 >= HIDDEN_BIT,
        r.1 > 0 ==> magnitude_gap(m as int) == pow2(r.1 as nat),
        m == r.1 * HIDDEN_BIT + r.0,
        r.0 == 0 <==> m == 0,
{
    let e: u64 = m / HIDDEN_BIT;
    let f: u64 = m % HIDDEN_BIT;
    proof {
        lemma2_to64();
        assert(f * pow2(0) == f) by (nonlinear_arith)
            requires
                pow2(0) == 1,
        ;
    }
    if e == 0 {
        (f, 0)
    } else {
        (HIDDEN_BIT + f, (e - 1) as u32)
    }
}

pub proof fn lemma_abs_value(a: Double)
    ensures
        abs_int(a.value()) == magnitude_value(a.magnitude()),
        a == signed(a.negative(), a.magnitude()),
        a.value() == 0 <==> a.magnitude() == 0,
{
    lemma_magnitude_nonnegative(a.magnitude());
}

/// A summand more than sixty-four binary places below the other does not change it.
proof fn lemma_absorbed(hi: Double, lo: Double, s: int, e: nat, f: nat)
    requires
        hi.finite(),
        HIDDEN_BIT <= s < 2 * HIDDEN_BIT,
        magnitude_value(hi.magnitude()) == s * pow2(e),
        magnitude_gap(hi.magnitude()) == pow2(e),
        hi.magnitude() == e * HIDDEN_BIT + s,
        magnitude_value(lo.magnitude()) <= 2 * HIDDEN_BIT * pow2(f),
        e > f + 64,
    ensures
        hi.value() + lo.value() != 0,
        rounded(hi.value() + lo.value() < 0, abs_int(hi.value() + lo.value()), 1) == hi,
{
    let m = hi.magnitude();
    let v = magnitude_value(m);
    let w = magnitude_value(lo.magnitude());
    let p = pow2(e) as int;
    lemma_abs_value(hi);
    lemma_abs_value(lo);
    lemma_pow2_pos(f);
    // The other summand is less than a quarter of the distance to either side.
    lemma_pow2_adds(f, 64);
    lemma_pow2_strictly_increases(f + 64, e);
    lemma2_to64();
    assert(4 * w < p) by (nonlinear_arith)
        requires
            w <= 2 * HIDDEN_BIT * pow2(f),
            pow2(f) * 0x1_0000_0000_0000_0000 < p,
            HIDDEN_BIT == 0x10_0000_0000_0000,
            pow2(f) > 0,
    ;
    assert(v >= p) by (nonlinear_arith)
        requires
            v == s * p,
            s >= 1,
            p > 0,
    ;
    let num = abs_int(hi.value() + lo.value());
    assert(v - w <= num <= v + w);
    lemma_magnitude_step(m);
    assert(not_above(num, 1, m));
    lemma_magnitude_step(m - 1);
    if s > HIDDEN_BIT {
        lemma_grid_value(e as int, s - 1);
        assert(m - 1 == e * HIDDEN_BIT + (s - 1));
        assert(magnitude_gap(m - 1) == p);
    } else {
        lemma_pow2_unfold(e);
        lemma_grid_value(e - 1, 2 * HIDDEN_BIT - 1);
        assert(m - 1 == (e - 1) * HIDDEN_BIT + (2 * HIDDEN_BIT - 1)) by (nonlinear_arith)
            requires
                m == e * HIDDEN_BIT + s,
                s == HIDDEN_BIT,
        ;
        assert(2 * magnitude_gap(m - 1) == p);
    }
    assert(twice_midpoint(m - 1) == 2 * v - magnitude_gap(m - 1));
    assert(not_below(num, 1, m));
    assert(nearest(num, 1, m));
    lemma_round_is(num, 1, m);
}

impl Double {
    /// The sum of two numbers.
    pub fn plus(self, other: Double) -> (r: Double)
        ensures
            r == self.spec_add(other),
    {
        if self.is_nan() || other.is_nan() {
            return Double { bits: NAN_BITS };
        }
        if !self.is_finite() {
            if !other.is_finite() && self.is_negative() != other.is_negative() {
                return Double { bits: NAN_BITS };
            }
            return self;
        }
        if !other.is_finite() {
            return other;
        }
        let (s1, e1): (u64, u32) = decode(self.get_magnitude());
        let (s2, e2): (u64, u32) = decode(other.get_magnitude());
        proof {
            lemma_abs_value(self);
            lemma_abs_value(other);
        }
        if e1 > e2 + 64 {
            proof {
                assert(s2 * pow2(e2 as nat) <= 2 * HIDDEN_BIT * pow2(e2 as nat)) by (nonlinear_arith)
                    requires
                        s2 < 2 * HIDDEN_BIT,
                ;
                lemma_absorbed(self, other, s1 as int, e1 as nat, e2 as nat);
            }
            return self;
        }
        if e2 > e1 + 64 {
            proof {
                assert(s1 * pow2(e1 as nat) <= 2 * HIDDEN_BIT * pow2(e1 as nat)) by (nonlinear_arith)
                    requires
                        s1 < 2 * HIDDEN_BIT,
                ;
                lemma_absorbed(other, self, s2 as int, e2 as nat, e1 as nat);
            }
            return other;
        }
        let e: u32 = if e1 < e2 {
            e1
        } else {
            e2
        };
        let n1: i128 = aligned(self.is_negative(), s1, e1, e);
        let n2: i128 = aligned(other.is_negative(), s2, e2, e);
        let n: i128 = n1 + n2;
        let ghost sum = self.value() + other.value();
        let ghost p = pow2(e as nat) as int;
        proof {
            lemma_pow2_pos(e as nat);
            assert(sum == n * p) by (nonlinear_arith)
                requires
                    self.value() == n1 * p,
                    other.value() == n2 * p,
                    sum == self.value() + other.value(),
                    n == n1 + n2,
            ;
            assert((sum == 0 <==> n == 0) && (sum < 0 <==> n < 0)) by (nonlinear_arith)
                requires
                    sum == n * p,
                    p > 0,
            ;
        }
        if n == 0 {
            return Double::from_parts(self.is_negative() && other.is_negative(), 0);
        }
        let size: u128 = if n < 0 {
            (-n) as u128
        } else {
            n as u128
        };
        proof {
            let u = pow2(UNIT_EXPONENT as nat) as int;
            lemma_pow2_adds(e as nat, UNIT_EXPONENT as nat);
            assert(abs_int(sum) == size * p) by (nonlinear_arith)
                requires
                    sum == n * p,
                    size == abs_int(n as int),
                    p > 0,
            ;
            assert(abs_int(sum) * u == size * (pow2((e + UNIT_EXPONENT) as nat) * 1))
                by (nonlinear_arith)
                requires
                    abs_int(sum) == size * p,
                    pow2((e + UNIT_EXPONENT) as nat) == p * u,
            ;
        }
        let m: u64 = round(size, e + UNIT_EXPONENT, false, Ghost(abs_int(sum)), Ghost(1int));
        Double::from_parts(n < 0, m)
    }
}

/// A significand at exponent `e`, with its sign, moved to the exponent `f`.
fn aligned(negative: bool, s: u64, e: u32, f: u32) -> (r: i128)
    requires
        s < 2 * HIDDEN_BIT,
        f <= e <= f + 64,
    ensures
        r * pow2(f as nat) == if negative {
            -(s * pow2(e as nat))
        } else {
            s * pow2(e as nat)
        },
        -0x20_0000_0000_0000_0000_0000_0000_0000 < r < 0x20_0000_0000_0000_0000_0000_0000_0000,
{
    let factor: u128 = power_of_two(e - f);
    proof {
        lemma2_to64();
        if e - f < 64 {
            lemma_pow2_strictly_increases((e - f) as nat, 64);
        }
        assert(s * factor < 0x20_0000_0000_0000_0000_0000_0000_0000) by (nonlinear_arith)
            requires
                0 <= s < 0x20_0000_0000_0000,
                0 <= factor <= 0x1_0000_0000_0000_0000,
        ;
        lemma_pow2_adds((e - f) as nat, f as nat);
        assert((s * factor) * pow2(f as nat) == s * pow2(e as nat)) by (nonlinear_arith)
            requires
                pow2(e as nat) == factor * pow2(f as nat),
        ;
        assert((-(s * factor)) * pow2(f as nat) == -((s * factor) * pow2(f as nat)))
            by (nonlinear_arith);
    }
    let n: i128 = (s as u128 * factor) as i128;
    if negative {
        -n
    } else {
        n
    }
}

impl Double {
    /// The difference of two numbers.
    pub fn minus(self, other: Double) -> (r: Double)
        ensures
            r == self.spec_sub(other),
    {
        self.plus(other.neg())
    }

    /// The product of two numbers.
    pub fn times(self, other: Double) -> (r: Double)
        ensures
            r == self.spec_mul(other),
    {
        let negative: bool = self.is_negative() != other.is_negative();
        proof {
            lemma_abs_value(self);
            lemma_abs_value(other);
        }
        if self.is_nan() || other.is_nan() {
            return Double { bits: NAN_BITS };
        }
        if !self.is_finite() || !other.is_finite() {
            if self.get_magnitude() == 0 || other.get_magnitude() == 0 {
                return Double { bits: NAN_BITS };
            }
            return Double::from_parts(negative, INFINITY_MAGNITUDE);
        }
        let (s1, e1): (u64, u32) = decode(self.get_magnitude());
        let (s2, e2): (u64, u32) = decode(other.get_magnitude());
        let ghost num = abs_int(self.value()) * abs_int(other.value());
        proof {
            assert(s1 * s2 < 0x400_0000_0000_0000_0000_0000_0000) by (nonlinear_arith)
                requires
                    0 <= s1 < 0x20_0000_0000_0000,
                    0 <= s2 < 0x20_0000_0000_0000,
            ;
            assert(s1 * s2 >= 0) by (nonlinear_arith)
                requires
                    0 <= s1,
                    0 <= s2,
            ;
            let p = pow2(e1 as nat) as int;
            let q = pow2(e2 as nat) as int;
            let u = pow2(UNIT_EXPONENT as nat) as int;
            lemma_pow2_adds(e1 as nat, e2 as nat);
            lemma_pow2_adds((e1 + e2) as nat, UNIT_EXPONENT as nat);
            lemma_pow2_adds((e1 + e2 + 126) as nat, 1074);
            lemma_pow2_pos(1074);
            let w = pow2((e1 + e2 + 126) as nat) * one();
            assert(w == p * q * u);
            assert(num * u == (s1 * s2) * w) by (nonlinear_arith)
                requires
                    num == (s1 * p) * (s2 * q),
                    w == p * q * u,
            ;
        }
        let product: u128 = s1 as u128 * s2 as u128;
        let m: u64 = round(product, e1 + e2 + 126, false, Ghost(num), Ghost(one()));
        Double::from_parts(negative, m)
    }

    /// The quotient of two numbers.
    pub fn over(self, other: Double) -> (r: Double)
        ensures
            r == self.spec_div(other),
    {
        let negative: bool = self.is_negative() != other.is_negative();
        proof {
            lemma_abs_value(self);
            lemma_abs_value(other);
        }
        if self.is_nan() || other.is_nan() {
            return Double { bits: NAN_BITS };
        }
        if !self.is_finite() {
            if !other.is_finite() {
                return Double { bits: NAN_BITS };
            }
            return Double::from_parts(negative, INFINITY_MAGNITUDE);
        }
        if !other.is_finite() {
            return Double::from_parts(negative, 0);
        }
        if other.get_magnitude() == 0 {
            if self.get_magnitude() == 0 {
                return Double { bits: NAN_BITS };
            }
            return Double::from_parts(negative, INFINITY_MAGNITUDE);
        }
        let ghost num = abs_int(self.value()) * one();
        let ghost den = abs_int(other.value());
        if self.get_magnitude() == 0 {
            proof {
                assert(num == 0) by (nonlinear_arith)
                    requires
                        num == abs_int(self.value()) * one(),
                        abs_int(self.value()) == 0,
                ;
                lemma_magnitude_step(0);
                assert(twice_midpoint(0) == 1);
                assert(nearest(num, den, 0));
                lemma_round_is(num, den, 0);
            }
            return Double::from_parts(negative, 0);
        }
        let (s1, e1): (u64, u32) = decode(self.get_magnitude());
        let (s2, e2): (u64, u32) = decode(other.get_magnitude());
        // Long division of the significands, with enough digits to round by.
        let length: u32 = bit_length(s1 as u128);
        proof {
            lemma2_to64_rest();
            if length > 53 {
                lemma_pow2_adds(53, (length - 1 - 53) as nat);
                lemma_pow2_pos((length - 1 - 53) as nat);
                assert(pow2((length - 1) as nat) >= pow2(53)) by (nonlinear_arith)
                    requires
                        pow2((length - 1) as nat) == pow2(53) * pow2((length - 1 - 53) as nat),
                        pow2((length - 1 - 53) as nat) >= 1,
                ;
            }
        }
        let k: u32 = 53 - length + 64;
        let factor: u128 = power_of_two(k);
        let ghost n = s1 * factor;
        proof {
            let low = pow2((length - 1) as nat) as int;
            let high = pow2(length as nat) as int;
            lemma_pow2_adds((length - 1) as nat, k as nat);
            lemma_pow2_adds(length as nat, k as nat);
            lemma2_to64();
            lemma_pow2_adds(52, 64);
            lemma_pow2_adds(53, 64);
            assert((length - 1) as nat + k as nat == 116);
            assert(length as nat + k as nat == 117);
            lemma_pow2_pos(k as nat);
            assert(low * factor <= n < high * factor) by (nonlinear_arith)
                requires
                    low <= s1 < high,
                    factor > 0,
                    n == s1 * factor,
            ;
            assert(0x10_0000_0000_0000_0000_0000_0000_0000 <= n < 0x20_0000_0000_0000_0000_0000_0000_0000);
        }
        let dividend: u128 = s1 as u128 * factor;
        let q: u128 = dividend / (s2 as u128);
        let rest: u128 = dividend % (s2 as u128);
        let t: u32 = e1 + 1074 + UNIT_EXPONENT - k - e2;
        proof {
            let v = s2 as int;
            vstd::arithmetic::div_mod::lemma_fundamental_div_mod(dividend as int, v);
            assert(q >= 0x8000_0000_0000_0000) by (nonlinear_arith)
                requires
                    dividend == v * q + rest,
                    0 <= rest < v,
                    v < 0x20_0000_0000_0000,
                    dividend >= 0x10_0000_0000_0000_0000_0000_0000_0000,
            ;
            let u = pow2(UNIT_EXPONENT as nat) as int;
            let p = pow2(e1 as nat) as int;
            let w = pow2((t + e2) as nat) as int;
            lemma_pow2_pos((t + e2) as nat);
            lemma_pow2_adds(t as nat, e2 as nat);
            lemma_pow2_adds((t + e2) as nat, k as nat);
            lemma_pow2_adds(e1 as nat, 1074);
            lemma_pow2_adds((e1 + 1074) as nat, UNIT_EXPONENT as nat);
            assert((t + e2) as nat + k as nat == (e1 + 1074) as nat + UNIT_EXPONENT as nat);
            assert(w * factor == p * one() * u);
            let g = pow2(t as nat) * den;
            assert(g == w * v) by (nonlinear_arith)
                requires
                    den == v * pow2(e2 as nat),
                    w == pow2(t as nat) * pow2(e2 as nat),
                    g == pow2(t as nat) * den,
            ;
            assert(num * u == dividend * w) by (nonlinear_arith)
                requires
                    num == (s1 * p) * one(),
                    w * factor == p * one() * u,
                    dividend == s1 * factor,
            ;
            assert(dividend * w == q * g + rest * w) by (nonlinear_arith)
                requires
                    dividend == v * q + rest,
                    g == w * v,
            ;
            assert((q + 1) * g == q * g + v * w) by (nonlinear_arith)
                requires
                    g == w * v,
            ;
            assert(rest * w < v * w && (rest > 0 ==> rest * w > 0) && (rest == 0 ==> rest * w == 0))
                by (nonlinear_arith)
                requires
                    0 <= rest < v,
                    w > 0,
            ;
        }
        let m: u64 = round(q, t, rest != 0, Ghost(num), Ghost(den));
        Double::from_parts(negative, m)
    }
}

/// The remainder of `s * 2^k` modulo `d`, found digit by digit.
fn scaled_remainder(s: u64, k: u32, d: u64) -> (r: u64)
    requires
        0 < d < 2 * HIDDEN_BIT,
        k <= 2045,
    ensures
        r as int == (s * pow2(k as nat)) % (d as int),
        r < d,
{
    let mut r: u64 = s % d;
    let mut i: u32 = 0;
    proof {
        lemma2_to64();
        assert(s * pow2(0) == s) by (nonlinear_arith)
            requires
                pow2(0) == 1,
        ;
    }
    while i < k
        invariant
            i <= k,
            0 < d < 2 * HIDDEN_BIT,
            r < d,
            r as int == (s * pow2(i as nat)) % (d as int),
        decreases k - i,
    {
        proof {
            let x = s * pow2(i as nat);
            lemma_pow2_unfold((i + 1) as nat);
            assert(s * pow2((i + 1) as nat) == 2 * x) by (nonlinear_arith)
                requires
                    x == s * pow2(i as nat),
                    pow2((i + 1) as nat) == 2 * pow2(i as nat),
            ;
            vstd::arithmetic::div_mod::lemma_mul_mod_noop_right(2, x, d as int);
        }
        r = (2 * r) % d;
        i = i + 1;
    }
    r
}

/// A common factor of dividend and divisor is one of the remainder.
pub proof fn lemma_remainder_scaled(a: int, b: int, p: int)
    requires
        0 <= a,
        b > 0,
        p > 0,
    ensures
        (a * p) % (b * p) == (a % b) * p,
{
    vstd::arithmetic::div_mod::lemma_fundamental_div_mod(a, b);
    let q = a / b;
    let r = a % b;
    assert(a * p == q * (b * p) + r * p) by (nonlinear_arith)
        requires
            a == b * q + r,
    ;
    assert(0 <= r * p < b * p) by (nonlinear_arith)
        requires
            0 <= r < b,
            p > 0,
    ;
    vstd::arithmetic::div_mod::lemma_fundamental_div_mod_converse(a * p, b * p, q, r * p);
}

impl Double {
    /// The remainder of the division that truncates.
    pub fn rem(self, other: Double) -> (r: Double)
        ensures
            r == self.spec_rem(other),
    {
        proof {
            lemma_abs_value(self);
            lemma_abs_value(other);
        }
        if self.is_nan() || other.is_nan() || !self.is_finite() || other.get_magnitude() == 0 {
            return Double { bits: NAN_BITS };
        }
        if !other.is_finite() {
            return self;
        }
        let (s1, e1): (u64, u32) = decode(self.get_magnitude());
        let (s2, e2): (u64, u32) = decode(other.get_magnitude());
        let ghost p = pow2(e1 as nat) as int;
        let ghost q = pow2(e2 as nat) as int;
        let ghost a = s1 * p;
        let ghost b = s2 * q;
        let ghost num = a % b;
        proof {
            lemma_pow2_pos(e1 as nat);
            lemma_pow2_pos(e2 as nat);
        }
        let (r, e): (u64, u32) = if e1 >= e2 {
            let k: u32 = e1 - e2;
            proof {
                lemma_pow2_adds(k as nat, e2 as nat);
                assert(a == (s1 * pow2(k as nat)) * q) by (nonlinear_arith)
                    requires
                        a == s1 * p,
                        p == pow2(k as nat) * q,
                ;
                assert(s1 * pow2(k as nat) >= 0) by (nonlinear_arith)
                    requires
                        s1 >= 0,
                        pow2(k as nat) >= 0,
                ;
                lemma_remainder_scaled(s1 * pow2(k as nat), s2 as int, q);
            }
            (scaled_remainder(s1, k, s2), e2)
        } else {
            let k: u32 = e2 - e1;
            proof {
                lemma_pow2_adds(k as nat, e1 as nat);
                assert(b == (s2 * pow2(k as nat)) * p) by (nonlinear_arith)
                    requires
                        b == s2 * q,
                        q == pow2(k as nat) * p,
                ;
                lemma_pow2_pos(k as nat);
                assert(s2 * pow2(k as nat) > 0) by (nonlinear_arith)
                    requires
                        s2 > 0,
                        pow2(k as nat) > 0,
                ;
                lemma_remainder_scaled(s1 as int, s2 * pow2(k as nat), p);
                lemma2_to64();
                if k >= 2 {
                    if k > 2 {
                        lemma_pow2_strictly_increases(2, k as nat);
                    }
                    assert(s1 < s2 * pow2(k as nat)) by (nonlinear_arith)
                        requires
                            s1 < 2 * HIDDEN_BIT,
                            s2 >= HIDDEN_BIT,
                            pow2(k as nat) >= 4,
                    ;
                    vstd::arithmetic::div_mod::lemma_small_mod(s1 as nat, (s2 * pow2(k as nat)) as nat);
                }
            }
            if k == 1 {
                (s1 % (s2 * 2), e1)
            } else {
                (s1, e1)
            }
        };
        proof {
            let u = pow2(UNIT_EXPONENT as nat) as int;
            let w = pow2(e as nat) as int;
            lemma_pow2_adds(e as nat, UNIT_EXPONENT as nat);
            assert(num * u == r * (pow2((e + UNIT_EXPONENT) as nat) * 1)) by (nonlinear_arith)
                requires
                    num == r * w,
                    pow2((e + UNIT_EXPONENT) as nat) == w * u,
            ;
        }
        let m: u64 = round(r as u128, e + UNIT_EXPONENT, false, Ghost(num), Ghost(1int));
        Double::from_parts(self.is_negative(), m)
    }

    /// The least nonnegative remainder.
    pub fn rem_euclid(self, other: Double) -> (r: Double)
        ensures
            r == self.spec_rem_euclid(other),
    {
        let r: Double = self.rem(other);
        if r.less(Double { bits: 0 }) {
            r.plus(other.abs())
        } else {
            r
        }
    }
}

} // verus!
