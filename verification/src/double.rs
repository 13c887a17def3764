//! Double-precision numbers in the IEEE 754 binary64 format, held as their bit
//! patterns.
//!
//! Every coordinate and every zoom factor of the canvas is a [`Double`]. A bit
//! pattern is a plain integer, so what a computation returns can be stated
//! exactly: a finite number is a whole multiple of `2^-1074`, the least positive
//! number of the format, and [`Double::value`] is that multiple.
use vstd::arithmetic::power2::{lemma2_to64, lemma_pow2_pos, lemma_pow2_unfold, pow2};
use vstd::prelude::*;

verus! {

/// The sign bit of a pattern.
pub const SIGN_BIT: u64 = 0x8000_0000_0000_0000;

/// The magnitude (the pattern without its sign bit) of an infinity. Every larger
/// magnitude is that of a NaN.
pub const INFINITY_MAGNITUDE: u64 = 0x7ff0_0000_0000_0000;

/// The pattern of the NaN that an operation without a numeric result returns.
pub const NAN_BITS: u64 = 0x7ff8_0000_0000_0000;

/// The bit that a normal number's significand has besides its stored fraction:
/// `2^52`. It is also the distance between the magnitudes of two numbers whose
/// exponents are consecutive and whose fractions are equal.
pub const HIDDEN_BIT: u64 = 0x10_0000_0000_0000;

/// A number in the binary64 format.
#[derive(Clone, Copy)]
pub struct Double {
    pub bits: u64,
}

/// The number that the magnitude `m` stands for, in units of `2^-1074`. The last
/// magnitude of a number, that of infinity, gets the value that would follow the
/// greatest finite number.
pub open spec fn magnitude_value(m: int) -> int {
    let exponent = m / (HIDDEN_BIT as int);
    let fraction = m % (HIDDEN_BIT as int);
    if exponent <= 0 {
        fraction
    } else {
        (HIDDEN_BIT + fraction) * pow2((exponent - 1) as nat)
    }
}

/// The distance from the number with magnitude `m` to the next larger one, in
/// units of `2^-1074`.
pub open spec fn magnitude_gap(m: int) -> int {
    let exponent = m / (HIDDEN_BIT as int);
    if exponent <= 0 {
        1
    } else {
        pow2((exponent - 1) as nat) as int
    }
}

/// The number with sign `negative` and magnitude `m`.
pub open spec fn signed(negative: bool, m: int) -> Double {
    if negative {
        Double { bits: (m + SIGN_BIT) as u64 }
    } else {
        Double { bits: m as u64 }
    }
}

/// The NaN that an operation without a numeric result returns.
pub open spec fn nan() -> Double {
    Double { bits: NAN_BITS }
}

/// The absolute value of an integer.
pub open spec fn abs_int(n: int) -> int {
    if n < 0 {
        -n
    } else {
        n
    }
}

impl Double {
    /// Whether the sign bit is set.
    pub open spec fn negative(self) -> bool {
        self.bits >= SIGN_BIT
    }

    /// The pattern without its sign bit.
    pub open spec fn magnitude(self) -> int {
        if self.negative() {
            self.bits - SIGN_BIT
        } else {
            self.bits as int
        }
    }

    /// Whether the pattern stands for no number.
    pub open spec fn nan(self) -> bool {
        self.magnitude() > INFINITY_MAGNITUDE
    }

    /// Whether the number is one of the two infinities.
    pub open spec fn infinite(self) -> bool {
        self.magnitude() == INFINITY_MAGNITUDE
    }

    /// Whether the pattern stands for a finite number.
    pub open spec fn finite(self) -> bool {
        self.magnitude() < INFINITY_MAGNITUDE
    }

    /// The number as a multiple of `2^-1074`. It is exact for a finite number; an
    /// infinity lies beyond all finite numbers of its sign.
    pub open spec fn value(self) -> int {
        if self.negative() {
            -magnitude_value(self.magnitude())
        } else {
            magnitude_value(self.magnitude())
        }
    }

    /// Whether `self` is numerically less than `other`. A NaN is not ordered.
    pub open spec fn spec_lt(self, other: Double) -> bool {
        !self.nan() && !other.nan() && self.value() < other.value()
    }

    /// Whether `self` is numerically at most `other`. A NaN is not ordered.
    pub open spec fn spec_le(self, other: Double) -> bool {
        !self.nan() && !other.nan() && self.value() <= other.value()
    }

    /// Whether both are the same number. The two zeros are; a NaN equals nothing.
    pub open spec fn spec_eq(self, other: Double) -> bool {
        !self.nan() && !other.nan() && self.value() == other.value()
    }

    /// The lesser of two numbers: the one that is no NaN, and `self` where they
    /// are equal.
    pub open spec fn spec_min(self, other: Double) -> Double {
        if self.nan() || other.spec_lt(self) {
            other
        } else {
            self
        }
    }

    /// The greater of two numbers: the one that is no NaN, and `self` where they
    /// are equal.
    pub open spec fn spec_max(self, other: Double) -> Double {
        if self.nan() || self.spec_lt(other) {
            other
        } else {
            self
        }
    }

    /// The number nearest to `self` between `low` and `high`; a NaN stays.
    pub open spec fn spec_clamp(self, low: Double, high: Double) -> Double {
        if self.spec_lt(low) {
            low
        } else if high.spec_lt(self) {
            high
        } else {
            self
        }
    }

    /// The number with the other sign.
    pub open spec fn spec_neg(self) -> Double {
        signed(!self.negative(), self.magnitude())
    }

    /// The number without its sign.
    pub open spec fn spec_abs(self) -> Double {
        signed(false, self.magnitude())
    }
}

/// Magnitudes are spaced by their gaps.
pub proof fn lemma_magnitude_step(m: int)
    requires
        0 <= m,
    ensures
        magnitude_value(m + 1) == magnitude_value(m) + magnitude_gap(m),
        magnitude_gap(m) >= 1,
{
    let h = HIDDEN_BIT as int;
    let e = m / h;
    let f = m % h;
    if e > 0 {
        lemma_pow2_pos((e - 1) as nat);
    }
    if f + 1 < h {
        assert((m + 1) / h == e && (m + 1) % h == f + 1);
        if e > 0 {
            let p = pow2((e - 1) as nat);
            assert((h + (f + 1)) * p == (h + f) * p + p) by (nonlinear_arith);
        }
    } else {
        assert((m + 1) / h == e + 1 && (m + 1) % h == 0);
        let q = pow2(e as nat);
        if e > 0 {
            lemma_pow2_unfold(e as nat);
            let p = pow2((e - 1) as nat);
            assert((h + 0) * q == (h + (h - 1)) * p + p) by (nonlinear_arith)
                requires
                    q == 2 * p,
            ;
        } else {
            assert(q == 1) by {
                lemma2_to64();
            }
        }
    }
}

/// A larger magnitude stands for a larger number.
pub proof fn lemma_magnitude_order(m: int, n: int)
    requires
        0 <= m < n,
    ensures
        magnitude_value(m) < magnitude_value(n),
        0 <= magnitude_value(m),
    decreases n,
{
    lemma_magnitude_nonnegative(m);
    lemma_magnitude_step(n - 1);
    if m < n - 1 {
        lemma_magnitude_order(m, n - 1);
    }
}

/// No magnitude stands for a negative number, and only zero for zero.
pub proof fn lemma_magnitude_nonnegative(m: int)
    requires
        0 <= m,
    ensures
        0 <= magnitude_value(m),
        magnitude_value(m) == 0 <==> m == 0,
{
    let h = HIDDEN_BIT as int;
    let e = m / h;
    let f = m % h;
    if e > 0 {
        let p = pow2((e - 1) as nat);
        lemma_pow2_pos((e - 1) as nat);
        assert((h + f) * p > 0) by (nonlinear_arith)
            requires
                h > 0,
                f >= 0,
                p > 0,
        ;
    }
}

/// Values order two numbers as their signed magnitudes do.
pub proof fn lemma_signed_order(a: Double, b: Double)
    ensures
        a.value() < b.value() <==> a.signed_magnitude() < b.signed_magnitude(),
        a.value() == b.value() <==> a.signed_magnitude() == b.signed_magnitude(),
{
    let m = a.magnitude();
    let n = b.magnitude();
    lemma_magnitude_nonnegative(m);
    lemma_magnitude_nonnegative(n);
    if m < n {
        lemma_magnitude_order(m, n);
    } else if n < m {
        lemma_magnitude_order(n, m);
    }
}

impl Double {
    /// The magnitude with the sign of the number.
    pub open spec fn signed_magnitude(self) -> int {
        if self.negative() {
            -self.magnitude()
        } else {
            self.magnitude()
        }
    }

    /// The number whose pattern is `bits`.
    pub fn from_bits(bits: u64) -> (r: Double)
        ensures
            r.bits == bits,
    {
        Double { bits }
    }

    /// The number's pattern.
    pub fn to_bits(self) -> (r: u64)
        ensures
            r == self.bits,
    {
        self.bits
    }

    pub(crate) fn from_parts(negative: bool, magnitude: u64) -> (r: Double)
        requires
            magnitude < SIGN_BIT,
        ensures
            r == signed(negative, magnitude as int),
            r.negative() == negative,
            r.magnitude() == magnitude,
    {
        if negative {
            Double { bits: magnitude + SIGN_BIT }
        } else {
            Double { bits: magnitude }
        }
    }

    /// Whether the sign bit is set.
    pub fn is_negative(self) -> (r: bool)
        ensures
            r == self.negative(),
    {
        self.bits >= SIGN_BIT
    }

    pub(crate) fn get_magnitude(self) -> (r: u64)
        ensures
            r == self.magnitude(),
            r < SIGN_BIT,
    {
        if self.bits >= SIGN_BIT {
            self.bits - SIGN_BIT
        } else {
            self.bits
        }
    }

    /// Whether the pattern stands for no number.
    pub fn is_nan(self) -> (r: bool)
        ensures
            r == self.nan(),
    {
        self.get_magnitude() > INFINITY_MAGNITUDE
    }

    /// Whether the pattern stands for a finite number.
    pub fn is_finite(self) -> (r: bool)
        ensures
            r == self.finite(),
    {
        self.get_magnitude() < INFINITY_MAGNITUDE
    }

    fn key(self) -> (r: i64)
        ensures
            r == self.signed_magnitude(),
    {
        let m: u64 = self.get_magnitude();
        if self.bits >= SIGN_BIT {
            -(m as i64)
        } else {
            m as i64
        }
    }

    /// Whether `self` is numerically less than `other`.
    pub fn less(self, other: Double) -> (r: bool)
        ensures
            r == self.spec_lt(other),
    {
        proof {
            lemma_signed_order(self, other);
        }
        !self.is_nan() && !other.is_nan() && self.key() < other.key()
    }

    /// Whether `self` is numerically at most `other`.
    pub fn at_most(self, other: Double) -> (r: bool)
        ensures
            r == self.spec_le(other),
    {
        proof {
            lemma_signed_order(self, other);
        }
        !self.is_nan() && !other.is_nan() && self.key() <= other.key()
    }

    /// Whether both are the same number.
    pub fn equals(self, other: Double) -> (r: bool)
        ensures
            r == self.spec_eq(other),
    {
        proof {
            lemma_signed_order(self, other);
        }
        !self.is_nan() && !other.is_nan() && self.key() == other.key()
    }

    /// The lesser of two numbers, ignoring a NaN.
    pub fn min(self, other: Double) -> (r: Double)
        ensures
            r == self.spec_min(other),
    {
        if self.is_nan() || other.less(self) {
            other
        } else {
            self
        }
    }

    /// The greater of two numbers, ignoring a NaN.
    pub fn max(self, other: Double) -> (r: Double)
        ensures
            r == self.spec_max(other),
    {
        if self.is_nan() || self.less(other) {
            other
        } else {
            self
        }
    }

    /// The number nearest to `self` between `low` and `high`; a NaN stays.
    pub fn clamp(self, low: Double, high: Double) -> (r: Double)
        requires
            low.spec_le(high),
        ensures
            r == self.spec_clamp(low, high),
            !self.nan() ==> low.spec_le(r) && r.spec_le(high),
    {
        if self.less(low) {
            low
        } else if high.less(self) {
            high
        } else {
            self
        }
    }

    /// The number with the other sign.
    pub fn neg(self) -> (r: Double)
        ensures
            r == self.spec_neg(),
            r.negative() == !self.negative(),
            r.magnitude() == self.magnitude(),
            r.value() == -self.value(),
    {
        Double::from_parts(!self.is_negative(), self.get_magnitude())
    }

    /// The number without its sign.
    pub fn abs(self) -> (r: Double)
        ensures
            r == self.spec_abs(),
            r.value() == abs_int(self.value()),
    {
        proof {
            lemma_magnitude_nonnegative(self.magnitude());
        }
        Double::from_parts(false, self.get_magnitude())
    }
}

impl PartialEq for Double {
    fn eq(&self, other: &Double) -> (r: bool) {
        (*self).equals(*other)
    }
}

impl vstd::std_specs::cmp::PartialEqSpecImpl for Double {
    open spec fn obeys_eq_spec() -> bool {
        true
    }

    open spec fn eq_spec(&self, other: &Double) -> bool {
        (*self).spec_eq(*other)
    }
}

} // verus!
