//! Rounding of an exact quotient to the nearest number, ties to even.
use crate::double::{
    lemma_magnitude_order, lemma_magnitude_step, magnitude_gap, magnitude_value, HIDDEN_BIT,
    INFINITY_MAGNITUDE,
};
use vstd::arithmetic::power2::{
    lemma2_to64, lemma2_to64_rest, lemma_pow2_adds, lemma_pow2_pos, lemma_pow2_strictly_increases,
    lemma_pow2_unfold, pow2,
};
use vstd::prelude::*;

verus! {

/// Twice the midpoint between the numbers with magnitudes `m` and `m + 1`.
pub open spec fn twice_midpoint(m: int) -> int {
    magnitude_value(m) + magnitude_value(m + 1)
}

/// `num / den` lies no lower than the midpoint below the magnitude `m`, and on
/// that midpoint only if `m` is even.
pub open spec fn not_below(num: int, den: int, m: int) -> bool {
    m > 0 ==> {
        &&& twice_midpoint(m - 1) * den <= 2 * num
        &&& twice_midpoint(m - 1) * den == 2 * num ==> m % 2 == 0
    }
}

/// `num / den` lies no higher than the midpoint above the magnitude `m`, and on
/// that midpoint only if `m` is even.
pub open spec fn not_above(num: int, den: int, m: int) -> bool {
    &&& 2 * num <= twice_midpoint(m) * den
    &&& twice_midpoint(m) * den == 2 * num ==> m % 2 == 0
}

/// The magnitude `m` is the one nearest to `num / den` (in units of `2^-1074`).
/// Halfway between two numbers it is the even one. Whatever lies at or beyond the
/// midpoint between the greatest finite number and its successor goes to infinity.
pub open spec fn nearest(num: int, den: int, m: int) -> bool {
    &&& 0 <= m <= INFINITY_MAGNITUDE
    &&& not_below(num, den, m)
    &&& m < INFINITY_MAGNITUDE ==> not_above(num, den, m)
}

/// The magnitude nearest to `num / den`.
pub open spec fn round_magnitude(num: int, den: int) -> int {
    choose|m: int| nearest(num, den, m)
}

/// Midpoints are ordered as the magnitudes are.
pub proof fn lemma_midpoint_order(m: int, n: int)
    requires
        0 <= m < n,
    ensures
        twice_midpoint(m) < twice_midpoint(n),
{
    lemma_magnitude_order(m, n);
    lemma_magnitude_order(m + 1, n + 1);
}

/// There is only one nearest magnitude.
pub proof fn lemma_nearest_unique(num: int, den: int, m: int, n: int)
    requires
        den > 0,
        nearest(num, den, m),
        nearest(num, den, n),
    ensures
        m == n,
{
    lemma_nearest_at_least(num, den, m, n);
    lemma_nearest_at_least(num, den, n, m);
}

proof fn lemma_nearest_at_least(num: int, den: int, m: int, n: int)
    requires
        den > 0,
        nearest(num, den, m),
        nearest(num, den, n),
    ensures
        m >= n,
{
    let low = twice_midpoint(m);
    let high = twice_midpoint(n - 1);
    if m < n - 1 {
        lemma_midpoint_order(m, n - 1);
        assert(low * den < high * den) by (nonlinear_arith)
            requires
                low < high,
                den > 0,
        ;
    }
}

/// The nearest magnitude is what [`round_magnitude`] names.
pub proof fn lemma_round_is(num: int, den: int, m: int)
    requires
        den > 0,
        nearest(num, den, m),
    ensures
        round_magnitude(num, den) == m,
{
    lemma_nearest_unique(num, den, m, round_magnitude(num, den));
}

/// A common factor of the two numbers does not matter.
proof fn lemma_nearest_scaled(num: int, den: int, k: int, m: int)
    requires
        k > 0,
        nearest(num * k, den * k, m),
    ensures
        nearest(num, den, m),
{
    let below = twice_midpoint(m - 1);
    let above = twice_midpoint(m);
    assert(below * (den * k) == (below * den) * k) by (nonlinear_arith);
    assert(above * (den * k) == (above * den) * k) by (nonlinear_arith);
    assert(2 * (num * k) == (2 * num) * k) by (nonlinear_arith);
    lemma_cancel(below * den, 2 * num, k);
    lemma_cancel(above * den, 2 * num, k);
}

proof fn lemma_cancel(x: int, y: int, k: int)
    requires
        k > 0,
    ensures
        x * k <= y * k <==> x <= y,
        x * k == y * k <==> x == y,
{
    assert(x * k <= y * k <==> x <= y) by (nonlinear_arith)
        requires
            k > 0,
    ;
    assert(x * k == y * k <==> x == y) by (nonlinear_arith)
        requires
            k > 0,
    ;
}

/// The magnitude with significand `s` and exponent `e` stands for `s * 2^e`.
pub proof fn lemma_grid_value(e: int, s: int)
    requires
        0 <= e,
        0 <= s <= 2 * HIDDEN_BIT,
        e > 0 ==> HIDDEN_BIT <= s,
    ensures
        magnitude_value(e * HIDDEN_BIT + s) == s * pow2(e as nat),
        s < 2 * HIDDEN_BIT ==> magnitude_gap(e * HIDDEN_BIT + s) == pow2(e as nat),
        magnitude_gap(e * HIDDEN_BIT + s) >= pow2(e as nat),
{
    let h = HIDDEN_BIT as int;
    let m = e * h + s;
    lemma2_to64();
    lemma_pow2_pos(e as nat);
    if s == 2 * h {
        assert(m / h == e + 2 && m % h == 0) by (nonlinear_arith)
            requires
                m == e * h + 2 * h,
                h == 0x10_0000_0000_0000,
        ;
        lemma_pow2_unfold((e + 1) as nat);
        let p = pow2(e as nat);
        let q = pow2((e + 1) as nat);
        assert((h + 0) * q == (2 * h) * p) by (nonlinear_arith)
            requires
                q == 2 * p,
        ;
    } else if s >= h {
        assert(m / h == e + 1 && m % h == s - h) by (nonlinear_arith)
            requires
                m == e * h + s,
                h <= s < 2 * h,
                h == 0x10_0000_0000_0000,
        ;
    } else {
        assert(e == 0);
        assert(m == s);
        assert(m / h == 0 && m % h == s);
    }
}

/// A quotient within half a unit of the significand `s` at exponent `e` is nearest
/// to the number that they make. Here `unit` is that unit times the denominator.
proof fn lemma_nearest_on_grid(num: int, den: int, e: int, s: int, unit: int)
    requires
        den > 0,
        0 <= e,
        0 <= s <= 2 * HIDDEN_BIT,
        unit == pow2(e as nat) * den,
        -unit <= 2 * num - 2 * (s * unit) <= unit,
        2 * num - 2 * (s * unit) == unit ==> s % 2 == 0,
        2 * num - 2 * (s * unit) == -unit ==> s % 2 == 0,
        e > 0 ==> HIDDEN_BIT * unit <= num,
        e > 0 ==> HIDDEN_BIT <= s,
        num < 2 * HIDDEN_BIT * unit,
    ensures
        nearest(
            num,
            den,
            if e * HIDDEN_BIT + s < INFINITY_MAGNITUDE {
                e * HIDDEN_BIT + s
            } else {
                INFINITY_MAGNITUDE as int
            },
        ),
{
    let h = HIDDEN_BIT as int;
    let m = e * h + s;
    let p = pow2(e as nat) as int;
    lemma_pow2_pos(e as nat);
    assert(m >= 0) by (nonlinear_arith)
        requires
            m == e * h + s,
            e >= 0,
            h >= 0,
            s >= 0,
    ;
    assert(m % 2 == s % 2) by (nonlinear_arith)
        requires
            m == e * h + s,
            h == 0x10_0000_0000_0000,
    ;
    lemma_grid_value(e, s);
    lemma_magnitude_step(m);
    let v = magnitude_value(m);
    assert(v * den == s * unit) by (nonlinear_arith)
        requires
            v == s * p,
            unit == p * den,
    ;
    assert(unit > 0) by (nonlinear_arith)
        requires
            unit == p * den,
            p > 0,
            den > 0,
    ;
    // Above: the gap is the unit, or larger where the significand is at its limit.
    let g = magnitude_gap(m);
    assert(twice_midpoint(m) == 2 * v + g);
    assert(twice_midpoint(m) * den == 2 * (s * unit) + g * den) by (nonlinear_arith)
        requires
            twice_midpoint(m) == 2 * v + g,
            v * den == s * unit,
    ;
    assert(g * den >= unit) by (nonlinear_arith)
        requires
            g >= p,
            den > 0,
            unit == p * den,
    ;
    if s < 2 * h {
        assert(g * den == unit);
    } else {
        assert(2 * num < 2 * (s * unit)) by (nonlinear_arith)
            requires
                num < 2 * h * unit,
                s == 2 * h,
        ;
    }
    assert(not_above(num, den, m));
    // Below: the gap is the unit, or half of it where the exponent changes.
    if m > 0 {
        lemma_magnitude_step(m - 1);
        let b = magnitude_gap(m - 1);
        assert(twice_midpoint(m - 1) == 2 * v - b);
        assert(twice_midpoint(m - 1) * den == 2 * (s * unit) - b * den) by (nonlinear_arith)
            requires
                twice_midpoint(m - 1) == 2 * v - b,
                v * den == s * unit,
        ;
        if e > 0 && s == h {
            assert(b * den > 0) by (nonlinear_arith)
                requires
                    b >= 1,
                    den > 0,
            ;
            assert(2 * num >= 2 * (s * unit)) by (nonlinear_arith)
                requires
                    h * unit <= num,
                    s == h,
            ;
        } else {
            assert(s > 0);
            lemma_grid_value(e, s - 1);
            assert(m - 1 == e * h + (s - 1));
            assert(b == p);
        }
        assert(not_below(num, den, m));
    }
    if m >= INFINITY_MAGNITUDE {
        let i = INFINITY_MAGNITUDE as int;
        if m > i {
            lemma_midpoint_order(i - 1, m - 1);
            let x = twice_midpoint(i - 1);
            let y = twice_midpoint(m - 1);
            assert(x * den <= y * den) by (nonlinear_arith)
                requires
                    x < y,
                    den > 0,
            ;
        }
        assert(not_below(num, den, i));
    }
}

/// The exponent at which [`round`] counts in units of `2^-1074`.
pub const UNIT_EXPONENT: u32 = 1200;

/// `2^e` as a machine integer.
pub(crate) fn power_of_two(e: u32) -> (r: u128)
    requires
        e < 128,
    ensures
        r == pow2(e as nat),
{
    let mut r: u128 = 1;
    let mut i: u32 = 0;
    proof {
        lemma2_to64();
    }
    while i < e
        invariant
            i <= e < 128,
            r == pow2(i as nat),
        decreases e - i,
    {
        proof {
            lemma_pow2_unfold((i + 1) as nat);
            lemma_pow2_limit((i + 1) as nat);
        }
        r = r * 2;
        i = i + 1;
    }
    r
}

/// Powers of two below `2^128` fit in a machine integer.
proof fn lemma_pow2_limit(e: nat)
    requires
        e < 128,
    ensures
        pow2(e) <= 0x8000_0000_0000_0000_0000_0000_0000_0000,
{
    lemma_pow2_at_127();
    if e < 127 {
        lemma_pow2_strictly_increases(e, 127);
    }
}

/// How many binary digits `m` has.
pub(crate) fn bit_length(m: u128) -> (r: u32)
    requires
        m > 0,
        m < 0x8000_0000_0000_0000_0000_0000_0000_0000,
    ensures
        1 <= r <= 127,
        pow2((r - 1) as nat) <= m < pow2(r as nat),
{
    let mut n: u32 = 0;
    let mut rest: u128 = m;
    proof {
        lemma2_to64();
    }
    while rest > 0
        invariant
            0 < m < 0x8000_0000_0000_0000_0000_0000_0000_0000,
            n <= 127,
            rest * pow2(n as nat) <= m < (rest + 1) * pow2(n as nat),
            n > 0 ==> pow2((n - 1) as nat) <= m,
            n == 0 ==> rest == m,
        decreases rest,
    {
        let half: u128 = rest / 2;
        proof {
            let p = pow2(n as nat) as int;
            let q = pow2((n + 1) as nat) as int;
            lemma_pow2_pos(n as nat);
            lemma_pow2_unfold((n + 1) as nat);
            if n == 127 {
                lemma_pow2_at_127();
            }
            assert(p <= rest * p) by (nonlinear_arith)
                requires
                    rest >= 1,
                    p > 0,
            ;
            assert(half * q <= rest * p) by (nonlinear_arith)
                requires
                    2 * half <= rest,
                    q == 2 * p,
                    p > 0,
            ;
            assert((rest + 1) * p <= (half + 1) * q) by (nonlinear_arith)
                requires
                    rest <= 2 * half + 1,
                    q == 2 * p,
                    p > 0,
            ;
        }
        rest = half;
        n = n + 1;
    }
    assert((rest + 1) * pow2(n as nat) == pow2(n as nat)) by (nonlinear_arith)
        requires
            rest == 0,
    ;
    n
}

/// The quotient has the binary digits that its leading one and the exponent `e` of
/// its last digit promise.
proof fn lemma_round_range(x: int, den: int, m: int, t: nat, length: nat, e: nat, unit: nat)
    requires
        den > 0,
        1 <= length,
        pow2((length - 1) as nat) <= m < pow2(length),
        m * (pow2(t) * den) <= x < (m + 1) * (pow2(t) * den),
        e == if length + t > unit + 53 {
            length + t - unit - 53
        } else {
            0
        },
    ensures
        x < 2 * HIDDEN_BIT * (pow2(e + unit) * den),
        e > 0 ==> HIDDEN_BIT * (pow2(e + unit) * den) <= x,
        pow2(e + unit) * den > 0,
{
    let step = pow2(t) * den;
    let grid = pow2(e + unit) * den;
    lemma2_to64_rest();
    lemma_pow2_pos(t);
    lemma_pow2_pos(e + unit);
    assert(step > 0 && grid > 0) by (nonlinear_arith)
        requires
            step == pow2(t) * den,
            grid == pow2(e + unit) * den,
            pow2(t) > 0,
            pow2(e + unit) > 0,
            den > 0,
    ;
    let low = pow2((length - 1) as nat) as int;
    let high = pow2(length) as int;
    lemma_pow2_adds(length, t);
    lemma_pow2_adds(53, e + unit);
    if length + t < 53 + (e + unit) {
        lemma_pow2_strictly_increases(length + t, 53 + (e + unit));
    }
    assert(high * step <= pow2(53) * grid) by (nonlinear_arith)
        requires
            step == pow2(t) * den,
            grid == pow2(e + unit) * den,
            high * pow2(t) <= pow2(53) * pow2(e + unit),
            den > 0,
    ;
    assert((m + 1) * step <= high * step) by (nonlinear_arith)
        requires
            m + 1 <= high,
            step > 0,
    ;
    if e > 0 {
        lemma_pow2_adds((length - 1) as nat, t);
        lemma_pow2_adds(52, e + unit);
        assert((length - 1) as nat + t == 52 + (e + unit));
        assert(low * step == pow2(52) * grid) by (nonlinear_arith)
            requires
                step == pow2(t) * den,
                grid == pow2(e + unit) * den,
                low * pow2(t) == pow2(52) * pow2(e + unit),
        ;
        assert(low * step <= m * step) by (nonlinear_arith)
            requires
                low <= m,
                step > 0,
        ;
    }
}

/// A quotient whose last digit has an exponent beyond the format's is nearest to
/// infinity.
proof fn lemma_round_overflow(x: int, d: int, e: nat)
    requires
        d > 0,
        e >= 2046,
        HIDDEN_BIT * (pow2(e) * d) <= x,
    ensures
        nearest(x, d, INFINITY_MAGNITUDE as int),
{
    let i = INFINITY_MAGNITUDE as int;
    let p = pow2(2046) as int;
    let q = pow2(e) as int;
    if e > 2046 {
        lemma_pow2_strictly_increases(2046, e);
    }
    assert(i / (HIDDEN_BIT as int) == 2047 && i % (HIDDEN_BIT as int) == 0);
    assert(magnitude_value(i) == HIDDEN_BIT * p);
    lemma_magnitude_order(i - 1, i);
    let w = twice_midpoint(i - 1);
    assert(w * d <= 2 * x) by (nonlinear_arith)
        requires
            w <= 2 * (HIDDEN_BIT * p),
            HIDDEN_BIT * (q * d) <= x,
            p <= q,
            d > 0,
    ;
}

/// Dropping the digits below `2^k`, with `q` and `r` the quotient and remainder,
/// rounds `x`, which lies from `m` to `m + 1` steps.
proof fn lemma_round_digits(x: int, m: int, step: int, size: int, q: int, r: int, sticky: bool, up: bool)
    requires
        step > 0,
        size >= 2,
        size % 2 == 0,
        m == q * size + r,
        0 <= r < size,
        sticky ==> m * step < x < (m + 1) * step,
        !sticky ==> x == m * step,
        up == (2 * r > size || (2 * r == size && (sticky || q % 2 == 1))),
    ensures
        ({
            let s = if up {
                q + 1
            } else {
                q
            };
            let grid = size * step;
            &&& -grid <= 2 * x - 2 * (s * grid) <= grid
            &&& 2 * x - 2 * (s * grid) == grid ==> s % 2 == 0
            &&& 2 * x - 2 * (s * grid) == -grid ==> s % 2 == 0
        }),
{
    let grid = size * step;
    // `y` is what `x` exceeds `q` units by.
    let y = x - q * grid;
    assert(m * step == q * grid + r * step) by (nonlinear_arith)
        requires
            m == q * size + r,
            grid == size * step,
    ;
    assert((m + 1) * step == q * grid + (r + 1) * step) by (nonlinear_arith)
        requires
            m == q * size + r,
            grid == size * step,
    ;
    assert(r * step >= 0 && (r + 1) * step <= grid) by (nonlinear_arith)
        requires
            0 <= r,
            r + 1 <= size,
            grid == size * step,
            step > 0,
    ;
    assert(r * step < (r + 1) * step) by (nonlinear_arith)
        requires
            step > 0,
    ;
    if 2 * r < size {
        assert(2 * ((r + 1) * step) <= grid) by (nonlinear_arith)
            requires
                2 * (r + 1) <= size,
                grid == size * step,
                step > 0,
        ;
        assert(2 * y < grid);
    } else if 2 * r > size {
        assert(2 * (r * step) > grid) by (nonlinear_arith)
            requires
                2 * r > size,
                grid == size * step,
                step > 0,
        ;
    } else {
        assert(2 * (r * step) == grid) by (nonlinear_arith)
            requires
                2 * r == size,
                grid == size * step,
        ;
    }
    assert((q + 1) * grid == q * grid + grid) by (nonlinear_arith);
}

/// The magnitude nearest to `num / den`, where `num / den` is `m * 2^t` in units
/// of `2^-1200` of the least positive number, or, if `sticky`, lies strictly
/// between that and `(m + 1) * 2^t`.
pub(crate) fn round(m: u128, t: u32, sticky: bool, num: Ghost<int>, den: Ghost<int>) -> (r: u64)
    requires
        m < 0x7fff_ffff_ffff_ffff_ffff_ffff_ffff_ffff,
        t < 8000,
        den@ > 0,
        !sticky ==> num@ * pow2(UNIT_EXPONENT as nat) == m * (pow2(t as nat) * den@),
        sticky ==> {
            &&& m >= 0x80_0000_0000_0000
            &&& m * (pow2(t as nat) * den@) < num@ * pow2(UNIT_EXPONENT as nat)
            &&& num@ * pow2(UNIT_EXPONENT as nat) < (m + 1) * (pow2(t as nat) * den@)
        },
    ensures
        nearest(num@, den@, r as int),
        r == round_magnitude(num@, den@),
        r <= INFINITY_MAGNITUDE,
{
    let ghost unit = pow2(UNIT_EXPONENT as nat) as int;
    let ghost part = pow2(t as nat) as int;
    let ghost x = num@ * unit;
    let ghost d = den@ * unit;
    let ghost step = part * den@;
    proof {
        lemma_pow2_pos(UNIT_EXPONENT as nat);
        lemma_pow2_pos(t as nat);
        assert(d > 0) by (nonlinear_arith)
            requires
                d == den@ * unit,
                den@ > 0,
                unit > 0,
        ;
        assert(step > 0) by (nonlinear_arith)
            requires
                step == part * den@,
                den@ > 0,
                part > 0,
        ;
    }
    if m == 0 {
        proof {
            assert(num@ == 0) by (nonlinear_arith)
                requires
                    num@ * unit == 0,
                    unit > 0,
            ;
            lemma_magnitude_step(0);
            assert(twice_midpoint(0) == 1);
            lemma_round_is(num@, den@, 0);
        }
        return 0;
    }
    let length: u32 = bit_length(m);
    // The exponent of the result's last digit.
    let e: u32 = if length + t > UNIT_EXPONENT + 53 {
        length + t - UNIT_EXPONENT - 53
    } else {
        0
    };
    let ghost grid = pow2(e as nat) * d;
    proof {
        assert(x < (m + 1) * step) by (nonlinear_arith)
            requires
                x == m * step || x < (m + 1) * step,
                step > 0,
        ;
        lemma_round_range(
            x,
            den@,
            m as int,
            t as nat,
            length as nat,
            e as nat,
            UNIT_EXPONENT as nat,
        );
        lemma_pow2_adds(e as nat, UNIT_EXPONENT as nat);
        assert(grid == pow2((e + UNIT_EXPONENT) as nat) * den@) by (nonlinear_arith)
            requires
                grid == pow2(e as nat) * d,
                d == den@ * unit,
                pow2((e + UNIT_EXPONENT) as nat) == pow2(e as nat) * unit,
        ;
        assert(x < 2 * HIDDEN_BIT * grid);
        if sticky && length <= 55 {
            lemma2_to64_rest();
            if length < 55 {
                lemma_pow2_strictly_increases(length as nat, 55);
            }
        }
    }
    if e >= 2046 {
        proof {
            lemma_round_overflow(x, d, e as nat);
            lemma_nearest_scaled(num@, den@, unit, INFINITY_MAGNITUDE as int);
            lemma_round_is(num@, den@, INFINITY_MAGNITUDE as int);
        }
        return INFINITY_MAGNITUDE;
    }
    let s: u128 = if t >= e + UNIT_EXPONENT {
        let k: u32 = t - e - UNIT_EXPONENT;
        let factor: u128 = power_of_two(k);
        proof {
            lemma_pow2_adds(k as nat, (e + UNIT_EXPONENT) as nat);
            assert(step == factor * grid) by (nonlinear_arith)
                requires
                    step == part * den@,
                    part == factor * pow2((e + UNIT_EXPONENT) as nat),
                    grid == pow2((e + UNIT_EXPONENT) as nat) * den@,
            ;
            assert(x == (m * factor) * grid) by (nonlinear_arith)
                requires
                    x == m * step,
                    step == factor * grid,
            ;
            assert(m * factor < 2 * HIDDEN_BIT) by (nonlinear_arith)
                requires
                    x == (m * factor) * grid,
                    x < 2 * HIDDEN_BIT * grid,
                    grid > 0,
            ;
        }
        m * factor
    } else if e + UNIT_EXPONENT - t >= 128 {
        proof {
            let k = (e + UNIT_EXPONENT - t) as nat;
            lemma_pow2_adds(k, t as nat);
            lemma_pow2_unfold(128);
            lemma_pow2_at_127();
            if k > 128 {
                lemma_pow2_strictly_increases(128, k);
            }
            assert(grid == pow2(k) * step) by (nonlinear_arith)
                requires
                    step == part * den@,
                    pow2((e + UNIT_EXPONENT) as nat) == pow2(k) * part,
                    grid == pow2((e + UNIT_EXPONENT) as nat) * den@,
            ;
            assert(2 * ((m + 1) * step) <= grid) by (nonlinear_arith)
                requires
                    2 * (m + 1) <= pow2(k),
                    grid == pow2(k) * step,
                    step > 0,
            ;
        }
        0
    } else {
        let k: u32 = e + UNIT_EXPONENT - t;
        let size: u128 = power_of_two(k);
        proof {
            lemma_pow2_pos(k as nat);
            lemma_pow2_unfold(k as nat);
            lemma_pow2_pos((k - 1) as nat);
            lemma_pow2_limit(k as nat);
        }
        let q: u128 = m / size;
        let rest: u128 = m % size;
        let half: u128 = size / 2;
        let up: bool = rest > half || (rest == half && (sticky || q % 2 == 1));
        proof {
            vstd::arithmetic::div_mod::lemma_fundamental_div_mod(m as int, size as int);
            assert(m == q * size + rest) by (nonlinear_arith)
                requires
                    m == size * q + rest,
            ;
            lemma_round_digits(
                x,
                m as int,
                step,
                size as int,
                q as int,
                rest as int,
                sticky,
                up,
            );
            lemma_pow2_adds(k as nat, t as nat);
            assert(grid == size * step) by (nonlinear_arith)
                requires
                    step == part * den@,
                    pow2((e + UNIT_EXPONENT) as nat) == size * part,
                    grid == pow2((e + UNIT_EXPONENT) as nat) * den@,
            ;
            assert(q * grid <= x) by (nonlinear_arith)
                requires
                    m == q * size + rest,
                    rest >= 0,
                    grid == size * step,
                    x >= m * step,
                    step > 0,
            ;
            assert(q < 2 * HIDDEN_BIT) by (nonlinear_arith)
                requires
                    q * grid <= x,
                    x < 2 * HIDDEN_BIT * grid,
                    grid > 0,
            ;
        }
        if up {
            q + 1
        } else {
            q
        }
    };
    proof {
        if e > 0 {
            assert(HIDDEN_BIT <= s) by {
                lemma_at_least(x, HIDDEN_BIT as int, s as int, grid);
            }
        }
        lemma_nearest_on_grid(x, d, e as int, s as int, grid);
    }
    let r: u64 = e as u64 * HIDDEN_BIT + s as u64;
    if r < INFINITY_MAGNITUDE {
        proof {
            lemma_nearest_scaled(num@, den@, unit, r as int);
            lemma_round_is(num@, den@, r as int);
        }
        r
    } else {
        proof {
            lemma_nearest_scaled(num@, den@, unit, INFINITY_MAGNITUDE as int);
            lemma_round_is(num@, den@, INFINITY_MAGNITUDE as int);
        }
        INFINITY_MAGNITUDE
    }
}

/// What lies within half a unit of `s` units and is no less than `h` units has `s`
/// at least `h`.
proof fn lemma_at_least(x: int, h: int, s: int, grid: int)
    requires
        grid > 0,
        h * grid <= x,
        2 * x - 2 * (s * grid) <= grid,
    ensures
        h <= s,
{
    if s < h {
        assert((s + 1) * grid <= h * grid) by (nonlinear_arith)
            requires
                s + 1 <= h,
                grid > 0,
        ;
        assert((s + 1) * grid == s * grid + grid) by (nonlinear_arith);
    }
}

proof fn lemma_pow2_at_127()
    ensures
        pow2(127) == 0x8000_0000_0000_0000_0000_0000_0000_0000,
{
    lemma2_to64_rest();
    lemma2_to64();
    lemma_pow2_adds(63, 64);
    assert(pow2(127) == 0x8000_0000_0000_0000_0000_0000_0000_0000) by (nonlinear_arith)
        requires
            pow2(127) == pow2(63) * pow2(64),
            pow2(63) == 0x8000_0000_0000_0000,
            pow2(64) == 0x1_0000_0000_0000_0000,
    ;
}

} // verus!
