//! Numbers with a given number of decimals.
use crate::arithmetic::one;
use crate::decimal::{is_scaled, lemma_pow2_tens, lemma_same_order, next_digit, start};
use crate::digits::{
    append_digit, decimal_text, digit_text, last_digits, lemma_tens_order, lemma_tens_pos, tens,
};
use crate::double::{magnitude_value, INFINITY_MAGNITUDE};
use crate::natural::Natural;
use vstd::arithmetic::div_mod::{lemma_div_denominator, lemma_fundamental_div_mod_converse};
use vstd::arithmetic::power2::lemma_pow2_pos;
use vstd::prelude::*;

verus! {

/// The whole number nearest to `num / den`; halfway between two it is the even one.
pub open spec fn round_half_even(num: int, den: int) -> int {
    let (quotient, rest) = (num / den, num % den);
    if 2 * rest > den || (2 * rest == den && quotient % 2 == 1) {
        quotient + 1
    } else {
        quotient
    }
}

/// The number with magnitude `m` in units of `10^-places`, rounded.
pub open spec fn fixed_digits(m: int, places: nat) -> nat {
    round_half_even(magnitude_value(m) * tens(places as int), one()) as nat
}

/// The number with magnitude `m`, rounded to so many decimals.
pub open spec fn fixed_text(m: int, places: nat) -> Seq<char> {
    let n = fixed_digits(m, places);
    if places == 0 {
        decimal_text(n)
    } else {
        decimal_text(n / tens(places as int)) + "."@ + last_digits(n, places)
    }
}

/// The number that some digits stand for, the most significant one first.
pub open spec fn digits_value(s: Seq<u8>) -> nat
    decreases s.len(),
{
    if s.len() == 0 {
        0
    } else {
        10 * digits_value(s.drop_last()) + s.last() as nat
    }
}

/// Whether all are decimal digits.
pub open spec fn are_digits(s: Seq<u8>) -> bool {
    forall|i: int| 0 <= i < s.len() ==> #[trigger] s[i] <= 9
}

/// Adds one to the number that some digits stand for.
fn increment(digits: &mut Vec<u8>)
    requires
        are_digits(old(digits)@),
    ensures
        are_digits(final(digits)@),
        digits_value(final(digits)@) == digits_value(old(digits)@) + 1,
        final(digits)@.len() >= old(digits)@.len(),
    decreases old(digits)@.len(),
{
    let ghost before = digits@;
    match digits.pop() {
        None => {
            digits.push(1);
            assert(digits@.drop_last() =~= before);
        },
        Some(d) => {
            if d < 9 {
                digits.push(d + 1);
                assert(digits@.drop_last() =~= before.drop_last());
            } else {
                increment(digits);
                let ghost carried = digits@;
                digits.push(0);
                assert(digits@.drop_last() =~= carried);
            }
        },
    }
}

/// Appends the next `count` digits of `rest / scale`, and returns what is left over.
fn push_digits(digits: &mut Vec<u8>, rest: Natural, scale: &Natural, count: usize) -> (r: Natural)
    requires
        are_digits(old(digits)@),
        rest@ < scale@,
    ensures
        are_digits(final(digits)@),
        final(digits)@.len() == old(digits)@.len() + count,
        r@ < scale@,
        digits_value(final(digits)@) * scale@ + r@ == (digits_value(old(digits)@) * scale@ + rest@)
            * tens(count as int),
{
    let ghost s = scale@;
    let ghost all = digits_value(digits@) * s + rest@;
    let mut left: Natural = rest;
    let mut i: usize = 0;
    proof {
        let t = tens(0);
        assert(all * t == all) by (nonlinear_arith)
            requires
                t == 1,
        ;
    }
    while i < count
        invariant
            i <= count,
            s == scale@,
            are_digits(digits@),
            digits@.len() == old(digits)@.len() + i,
            left@ < s,
            digits_value(digits@) * s + left@ == all * tens(i as int),
        decreases count - i,
    {
        let ghost before = digits@;
        let ghost (v, r) = (digits_value(digits@), left@);
        let (digit, next): (u64, Natural) = next_digit(left.times(10), scale);
        digits.push(digit as u8);
        left = next;
        proof {
            assert(digits@.drop_last() =~= before);
            let (t, d, n) = (tens(i as int), digit as nat, left@);
            assert((v * s + r) * 10 == (10 * v) * s + r * 10) by (nonlinear_arith);
            assert((10 * v + d) * s == (10 * v) * s + d * s) by (nonlinear_arith);
            assert((all * t) * 10 == all * (10 * t)) by (nonlinear_arith);
        }
        i = i + 1;
    }
    left
}

/// What the digits and the rest of a long division say of the rounded number.
proof fn lemma_rounded_division(
    m: int,
    f: int,
    number: nat,
    above: nat,
    below: nat,
    unit: nat,
    top: int,
    places: nat,
    digits: nat,
    rest: nat,
)
    requires
        is_scaled(m, f, number, above, below, unit),
        top >= 0,
        rest < unit * tens(top),
        digits * (unit * tens(top)) + rest == (number * tens(top)) * tens(places as int),
    ensures
        ({
            let scale = unit * tens(top);
            let up = 2 * rest > scale || (2 * rest == scale && digits % 2 == 1);
            fixed_digits(m, places) == if up {
                digits + 1
            } else {
                digits
            }
        }),
{
    let (t, p, s) = (tens(top) as int, tens(places as int) as int, one());
    let (v, d, r) = (magnitude_value(m), digits as int, rest as int);
    let scale = unit * t;
    lemma_tens_pos(top);
    lemma_pow2_pos(1074);
    let left = v * p - d * s;
    assert(left * (2 * t) == f * r) by {
        let (a, b) = (v * p, d * s);
        assert(a * (2 * t) == f * ((number * t) * p)) by (nonlinear_arith)
            requires
                a == v * p,
                2 * v == f * number,
        ;
        assert(b * (2 * t) == f * (d * (unit * t))) by (nonlinear_arith)
            requires
                b == d * s,
                2 * s == f * unit,
        ;
        assert((a - b) * (2 * t) == a * (2 * t) - b * (2 * t)) by (nonlinear_arith);
        let (x, y) = ((number * t) * p, d * (unit * t));
        assert(f * x - f * y == f * (x - y)) by (nonlinear_arith);
    }
    assert(s * (2 * t) == f * scale) by (nonlinear_arith)
        requires
            2 * s == f * unit,
            scale == unit * t,
    ;
    assert(0 * (2 * t) == f * 0) by (nonlinear_arith);
    assert((2 * left) * (2 * t) == f * (2 * r)) by (nonlinear_arith)
        requires
            left * (2 * t) == f * r,
    ;
    lemma_same_order(0, left, 2 * t, 0, r, f);
    lemma_same_order(s, left, 2 * t, scale, r, f);
    lemma_same_order(2 * left, s, 2 * t, 2 * r, scale, f);
    assert(0 <= left < s);
    assert(v * p == d * s + left);
    lemma_fundamental_div_mod_converse(v * p, s, d, left);
}

/// The digits of a number that is rounded to so many decimals.
fn fixed_digit_list(m: u64, places: usize) -> (r: Vec<u8>)
    requires
        m < INFINITY_MAGNITUDE,
    ensures
        are_digits(r@),
        r@.len() > places,
        digits_value(r@) == fixed_digits(m as int, places as nat),
{
    let mut digits: Vec<u8> = Vec::new();
    if m == 0 {
        let unit: Natural = Natural::from_u64(1);
        digits.push(0);
        assert(digits@.drop_last() =~= Seq::<u8>::empty());
        assert(digits_value(Seq::<u8>::empty()) == 0);
        let zero: Natural = Natural::from_u64(0);
        let ghost (none, nothing) = (digits_value(digits@), zero@);
        let left: Natural = push_digits(&mut digits, zero, &unit, places);
        proof {
            let (v, u, t, l) = (digits_value(digits@), unit@, tens(places as int), left@);
            assert(v == 0) by (nonlinear_arith)
                requires
                    v * u + l == (none * u + nothing) * t,
                    none == 0,
                    nothing == 0,
                    u == 1,
            ;
            let x = magnitude_value(0);
            assert(x * t == 0) by (nonlinear_arith)
                requires
                    x == 0,
            ;
            lemma_pow2_pos(1074);
            lemma_fundamental_div_mod_converse(0, one(), 0, 0);
        }
        return digits;
    }
    let (number, above, below, unit): (Natural, Natural, Natural, Natural) = start(m);
    let ghost (w, a, b, u) = (number@, above@, below@, unit@);
    let ghost f = choose|f: int| #[trigger] is_scaled(m as int, f, w, a, b, u);
    // A power of ten beyond the number: so many digits stand before the point.
    let mut scale: Natural = unit.times(10);
    let mut top: usize = 1;
    proof {
        lemma_pow2_tens(342);
        reveal_with_fuel(tens, 2);
        let t = tens(1);
        assert(u * 10 == u * t) by (nonlinear_arith)
            requires
                t == 10,
        ;
    }
    while !number.less_than(&scale)
        invariant
            number@ == w,
            u > 0,
            w <= tens(342),
            1 <= top <= 343,
            scale@ == u * tens(top as int),
        decreases
            if w < scale@ {
                0
            } else {
                w + 1 - scale@
            },
    {
        proof {
            let t = tens(top as int);
            lemma_tens_pos(top as int);
            assert(t <= u * t && (u * t) * 10 == u * (10 * t) && u * t > 0) by (nonlinear_arith)
                requires
                    u > 0,
                    t > 0,
            ;
            lemma_tens_order(top as int, 342);
        }
        scale = scale.times(10);
        top = top + 1;
    }
    let whole: Natural = push_digits(&mut digits, number, &scale, top);
    let rest: Natural = push_digits(&mut digits, whole, &scale, places);
    let missing: Natural = scale.minus(&rest);
    let odd: bool = digits[digits.len() - 1] % 2 == 1;
    let up: bool = missing.less_than(&rest) || (odd && !rest.less_than(&missing));
    proof {
        let (s, v) = (scale@, digits_value(digits@));
        assert(0 * s == 0) by (nonlinear_arith);
        lemma_rounded_division(
            m as int,
            f,
            w,
            a,
            b,
            u,
            top as int,
            places as nat,
            v,
            rest@,
        );
        assert(v % 2 == digits@.last() % 2);
    }
    if up {
        increment(&mut digits);
    }
    digits
}

/// Cutting off digits divides by a power of ten, and what is cut off are the last ones.
proof fn lemma_digits_split(s: Seq<u8>, k: nat)
    requires
        k <= s.len(),
        are_digits(s),
    ensures
        digits_value(s) / tens(s.len() - k) == digits_value(s.take(k as int)),
    decreases s.len(),
{
    let v = digits_value(s);
    if k == s.len() {
        assert(s.take(k as int) =~= s);
        let t = tens(0);
        assert(v / t == v) by (nonlinear_arith)
            requires
                t == 1,
        ;
    } else {
        let init = s.drop_last();
        lemma_digits_split(init, k);
        assert(init.take(k as int) =~= s.take(k as int));
        assert(s[s.len() - 1] <= 9);
        let (t, ten) = (tens(s.len() - k - 1) as int, 10int);
        lemma_tens_pos(s.len() - k - 1);
        lemma_div_denominator(v as int, ten, t);
        assert(ten * t == tens(s.len() - k)) by (nonlinear_arith)
            requires
                ten == 10,
                10 * t == tens(s.len() - k),
        ;
        assert(v / 10 == digits_value(init));
    }
}

/// A number with magnitude `m`, rounded to so many decimals.
pub fn fixed(m: u64, places: usize) -> (r: String)
    requires
        m < INFINITY_MAGNITUDE,
    ensures
        r@ == fixed_text(m as int, places as nat),
{
    let digits: Vec<u8> = fixed_digit_list(m, places);
    let ghost s = digits@;
    let n: usize = digits.len();
    let k: usize = n - places;
    // Zeros before the last digit before the point are not written.
    let mut first: usize = 0;
    assert(s.take(0) =~= Seq::<u8>::empty());
    while first + 1 < k && digits[first] == 0
        invariant
            first < k <= n,
            s == digits@,
            n == s.len(),
            digits_value(s.take(first as int)) == 0,
        decreases k - first,
    {
        assert(s.take(first + 1).drop_last() =~= s.take(first as int));
        first = first + 1;
    }
    let mut r: String = String::new();
    let mut i: usize = first;
    while i < k
        invariant
            first <= i <= k <= n,
            first < k,
            s == digits@,
            n == s.len(),
            are_digits(s),
            first + 1 < k ==> s[first as int] != 0,
            i == first ==> r@.len() == 0 && digits_value(s.take(i as int)) == 0,
            i > first ==> r@ == decimal_text(digits_value(s.take(i as int))),
            first < i < k ==> digits_value(s.take(i as int)) > 0,
        decreases k - i,
    {
        append_digit(&mut r, digits[i] as u64);
        proof {
            let (v, d) = (digits_value(s.take(i as int)), s[i as int] as nat);
            assert(s.take(i + 1).drop_last() =~= s.take(i as int));
            assert(s.take(i + 1).last() == s[i as int]);
            assert(digits_value(s.take(i + 1)) == 10 * v + d);
            if i == first {
                assert(r@ =~= seq![digit_text(d)]);
            } else {
                assert((10 * v + d) / 10 == v && (10 * v + d) % 10 == d);
                assert(r@ =~= decimal_text(v).push(digit_text(d)));
            }
        }
        i = i + 1;
    }
    proof {
        lemma_digits_split(s, k as nat);
        assert(s.take(n as int) =~= s);
    }
    if places > 0 {
        r.append(".");
        let ghost before = r@;
        assert(r@ =~= before + last_digits(digits_value(s.take(k as int)), 0));
        while i < n
            invariant
                k <= i <= n,
                s == digits@,
                n == s.len(),
                are_digits(s),
                r@ == before + last_digits(digits_value(s.take(i as int)), (i - k) as nat),
            decreases n - i,
        {
            append_digit(&mut r, digits[i] as u64);
            proof {
                let (v, d) = (digits_value(s.take(i as int)), s[i as int] as nat);
                assert(s.take(i + 1).drop_last() =~= s.take(i as int));
                assert(s.take(i + 1).last() == s[i as int]);
                assert((10 * v + d) / 10 == v && (10 * v + d) % 10 == d);
                assert(r@ =~= before + last_digits(v, (i - k) as nat).push(digit_text(d)));
            }
            i = i + 1;
        }
    }
    r
}

} // verus!
