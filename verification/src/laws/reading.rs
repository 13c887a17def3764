//! Numbers that are written as text can be read back.
use crate::arithmetic::one;
use crate::decimal::{
    is_shortest, lemma_digits_positive, lemma_finer_decimal, lemma_finer_decimals, reads_as,
    shortest_exists, shortest_is_unique,
};
use crate::digits::{
    decimal_text, digit_text, last_digits, lemma_decimal_length, lemma_tens_adds,
    lemma_tens_pos, tens,
};
use crate::double::{
    abs_int, lemma_magnitude_nonnegative, lemma_magnitude_order, lemma_magnitude_step,
    magnitude_value, Double, INFINITY_MAGNITUDE,
};
use crate::fixed::{fixed_digits, fixed_text, round_half_even};
use crate::notation::{
    exponential_text, integer_text, positional_text, shortest_digits, unsigned_debug_text,
    unsigned_text, zeros, LARGE_MAGNITUDE, SMALL_MAGNITUDE,
};
use crate::rounding::{lemma_nearest_unique, nearest, twice_midpoint};
use vstd::arithmetic::div_mod::{
    lemma_fundamental_div_mod, lemma_mod_bound, lemma_mod_breakdown,
    lemma_mod_multiples_basic,
};
use vstd::arithmetic::power2::{
    lemma2_to64, lemma2_to64_rest, lemma_pow2_adds, lemma_pow2_pos, pow2,
};
use vstd::prelude::*;

verus! {

/// Whether a character is a decimal digit.
pub open spec fn is_digit(c: char) -> bool {
    '0' <= c <= '9'
}

/// Whether all characters are decimal digits.
pub open spec fn all_digits(s: Seq<char>) -> bool {
    forall|i: int| 0 <= i < s.len() ==> is_digit(#[trigger] s[i])
}

/// The number that digits stand for: each counts ten times the next.
pub open spec fn number_of(s: Seq<char>) -> nat
    decreases s.len(),
{
    if s.len() == 0 {
        0
    } else {
        10 * number_of(s.drop_last()) + (s.last() as nat - '0' as nat) as nat
    }
}

/// Whether a text is a decimal number with `k` digits behind the point: without it, the
/// digits are those of `n`. So the text stands for `n / 10^k`.
pub open spec fn is_decimal(text: Seq<char>, n: nat, k: nat) -> bool {
    if k == 0 {
        text.len() > 0 && all_digits(text) && number_of(text) == n
    } else {
        let point = text.len() - k - 1;
        &&& point > 0
        &&& text[point] == '.'
        &&& all_digits(text.take(point))
        &&& all_digits(text.skip(point + 1))
        &&& number_of(text.take(point) + text.skip(point + 1)) == n
    }
}

/// A text stands for one number only.
pub proof fn decimals_are_unambiguous(text: Seq<char>, n: nat, k: nat, other: nat, places: nat)
    requires
        is_decimal(text, n, k),
        is_decimal(text, other, places),
    ensures
        n == other,
        k == places,
{
    let (p, q) = (text.len() - k - 1, text.len() - places - 1);
    if k > 0 && places > 0 && p < q {
        assert(text.take(q)[p] == '.');
    } else if k > 0 && places > 0 && q < p {
        assert(text.take(p)[q] == '.');
    } else if k > 0 && places == 0 {
        assert(is_digit(text[p]));
    } else if k == 0 && places > 0 {
        assert(is_digit(text[q]));
    }
}

proof fn lemma_digit(d: nat)
    requires
        d < 10,
    ensures
        is_digit(digit_text(d)),
        digit_text(d) as nat - '0' as nat == d,
{
}

/// A whole number is written with digits that stand for it, without zeros in front.
pub proof fn decimal_text_reads_back(n: nat)
    ensures
        decimal_text(n).len() > 0,
        all_digits(decimal_text(n)),
        number_of(decimal_text(n)) == n,
        decimal_text(n).len() > 1 ==> decimal_text(n)[0] != '0',
    decreases n,
{
    let s = decimal_text(n);
    if n < 10 {
        lemma_digit(n);
        assert(s.drop_last() =~= Seq::<char>::empty());
        assert(number_of(s.drop_last()) == 0);
    } else {
        decimal_text_reads_back(n / 10);
        lemma_digit(n % 10);
        assert(s.drop_last() =~= decimal_text(n / 10));
        assert(s[0] == decimal_text(n / 10)[0]);
        lemma_decimal_length(n / 10);
        if n / 10 < 10 {
            lemma_digit(n / 10);
        }
    }
}

/// The last digits of a number are those of its remainder by a power of ten.
proof fn lemma_last_digits(n: nat, k: nat)
    ensures
        last_digits(n, k).len() == k,
        all_digits(last_digits(n, k)),
        number_of(last_digits(n, k)) == n % tens(k as int),
    decreases k,
{
    let s = last_digits(n, k);
    if k > 0 {
        let j = (k - 1) as nat;
        lemma_last_digits(n / 10, j);
        lemma_digit(n % 10);
        assert(s.drop_last() =~= last_digits(n / 10, j));
        let t = tens(j as int) as int;
        lemma_tens_pos(j as int);
        lemma_mod_breakdown(n as int, 10, t);
        assert(10 * t == tens(k as int));
    } else {
        let t = tens(0);
        assert(n % t == 0) by (nonlinear_arith)
            requires
                t == 1,
        ;
    }
}

/// Digits behind digits.
proof fn lemma_number_of_both(a: Seq<char>, b: Seq<char>)
    ensures
        number_of(a + b) == number_of(a) * tens(b.len() as int) + number_of(b),
    decreases b.len(),
{
    if b.len() == 0 {
        assert(a + b =~= a);
        let (x, t) = (number_of(a), tens(0));
        assert(x * t == x) by (nonlinear_arith)
            requires
                t == 1,
        ;
    } else {
        let c = b.drop_last();
        lemma_number_of_both(a, c);
        assert((a + b).drop_last() =~= a + c);
        let (x, t) = (number_of(a), tens(c.len() as int));
        assert(10 * (x * t) == x * (10 * t)) by (nonlinear_arith);
    }
}

proof fn lemma_zeros(k: nat)
    ensures
        all_digits(zeros(k)),
        number_of(zeros(k)) == 0,
    decreases k,
{
    if k > 0 {
        lemma_zeros((k - 1) as nat);
        assert(zeros(k).drop_last() =~= zeros((k - 1) as nat));
    }
}

/// Digits, a point, and digits.
proof fn lemma_point(whole: Seq<char>, fraction: Seq<char>)
    requires
        whole.len() > 0,
        fraction.len() > 0,
        all_digits(whole),
        all_digits(fraction),
    ensures
        is_decimal(
            whole + "."@ + fraction,
            number_of(whole) * tens(fraction.len() as int) + number_of(fraction),
            fraction.len(),
        ),
{
    reveal_strlit(".");
    let text = whole + "."@ + fraction;
    let p = whole.len() as int;
    assert(text.take(p) =~= whole);
    assert(text.skip(p + 1) =~= fraction);
    lemma_number_of_both(whole, fraction);
}

/// The text of `d * 10^e` without an exponent stands for it.
proof fn lemma_positional(d: nat, e: int, fraction: bool) -> (r: (nat, nat))
    ensures
        is_decimal(positional_text(d, e, fraction), r.0, r.1),
        e < 0 ==> r == (d, (-e) as nat),
        e >= 0 && !fraction ==> r == (d * tens(e), 0nat),
        e >= 0 && fraction ==> r == (10 * (d * tens(e)), 1nat),
{
    let text = positional_text(d, e, fraction);
    if e < 0 {
        let k = (-e) as nat;
        let t = tens(-e);
        decimal_text_reads_back(d / t);
        lemma_last_digits(d, k);
        lemma_tens_pos(-e);
        lemma_point(decimal_text(d / t), last_digits(d, k));
        lemma_fundamental_div_mod(d as int, t as int);
        let q = d / t;
        assert(q * t == t * q) by (nonlinear_arith);
        (d, k)
    } else {
        decimal_text_reads_back(d);
        lemma_zeros(e as nat);
        let (a, z) = (decimal_text(d), zeros(e as nat));
        lemma_number_of_both(a, z);
        let whole = a + z;
        assert(all_digits(whole));
        if fraction {
            let b = ".0"@;
            reveal_strlit(".0");
            reveal_strlit(".");
            let f = seq!['0'];
            assert(f.drop_last() =~= Seq::<char>::empty());
            assert(number_of(f.drop_last()) == 0);
            assert(text =~= whole + "."@ + f);
            lemma_point(whole, f);
            reveal_with_fuel(tens, 2);
            let (x, t) = (number_of(whole), tens(1));
            assert(x * t == 10 * x) by (nonlinear_arith)
                requires
                    t == 10,
            ;
            (10 * (d * tens(e)), 1nat)
        } else {
            (d * tens(e), 0nat)
        }
    }
}

/// What the positional text of a shortest decimal stands for is nearest to the number.
proof fn lemma_positional_reads(m: int, d: nat, e: int, fraction: bool) -> (r: (nat, nat))
    requires
        reads_as(d, e, m),
    ensures
        is_decimal(positional_text(d, e, fraction), r.0, r.1),
        nearest(r.0 * one(), tens(r.1 as int) as int, m),
{
    let r = lemma_positional(d, e, fraction);
    if e < 0 {
        let t = tens(e);
        assert(d * t == d) by (nonlinear_arith)
            requires
                t == 1,
        ;
    } else {
        let x = d * tens(e);
        if fraction {
            let t = tens(0);
            assert(x * t == x) by (nonlinear_arith)
                requires
                    t == 1,
            ;
            assert(reads_as(x, -1 + 1, m));
            lemma_finer_decimal(x, -1, m);
            let u = tens(-1);
            assert((10 * x) * u == 10 * x) by (nonlinear_arith)
                requires
                    u == 1,
            ;
        }
    }
    r
}

/// The shortest digits of a number are those of a shortest decimal.
proof fn lemma_shortest_digits(m: int)
    requires
        0 < m < INFINITY_MAGNITUDE,
    ensures
        is_shortest(shortest_digits(m).0, shortest_digits(m).1, m),
{
    let r = shortest_exists(m);
    assert(is_shortest(r.0, r.1, m));
}

/// Whether a text is a decimal number that, read as a number, is the one with magnitude
/// `m`: that is the nearest to what the text stands for.
pub open spec fn reads_back(text: Seq<char>, m: int) -> bool {
    exists|n: nat, k: nat| #[trigger]
        is_decimal(text, n, k) && nearest(n * one(), tens(k as int) as int, m)
}

/// A text without its minus sign, if it has one.
pub open spec fn without_sign(text: Seq<char>) -> Seq<char> {
    if text.len() > 0 && text[0] == '-' {
        text.skip(1)
    } else {
        text
    }
}

/// Whether a text has a minus sign.
pub open spec fn has_minus(text: Seq<char>) -> bool {
    text.len() > 0 && text[0] == '-'
}

proof fn lemma_unsigned_reads_back(m: int)
    requires
        0 <= m < INFINITY_MAGNITUDE,
    ensures
        reads_back(unsigned_text(m), m),
        !has_minus(unsigned_text(m)),
{
    let text = unsigned_text(m);
    if m == 0 {
        reveal_strlit("0");
        assert(text.drop_last() =~= Seq::<char>::empty());
        assert(number_of(text.drop_last()) == 0);
        assert(is_decimal(text, 0, 0));
        lemma_zero_is_nearest();
    } else {
        lemma_shortest_digits(m);
        let (d, e) = shortest_digits(m);
        let r = lemma_positional_reads(m, d, e, false);
        assert(is_decimal(text, r.0, r.1));
        lemma_starts_with_digit(text, r.0, r.1);
    }
}

proof fn lemma_zero_is_nearest()
    ensures
        nearest(0 * one(), tens(0) as int, 0),
        nearest(0 * one(), tens(1) as int, 0),
{
    lemma_magnitude_nonnegative(1);
    let (x, s, h) = (tens(1) as int, one(), twice_midpoint(0));
    lemma_tens_pos(1);
    assert(0 * s == 0) by (nonlinear_arith);
    assert(h * x > 0) by (nonlinear_arith)
        requires
            h > 0,
            x > 0,
    ;
}

/// A decimal number starts with a digit.
proof fn lemma_starts_with_digit(text: Seq<char>, n: nat, k: nat)
    requires
        is_decimal(text, n, k),
    ensures
        text.len() > 0,
        is_digit(text[0]),
{
    if k > 0 {
        let p = text.len() - k - 1;
        assert(text.take(p)[0] == text[0]);
    }
}

/// The text of a finite number is a minus sign if the number is negative, and a decimal
/// number that reads back as the number. What is not finite has a word of its own.
pub proof fn display_text_reads_back(x: Double)
    ensures
        x.finite() ==> reads_back(without_sign(x.display_text()), x.magnitude()),
        !x.nan() ==> (has_minus(x.display_text()) <==> x.negative()),
        x.infinite() ==> without_sign(x.display_text()) == "inf"@,
        x.nan() ==> x.display_text() == "NaN"@,
{
    reveal_strlit("-");
    reveal_strlit("inf");
    reveal_strlit("NaN");
    let unsigned = unsigned_text(x.magnitude());
    if x.finite() {
        lemma_unsigned_reads_back(x.magnitude());
    }
    if x.negative() && !x.nan() {
        assert(x.display_text().skip(1) =~= unsigned);
    }
}

/// Different numbers have different texts.
pub proof fn display_text_tells_numbers_apart(x: Double, y: Double)
    requires
        x.display_text() == y.display_text(),
    ensures
        x.nan() && y.nan() || x == y,
{
    display_text_reads_back(x);
    display_text_reads_back(y);
    reveal_strlit("inf");
    reveal_strlit("NaN");
    let t = without_sign(x.display_text());
    if x.finite() {
        let (n, k) = choose|n: nat, k: nat| #[trigger]
            is_decimal(t, n, k) && nearest(n * one(), tens(k as int) as int, x.magnitude());
        lemma_starts_with_digit(t, n, k);
        if y.finite() {
            let (i, j) = choose|n: nat, k: nat| #[trigger]
                is_decimal(t, n, k) && nearest(n * one(), tens(k as int) as int, y.magnitude());
            decimals_are_unambiguous(t, n, k, i, j);
            lemma_tens_pos(k as int);
            lemma_nearest_unique(n * one(), tens(k as int) as int, x.magnitude(), y.magnitude());
        }
    } else if y.finite() {
        let (n, k) = choose|n: nat, k: nat| #[trigger]
            is_decimal(t, n, k) && nearest(n * one(), tens(k as int) as int, y.magnitude());
        lemma_starts_with_digit(t, n, k);
    }
}

/// No text with fewer digits behind the point reads back as the number.
pub proof fn display_text_is_short(x: Double, n: nat, k: nat, shorter: nat, places: nat)
    requires
        x.finite(),
        is_decimal(without_sign(x.display_text()), n, k),
        places < k,
    ensures
        !nearest(shorter * one(), tens(places as int) as int, x.magnitude()),
{
    reveal_strlit("-");
    let m = x.magnitude();
    let unsigned = unsigned_text(m);
    if m == 0 {
        reveal_strlit("0");
        assert(unsigned.drop_last() =~= Seq::<char>::empty());
        assert(number_of(unsigned.drop_last()) == 0);
        assert(is_decimal(unsigned, 0, 0));
        if x.negative() {
            assert(x.display_text().skip(1) =~= unsigned);
        }
        decimals_are_unambiguous(unsigned, n, k, 0, 0);
    } else {
        lemma_unsigned_reads_back(m);
        if x.negative() {
            assert(x.display_text().skip(1) =~= unsigned);
        }
        lemma_shortest_digits(m);
        let (d, e) = shortest_digits(m);
        let r = lemma_positional(d, e, false);
        decimals_are_unambiguous(unsigned, n, k, r.0, r.1);
        if nearest(shorter * one(), tens(places as int) as int, m) {
            let t = tens(-(places as int));
            assert(shorter * t == shorter) by (nonlinear_arith)
                requires
                    t == 1,
            ;
            assert(reads_as(shorter, -(places as int), m));
            lemma_finer_decimals(shorter, e + 1, -(places as int), m);
        }
    }
}

/// The text of a finite number without its sign is what its magnitude is written as.
proof fn lemma_display_without_sign(x: Double)
    requires
        x.finite(),
    ensures
        without_sign(x.display_text()) == unsigned_text(x.magnitude()),
{
    reveal_strlit("-");
    lemma_unsigned_reads_back(x.magnitude());
    if x.negative() {
        assert(x.display_text().skip(1) =~= unsigned_text(x.magnitude()));
    }
}

/// A number that is written without a point ends in as many zeros as it can: where some
/// multiple of `10^j` reads back as the number, a multiple of `10^j` is written.
pub proof fn display_text_is_round(x: Double, n: nat, multiple: nat, j: nat)
    requires
        x.finite(),
        is_decimal(without_sign(x.display_text()), n, 0),
        nearest((multiple * tens(j as int)) * one(), 1, x.magnitude()),
    ensures
        n % tens(j as int) == 0,
{
    let m = x.magnitude();
    lemma_display_without_sign(x);
    lemma_tens_pos(j as int);
    if m == 0 {
        lemma_zero_is_written(n, 0);
        assert(n % tens(j as int) == 0) by (nonlinear_arith)
            requires
                n == 0,
                tens(j as int) >= 1,
        ;
    } else {
        lemma_shortest_digits(m);
        let (d, e) = shortest_digits(m);
        let r = lemma_positional(d, e, false);
        decimals_are_unambiguous(unsigned_text(m), n, 0, r.0, r.1);
        assert(reads_as(multiple, j as int, m));
        shortest_is_unique(d, e, multiple, j as int, m);
        lemma_tens_adds(e - j, j as int);
        let (t, u) = (tens(e - j), tens(j as int));
        assert(n == (d * t) * u) by (nonlinear_arith)
            requires
                n == d * (t * u),
        ;
        lemma_mod_multiples_basic((d * t) as int, u as int);
    }
}

/// Of all decimal numbers with as many digits behind the point that read back as the
/// number, the one that is written is the nearest to it, and of two that are equally near
/// the greater.
pub proof fn display_text_is_nearest(x: Double, n: nat, k: nat, other: nat)
    requires
        x.finite(),
        k > 0,
        is_decimal(without_sign(x.display_text()), n, k),
        nearest(other * one(), tens(k as int) as int, x.magnitude()),
        other != n,
    ensures
        ({
            let exact = magnitude_value(x.magnitude()) * tens(k as int);
            let (error, other_error) = (
                abs_int(n * one() - exact),
                abs_int(other * one() - exact),
            );
            error < other_error || error == other_error && other < n
        }),
{
    let m = x.magnitude();
    lemma_display_without_sign(x);
    if m == 0 {
        lemma_zero_is_written(n, k);
    } else {
        lemma_shortest_digits(m);
        let (d, e) = shortest_digits(m);
        let r = lemma_positional(d, e, false);
        decimals_are_unambiguous(unsigned_text(m), n, k, r.0, r.1);
        let t = tens(e);
        assert(n * t == n && other * t == other) by (nonlinear_arith)
            requires
                t == 1,
        ;
        assert(reads_as(other, e, m));
    }
}

/// Zero is written without a point.
proof fn lemma_zero_is_written(n: nat, k: nat)
    requires
        is_decimal(unsigned_text(0), n, k),
    ensures
        n == 0,
        k == 0,
{
    let text = unsigned_text(0);
    reveal_strlit("0");
    assert(text.drop_last() =~= Seq::<char>::empty());
    assert(number_of(text.drop_last()) == 0);
    assert(is_decimal(text, 0, 0));
    decimals_are_unambiguous(text, n, k, 0, 0);
}

/// No number is written with a zero in front, except the one before a point.
pub proof fn display_text_has_no_spare_zeros(x: Double)
    requires
        x.finite(),
    ensures
        ({
            let text = without_sign(x.display_text());
            text.len() > 1 && text[0] == '0' ==> text[1] == '.'
        }),
{
    reveal_strlit("0");
    reveal_strlit(".");
    let m = x.magnitude();
    lemma_display_without_sign(x);
    if m > 0 {
        lemma_shortest_digits(m);
        let (d, e) = shortest_digits(m);
        let text = unsigned_text(m);
        if e < 0 {
            let whole = decimal_text(d / tens(-e));
            decimal_text_reads_back(d / tens(-e));
            assert(text[0] == whole[0]);
            if whole.len() == 1 {
                assert(text[1] == '.');
            }
        } else {
            lemma_digits_positive(m, d, e);
            decimal_text_reads_back(d);
            assert(text[0] == decimal_text(d)[0]);
            if d < 10 {
                lemma_digit(d);
            } else {
                lemma_decimal_length(d);
            }
        }
    }
}

/// Which characters number texts are made of.
pub open spec fn is_number_char(c: char) -> bool {
    is_digit(c) || c == '-' || c == '.' || c == 'N' || c == 'a' || c == 'i' || c == 'n' || c == 'f'
}

/// The texts of numbers have none of the characters that the texts around them use.
pub proof fn display_text_has_number_chars(x: Double, i: int)
    requires
        0 <= i < x.display_text().len(),
    ensures
        is_number_char(x.display_text()[i]),
{
    reveal_strlit("-");
    reveal_strlit("inf");
    reveal_strlit("NaN");
    reveal_strlit("0");
    reveal_strlit(".");
    let m = x.magnitude();
    if 0 < m < INFINITY_MAGNITUDE {
        let (d, e) = shortest_digits(m);
        decimal_text_reads_back(d);
        decimal_text_reads_back(d / tens(-e));
        lemma_last_digits(d, if e < 0 {
            (-e) as nat
        } else {
            0
        });
        lemma_zeros(if e > 0 {
            e as nat
        } else {
            0
        });
    }
}

/// Whether a text is a decimal number with one digit before the point, and an exponent,
/// that reads back as the number with magnitude `m`, and none with fewer digits does.
pub open spec fn reads_back_with_exponent(text: Seq<char>, m: int) -> bool {
    exists|mantissa: Seq<char>, n: nat, k: nat, x: int|
        {
            &&& #[trigger] is_decimal(mantissa, n, k)
            &&& text == mantissa + "e"@ + #[trigger] integer_text(x)
            &&& nearest((n * tens(x - k)) * one(), tens(k - x) as int, m)
            &&& mantissa.len() == if k == 0 {
                1
            } else {
                k + 2
            }
            &&& forall|shorter: nat, e: int| e > x - k ==> !#[trigger] reads_as(shorter, e, m)
        }
}

/// A whole number's text is a minus sign if it is negative, and the digits of its size.
pub proof fn integer_text_reads_back(n: int)
    ensures
        has_minus(integer_text(n)) <==> n < 0,
        all_digits(without_sign(integer_text(n))),
        number_of(without_sign(integer_text(n))) == abs_int(n),
{
    reveal_strlit("-");
    decimal_text_reads_back(abs_int(n) as nat);
    if n < 0 {
        assert(integer_text(n).skip(1) =~= decimal_text((-n) as nat));
    }
}

/// A number has enough digits.
proof fn lemma_digits_suffice(n: nat)
    ensures
        n < tens(decimal_text(n).len() as int),
    decreases n,
{
    if n < 10 {
        reveal_with_fuel(tens, 2);
    } else {
        lemma_digits_suffice(n / 10);
    }
}

/// Without all digits but the first, one digit is left.
proof fn lemma_first_digit(d: nat)
    ensures
        d / tens(decimal_text(d).len() - 1) < 10,
{
    let n = decimal_text(d).len() - 1;
    lemma_decimal_length(d);
    lemma_digits_suffice(d);
    lemma_tens_pos(n);
    let (t, q) = (tens(n), d / tens(n));
    lemma_fundamental_div_mod(d as int, t as int);
    assert(q < 10) by (nonlinear_arith)
        requires
            d == t * q + d % t,
            d % t >= 0,
            d < 10 * t,
            t >= 1,
    ;
}

/// The text with an exponent of `d * 10^e` stands for it.
proof fn lemma_exponential(m: int, d: nat, e: int)
    requires
        is_shortest(d, e, m),
    ensures
        reads_back_with_exponent(exponential_text(d, e), m),
        is_digit(exponential_text(d, e)[0]),
{
    decimal_text_reads_back(d);
    let behind = (decimal_text(d).len() - 1) as nat;
    let text = exponential_text(d, e);
    assert forall|shorter: nat, g: int| g > e implies !#[trigger] reads_as(shorter, g, m) by {
        shortest_is_unique(d, e, shorter, g, m);
    }
    if behind == 0 {
        let mantissa = decimal_text(d);
        assert(is_decimal(mantissa, d, 0));
        assert(text == mantissa + "e"@ + integer_text(e));
        assert(e - 0 == e && 0 - e == -e);
    } else {
        let t = tens(behind as int);
        decimal_text_reads_back(d / t);
        lemma_last_digits(d, behind);
        lemma_tens_pos(behind as int);
        lemma_point(decimal_text(d / t), last_digits(d, behind));
        lemma_fundamental_div_mod(d as int, t as int);
        let q = d / t;
        assert(q * t == t * q) by (nonlinear_arith);
        let mantissa = decimal_text(d / t) + "."@ + last_digits(d, behind);
        assert(is_decimal(mantissa, d, behind));
        reveal_strlit(".");
        lemma_first_digit(d);
        assert(text == mantissa + "e"@ + integer_text(e + behind));
        assert((e + behind) - behind == e && behind - (e + behind) == -e);
    }
}

/// The text that programmers see reads back too: it is a minus sign if the number is
/// negative, and a decimal number with a point, or one with an exponent. The exponent is
/// there if and only if the number is `1e16` or more, or less than `1e-4`, and not zero.
pub proof fn debug_text_reads_back(x: Double)
    requires
        x.finite(),
    ensures
        ({
            let text = without_sign(x.debug_text());
            let m = x.magnitude();
            let large = magnitude_value(m) >= 1_0000_0000_0000_0000 * one();
            let small = 0 < m < SMALL_MAGNITUDE;
            &&& has_minus(x.debug_text()) <==> x.negative()
            &&& large || small ==> reads_back_with_exponent(text, m)
            &&& !large && !small ==> reads_back(text, m) && text.contains('.')
        }),
{
    reveal_strlit("-");
    reveal_strlit("0.0");
    reveal_strlit(".0");
    reveal_strlit(".");
    let m = x.magnitude();
    let unsigned = unsigned_debug_text(m);
    exponent_thresholds(m);
    if m == 0 {
        let (w, f) = (seq!['0'], seq!['0']);
        assert(w.drop_last() =~= Seq::<char>::empty());
        assert(number_of(w.drop_last()) == 0);
        assert(unsigned =~= w + "."@ + f);
        lemma_point(w, f);
        let t = tens(1);
        assert(0 * t == 0) by (nonlinear_arith);
        assert(is_decimal(unsigned, 0, 1));
        lemma_zero_is_nearest();
        assert(unsigned[1] == '.');
    } else {
        lemma_shortest_digits(m);
        let (d, e) = shortest_digits(m);
        if m >= LARGE_MAGNITUDE || m < SMALL_MAGNITUDE {
            lemma_exponential(m, d, e);
        } else {
            let r = lemma_positional_reads(m, d, e, true);
            assert(is_decimal(unsigned, r.0, r.1));
            lemma_starts_with_digit(unsigned, r.0, r.1);
            let z = lemma_positional(d, e, true);
            decimals_are_unambiguous(unsigned, r.0, r.1, z.0, z.1);
            assert(unsigned[unsigned.len() - r.1 - 1] == '.');
        }
    }
    if x.negative() {
        assert(x.debug_text().skip(1) =~= unsigned);
    }
}

/// Where the text that programmers see has no exponent it is the one that users see, with
/// `.0` behind a whole number; and it is the same for what is not finite.
pub proof fn debug_text_is_display_text(x: Double)
    ensures
        ({
            let m = x.magnitude();
            let large = magnitude_value(m) >= 1_0000_0000_0000_0000 * one();
            let small = 0 < m < SMALL_MAGNITUDE;
            &&& !x.finite() ==> x.debug_text() == x.display_text()
            &&& x.finite() && !large && !small ==> x.debug_text() == if x.display_text().contains(
                '.',
            ) {
                x.display_text()
            } else {
                x.display_text() + ".0"@
            }
        }),
{
    reveal_strlit("-");
    reveal_strlit("0");
    reveal_strlit("0.0");
    reveal_strlit(".0");
    reveal_strlit(".");
    let m = x.magnitude();
    let text = x.display_text();
    if x.finite() {
        exponent_thresholds(m);
        if 0 < m {
            let (d, e) = shortest_digits(m);
            let start: int = if x.negative() {
                1
            } else {
                0
            };
            if e < 0 {
                assert(text[start + decimal_text(d / tens(-e)).len()] == '.');
            } else {
                decimal_text_reads_back(d);
                lemma_zeros(e as nat);
                assert forall|i: int| 0 <= i < text.len() implies text[i] != '.' by {
                    if i >= start {
                        assert(is_digit((decimal_text(d) + zeros(e as nat))[i - start]));
                    }
                }
                if m < LARGE_MAGNITUDE && m >= SMALL_MAGNITUDE {
                    assert(x.debug_text() =~= text + ".0"@);
                }
            }
        } else {
            assert(x.debug_text() =~= text + ".0"@);
        }
    }
}

/// The two patterns between which no exponent is written are `1e16` and the number nearest
/// to `1e-4`.
pub proof fn exponent_thresholds(m: int)
    requires
        0 <= m < INFINITY_MAGNITUDE,
    ensures
        m >= LARGE_MAGNITUDE <==> magnitude_value(m) >= 1_0000_0000_0000_0000
            * one(),
        nearest(one(), 10000, SMALL_MAGNITUDE as int),
{
    lemma_threshold_values();
    let l = LARGE_MAGNITUDE as int;
    if m < l {
        lemma_magnitude_order(m, l);
    } else if m > l {
        lemma_magnitude_order(l, m);
    }
}

proof fn lemma_threshold_values()
    ensures
        magnitude_value(LARGE_MAGNITUDE as int) == 1_0000_0000_0000_0000 * one(),
        nearest(one(), 10000, SMALL_MAGNITUDE as int),
{
    lemma2_to64();
    lemma2_to64_rest();
    let l = LARGE_MAGNITUDE as int;
    let s = SMALL_MAGNITUDE as int;
    // 1e16 is 0x11c37937e08000 * 2^1 and one is 2^1074.
    lemma_pow2_adds(1074, 1);
    assert(magnitude_value(l) == 0x11_c379_37e0_8000 * pow2(1075));
    let p = pow2(1008) as int;
    lemma_pow2_adds(1008, 64);
    lemma_pow2_adds(1072, 2);
    lemma_pow2_pos(1008);
    assert(magnitude_value(s) == 0x1a_36e2_eb1c_432d * p);
    lemma_magnitude_step(s);
    lemma_magnitude_step(s - 1);
}

/// Rounding to whole numbers is off by at most a half, and by a half only to the even one.
pub proof fn rounding_is_nearest(num: int, den: int)
    requires
        den > 0,
        num >= 0,
    ensures
        ({
            let n = round_half_even(num, den);
            &&& n >= 0
            &&& 2 * abs_int(n * den - num) <= den
            &&& 2 * abs_int(n * den - num) == den ==> n % 2 == 0
        }),
{
    lemma_fundamental_div_mod(num, den);
    lemma_mod_bound(num, den);
    let (q, r) = (num / den, num % den);
    assert(q >= 0) by (nonlinear_arith)
        requires
            num == den * q + r,
            num >= 0,
            den > r,
            den > 0,
    ;
    assert((q + 1) * den == q * den + den && q * den == den * q) by (nonlinear_arith);
}

/// What a precision asks for: so many decimals, of the number nearest to the exact value
/// among those that have them. What is not finite is written as without a precision.
pub proof fn precision_is_decimals(x: Double, places: usize)
    ensures
        x.finite() ==> exists|n: nat|
            {
                let exact = magnitude_value(x.magnitude()) * tens(places as int);
                &&& #[trigger] is_decimal(
                    x.unsigned_formatted_text(Some(places)),
                    n,
                    places as nat,
                )
                &&& 2 * abs_int(n * one() - exact) <= one()
                &&& 2 * abs_int(n * one() - exact) == one() ==> n % 2 == 0
            },
        !x.finite() ==> x.unsigned_formatted_text(Some(places)) == x.unsigned_formatted_text(None),
        x.unsigned_formatted_text(None) == without_sign(x.debug_text()),
{
    reveal_strlit("-");
    reveal_strlit("inf");
    reveal_strlit("NaN");
    if x.finite() {
        fixed_text_is_nearest(x.magnitude(), places as nat);
        let n = fixed_digits(x.magnitude(), places as nat);
        assert(is_decimal(x.unsigned_formatted_text(Some(places)), n, places as nat));
        lemma_debug_starts_with_digit(x.magnitude());
    }
    if x.negative() && !x.nan() {
        assert(x.debug_text().skip(1) =~= unsigned_debug_text(x.magnitude()));
    }
}

proof fn lemma_debug_starts_with_digit(m: int)
    requires
        0 <= m < INFINITY_MAGNITUDE,
    ensures
        unsigned_debug_text(m).len() > 0,
        is_digit(unsigned_debug_text(m)[0]),
{
    reveal_strlit("0.0");
    if m > 0 {
        lemma_shortest_digits(m);
        let (d, e) = shortest_digits(m);
        if m >= LARGE_MAGNITUDE || m < SMALL_MAGNITUDE {
            lemma_exponential(m, d, e);
        } else {
            let r = lemma_positional(d, e, true);
            lemma_starts_with_digit(unsigned_debug_text(m), r.0, r.1);
        }
    }
}

/// With a given number of decimals, the text is a decimal number with that many, and off
/// by at most half a unit of the last; by half a unit only where that digit is even.
pub proof fn fixed_text_is_nearest(m: int, places: nat)
    requires
        0 <= m < INFINITY_MAGNITUDE,
    ensures
        ({
            let n = fixed_digits(m, places);
            let exact = magnitude_value(m) * tens(places as int);
            &&& is_decimal(fixed_text(m, places), n, places)
            &&& 2 * abs_int(n * one() - exact) <= one()
            &&& 2 * abs_int(n * one() - exact) == one() ==> n % 2 == 0
        }),
{
    lemma_pow2_pos(1074);
    lemma_magnitude_nonnegative(m);
    lemma_tens_pos(places as int);
    let (v, t) = (magnitude_value(m), tens(places as int) as int);
    assert(v * t >= 0) by (nonlinear_arith)
        requires
            v >= 0,
            t >= 0,
    ;
    rounding_is_nearest(v * t, one());
    let n = fixed_digits(m, places);
    if places == 0 {
        decimal_text_reads_back(n);
    } else {
        decimal_text_reads_back(n / tens(places as int));
        lemma_last_digits(n, places);
        lemma_point(decimal_text(n / tens(places as int)), last_digits(n, places));
        lemma_fundamental_div_mod(n as int, t);
        let q = n as int / t;
        assert(q * t == t * q) by (nonlinear_arith);
    }
}

} // verus!
