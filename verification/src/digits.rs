//! Whole numbers in decimal notation.
use vstd::prelude::*;

verus! {

/// Ten to the power `i`, or one where `i` is negative.
pub open spec fn tens(i: int) -> nat
    decreases i,
{
    if i <= 0 {
        1
    } else {
        10 * tens(i - 1)
    }
}

/// Powers of ten are positive.
pub proof fn lemma_tens_pos(i: int)
    ensures
        tens(i) >= 1,
    decreases i,
{
    if i > 0 {
        lemma_tens_pos(i - 1);
    }
}

/// Powers of ten multiply by adding exponents.
pub proof fn lemma_tens_adds(i: int, j: int)
    requires
        i >= 0,
        j >= 0,
    ensures
        tens(i + j) == tens(i) * tens(j),
    decreases j,
{
    if j > 0 {
        lemma_tens_adds(i, j - 1);
        let (a, b) = (tens(i), tens(j - 1));
        assert(10 * (a * b) == a * (10 * b)) by (nonlinear_arith);
    } else {
        assert(tens(i) * 1 == tens(i)) by (nonlinear_arith);
    }
}

/// Larger exponents give larger powers.
pub proof fn lemma_tens_order(i: int, j: int)
    requires
        tens(i) <= tens(j),
        j >= 0,
    ensures
        i <= j,
{
    if i > j {
        lemma_tens_adds(j, i - j);
        lemma_tens_pos(j);
        lemma_tens_pos(i - j - 1);
        let (a, b) = (tens(j), tens(i - j));
        assert(a * b > a) by (nonlinear_arith)
            requires
                a >= 1,
                b >= 10,
        ;
    }
}

/// A decimal digit.
pub open spec fn digit_text(d: nat) -> char {
    (('0' as u32) + d) as char
}

/// A number in decimal notation.
pub open spec fn decimal_text(n: nat) -> Seq<char>
    decreases n,
{
    if n < 10 {
        seq![digit_text(n)]
    } else {
        decimal_text(n / 10).push(digit_text(n % 10))
    }
}

/// Appends a digit to a text.
pub fn append_digit(text: &mut String, d: u64)
    requires
        d < 10,
    ensures
        final(text)@ == old(text)@.push(digit_text(d as nat)),
{
    proof {
        reveal_strlit("0");
        reveal_strlit("1");
        reveal_strlit("2");
        reveal_strlit("3");
        reveal_strlit("4");
        reveal_strlit("5");
        reveal_strlit("6");
        reveal_strlit("7");
        reveal_strlit("8");
        reveal_strlit("9");
    }
    let digit: &str = if d == 0 {
        "0"
    } else if d == 1 {
        "1"
    } else if d == 2 {
        "2"
    } else if d == 3 {
        "3"
    } else if d == 4 {
        "4"
    } else if d == 5 {
        "5"
    } else if d == 6 {
        "6"
    } else if d == 7 {
        "7"
    } else if d == 8 {
        "8"
    } else {
        "9"
    };
    assert(digit@ =~= seq![digit_text(d as nat)]);
    text.append(digit);
    assert(text@ =~= old(text)@.push(digit_text(d as nat)));
}

/// Appends a number to a text.
pub fn append_decimal(text: &mut String, n: u64)
    ensures
        final(text)@ == old(text)@ + decimal_text(n as nat),
    decreases n,
{
    if n >= 10 {
        append_decimal(text, n / 10);
    }
    append_digit(text, n % 10);
    assert(text@ =~= old(text)@ + decimal_text(n as nat));
}

/// Decimal notation tells numbers apart.
pub proof fn lemma_decimal_injective(m: nat, n: nat)
    requires
        decimal_text(m) == decimal_text(n),
    ensures
        m == n,
    decreases m,
{
    lemma_decimal_length(m);
    lemma_decimal_length(n);
    let s = decimal_text(m);
    let t = decimal_text(n);
    assert(s.last() == t.last());
    assert(s.last() == digit_text(m % 10));
    assert(t.last() == digit_text(n % 10));
    if m >= 10 && n >= 10 {
        assert(s.drop_last() =~= decimal_text(m / 10));
        assert(t.drop_last() =~= decimal_text(n / 10));
        lemma_decimal_injective(m / 10, n / 10);
    }
}

/// Only a number under ten is written with one digit.
pub proof fn lemma_decimal_length(n: nat)
    ensures
        decimal_text(n).len() >= 1,
        n >= 10 ==> decimal_text(n).len() >= 2,
        n < 10 ==> decimal_text(n).len() == 1,
    decreases n,
{
    if n >= 10 {
        lemma_decimal_length(n / 10);
    }
}

/// The last `k` digits of a number.
pub open spec fn last_digits(n: nat, k: nat) -> Seq<char>
    decreases k,
{
    if k == 0 {
        Seq::empty()
    } else {
        last_digits(n / 10, (k - 1) as nat).push(digit_text(n % 10))
    }
}

/// Appends the last `k` digits of a number to a text.
pub fn append_last_digits(text: &mut String, n: u64, k: u32)
    ensures
        final(text)@ == old(text)@ + last_digits(n as nat, k as nat),
    decreases k,
{
    if k > 0 {
        append_last_digits(text, n / 10, k - 1);
        append_digit(text, n % 10);
    }
    assert(text@ =~= old(text)@ + last_digits(n as nat, k as nat));
}

/// A number without its last `k` digits.
pub fn without_last_digits(n: u64, k: u32) -> (r: u64)
    ensures
        r == n as nat / tens(k as int),
    decreases k,
{
    if k == 0 {
        proof {
            let (x, t) = (n as nat, tens(k as int));
            assert(x / t == x) by (nonlinear_arith)
                requires
                    t == 1,
            ;
        }
        n
    } else {
        proof {
            let (t, ten) = (tens(k - 1) as int, 10int);
            lemma_tens_pos(k - 1);
            vstd::arithmetic::div_mod::lemma_div_denominator(n as int, ten, t);
            assert(ten * t == tens(k as int)) by (nonlinear_arith)
                requires
                    ten == 10,
                    10 * t == tens(k as int),
            ;
        }
        without_last_digits(n / 10, k - 1)
    }
}

/// How many digits a number has.
pub fn digit_count(n: u64) -> (r: u32)
    ensures
        r == decimal_text(n as nat).len(),
        1 <= r <= 20,
{
    let mut left: u64 = n;
    let mut r: u32 = 1;
    proof {
        reveal_with_fuel(tens, 21);
        let (x, t) = (n as nat, tens(0));
        assert(x * t == x) by (nonlinear_arith)
            requires
                t == 1,
        ;
    }
    while left >= 10
        invariant
            decimal_text(n as nat).len() == decimal_text(left as nat).len() + r - 1,
            1 <= r,
            n > 0 ==> left > 0,
            left * tens(r - 1) <= n,
            tens(20) > 0x1_0000_0000_0000_0000,
        decreases left,
    {
        proof {
            let t = tens(r - 1);
            lemma_tens_pos(r - 1);
            let h = left as nat / 10;
            assert(h * (10 * t) <= left * t) by (nonlinear_arith)
                requires
                    10 * h <= left,
            ;
            assert(10 * t <= left * t) by (nonlinear_arith)
                requires
                    left >= 10,
            ;
            lemma_tens_order(r as int, 20);
        }
        left = left / 10;
        r = r + 1;
    }
    proof {
        let t = tens(r - 1);
        if n > 0 {
            assert(t <= left * t) by (nonlinear_arith)
                requires
                    left >= 1,
            ;
        }
        lemma_tens_order(r - 1, 20);
    }
    r
}

} // verus!
