//! Numbers as text.
use crate::decimal::{is_shortest, shortest_decimal, shortest_is_unique};
use crate::digits::{
    append_decimal, append_last_digits, decimal_text, digit_count, last_digits, tens,
    without_last_digits,
};
use crate::double::{Double, INFINITY_MAGNITUDE, SIGN_BIT};
use vstd::prelude::*;

verus! {

/// The magnitude of `1e16`, from which on [`Double::debug_text`] writes an exponent.
pub const LARGE_MAGNITUDE: u64 = 0x4341_c379_37e0_8000;

/// The magnitude of the number nearest to `1e-4`, below which [`Double::debug_text`]
/// writes an exponent.
pub const SMALL_MAGNITUDE: u64 = 0x3f1a_36e2_eb1c_432d;

/// The digits of the shortest decimal that reads as the number with magnitude `m`, and
/// the power of ten that they count.
pub open spec fn shortest_digits(m: int) -> (nat, int) {
    choose|p: (nat, int)| #[trigger] is_shortest(p.0, p.1, m)
}

/// That many zeros.
pub open spec fn zeros(k: nat) -> Seq<char> {
    Seq::new(k, |i: int| '0')
}

/// The decimal `d * 10^e` without an exponent. With `fraction` a whole number ends in
/// `.0`.
pub open spec fn positional_text(d: nat, e: int, fraction: bool) -> Seq<char> {
    if e < 0 {
        decimal_text(d / tens(-e)) + "."@ + last_digits(d, (-e) as nat)
    } else if fraction {
        decimal_text(d) + zeros(e as nat) + ".0"@
    } else {
        decimal_text(d) + zeros(e as nat)
    }
}

/// A whole number with its sign.
pub open spec fn integer_text(n: int) -> Seq<char> {
    if n < 0 {
        "-"@ + decimal_text((-n) as nat)
    } else {
        decimal_text(n as nat)
    }
}

/// The decimal `d * 10^e` with one digit before the point, and an exponent.
pub open spec fn exponential_text(d: nat, e: int) -> Seq<char> {
    let behind = (decimal_text(d).len() - 1) as nat;
    if behind == 0 {
        decimal_text(d) + "e"@ + integer_text(e)
    } else {
        decimal_text(d / tens(behind as int)) + "."@ + last_digits(d, behind) + "e"@ + integer_text(
            e + behind,
        )
    }
}

/// A number without its sign, as it is shown to users: the shortest digits, without an
/// exponent.
pub open spec fn unsigned_text(m: int) -> Seq<char> {
    if m > INFINITY_MAGNITUDE {
        "NaN"@
    } else if m == INFINITY_MAGNITUDE {
        "inf"@
    } else if m == 0 {
        "0"@
    } else {
        positional_text(shortest_digits(m).0, shortest_digits(m).1, false)
    }
}

/// A number without its sign, as it is shown to programmers: the shortest digits, always
/// with a fraction or an exponent. Very large and very small numbers have an exponent.
pub open spec fn unsigned_debug_text(m: int) -> Seq<char> {
    if m > INFINITY_MAGNITUDE {
        "NaN"@
    } else if m == INFINITY_MAGNITUDE {
        "inf"@
    } else if m == 0 {
        "0.0"@
    } else if m >= LARGE_MAGNITUDE || m < SMALL_MAGNITUDE {
        exponential_text(shortest_digits(m).0, shortest_digits(m).1)
    } else {
        positional_text(shortest_digits(m).0, shortest_digits(m).1, true)
    }
}

/// Appends zeros to a text.
fn append_zeros(text: &mut String, k: u32)
    ensures
        final(text)@ == old(text)@ + zeros(k as nat),
{
    let mut i: u32 = 0;
    proof {
        reveal_strlit("0");
        assert(text@ =~= old(text)@ + zeros(0));
    }
    while i < k
        invariant
            i <= k,
            text@ == old(text)@ + zeros(i as nat),
            "0"@ == seq!['0'],
        decreases k - i,
    {
        text.append("0");
        i = i + 1;
        assert(text@ =~= old(text)@ + zeros(i as nat));
    }
}

/// The decimal `d * 10^e` without an exponent.
fn positional(d: u64, e: i32, fraction: bool) -> (r: String)
    requires
        -1100 <= e <= 400,
    ensures
        r@ == positional_text(d as nat, e as int, fraction),
{
    let mut r: String = String::new();
    if e < 0 {
        let places: u32 = (-e) as u32;
        append_decimal(&mut r, without_last_digits(d, places));
        r.append(".");
        append_last_digits(&mut r, d, places);
        assert(r@ =~= positional_text(d as nat, e as int, fraction));
    } else {
        append_decimal(&mut r, d);
        append_zeros(&mut r, e as u32);
        if fraction {
            r.append(".0");
        }
        assert(r@ =~= positional_text(d as nat, e as int, fraction));
    }
    r
}

/// The decimal `d * 10^e` with an exponent.
fn exponential(d: u64, e: i32) -> (r: String)
    requires
        -1100 <= e <= 400,
    ensures
        r@ == exponential_text(d as nat, e as int),
{
    let behind: u32 = digit_count(d) - 1;
    let mut r: String = String::new();
    if behind == 0 {
        append_decimal(&mut r, d);
    } else {
        append_decimal(&mut r, without_last_digits(d, behind));
        r.append(".");
        append_last_digits(&mut r, d, behind);
    }
    r.append("e");
    let exponent: i32 = e + behind as i32;
    if exponent < 0 {
        r.append("-");
        append_decimal(&mut r, (-exponent) as u64);
    } else {
        append_decimal(&mut r, exponent as u64);
    }
    assert(r@ =~= exponential_text(d as nat, e as int));
    r
}

/// The shortest digits of a number, and the power of ten that they count.
fn digits_of(m: u64) -> (r: (u64, i32))
    requires
        0 < m < INFINITY_MAGNITUDE,
    ensures
        (r.0 as nat, r.1 as int) == shortest_digits(m as int),
        -1100 <= r.1 <= 400,
{
    let r: (u64, i32) = shortest_decimal(m);
    proof {
        let p = (r.0 as nat, r.1 as int);
        assert(is_shortest(p.0, p.1, m as int));
        let q = shortest_digits(m as int);
        shortest_is_unique(p.0, p.1, q.0, q.1, m as int);
    }
    r
}

/// A number without its sign, as it is shown to programmers.
pub fn unsigned_debug(m: u64) -> (r: String)
    ensures
        r@ == unsigned_debug_text(m as int),
{
    if m > INFINITY_MAGNITUDE {
        "NaN".to_owned()
    } else if m == INFINITY_MAGNITUDE {
        "inf".to_owned()
    } else if m == 0 {
        "0.0".to_owned()
    } else {
        let (d, e): (u64, i32) = digits_of(m);
        if m >= LARGE_MAGNITUDE || m < SMALL_MAGNITUDE {
            exponential(d, e)
        } else {
            positional(d, e, true)
        }
    }
}

/// A number without its sign, as it is shown to users.
fn unsigned_display(m: u64) -> (r: String)
    ensures
        r@ == unsigned_text(m as int),
{
    if m > INFINITY_MAGNITUDE {
        "NaN".to_owned()
    } else if m == INFINITY_MAGNITUDE {
        "inf".to_owned()
    } else if m == 0 {
        "0".to_owned()
    } else {
        let (d, e): (u64, i32) = digits_of(m);
        positional(d, e, false)
    }
}

/// A text, with a minus sign in front if there is one.
fn with_sign(negative: bool, unsigned: String) -> (r: String)
    ensures
        r@ == if negative {
            "-"@ + unsigned@
        } else {
            unsigned@
        },
{
    if negative {
        let mut r: String = "-".to_owned();
        r.append(unsigned.as_str());
        r
    } else {
        unsigned
    }
}

impl Double {
    /// Whether the sign bit is set, and the pattern without it.
    pub fn sign_and_magnitude(self) -> (r: (bool, u64))
        ensures
            r.0 == self.negative(),
            r.1 == self.magnitude(),
    {
        if self.bits >= SIGN_BIT {
            (true, self.bits - SIGN_BIT)
        } else {
            (false, self.bits)
        }
    }

    /// The number as it is shown to users.
    pub open spec fn display_text(self) -> Seq<char> {
        if self.negative() && !self.nan() {
            "-"@ + unsigned_text(self.magnitude())
        } else {
            unsigned_text(self.magnitude())
        }
    }

    /// The number as text: the shortest digits by which it can be told from every other
    /// number, without an exponent.
    pub fn to_text(self) -> (r: String)
        ensures
            r@ == self.display_text(),
    {
        let (negative, m): (bool, u64) = self.sign_and_magnitude();
        with_sign(negative && m <= INFINITY_MAGNITUDE, unsigned_display(m))
    }

    /// The number as it is shown to programmers.
    pub open spec fn debug_text(self) -> Seq<char> {
        if self.negative() && !self.nan() {
            "-"@ + unsigned_debug_text(self.magnitude())
        } else {
            unsigned_debug_text(self.magnitude())
        }
    }

    /// The number as text, with a fraction or an exponent: what `{:?}` writes.
    pub fn to_debug_text(self) -> (r: String)
        ensures
            r@ == self.debug_text(),
    {
        let (negative, m): (bool, u64) = self.sign_and_magnitude();
        with_sign(negative && m <= INFINITY_MAGNITUDE, unsigned_debug(m))
    }
}

} // verus!
