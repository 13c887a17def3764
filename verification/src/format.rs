//! How a number is written into a format such as `{:>+9.2?}`.
use crate::double::{Double, INFINITY_MAGNITUDE};
use crate::fixed::{fixed, fixed_text};
use crate::notation::{unsigned_debug, unsigned_debug_text};
use vstd::prelude::*;

verus! {

/// Where a text stands in a field that is wider.
#[derive(Clone, Copy, PartialEq, Eq, Structural)]
pub enum TextAlign {
    Left,
    Center,
    Right,
}

/// What a format asks for.
#[derive(Clone, Copy)]
pub struct NumberFormat {
    /// Whether a number that is not negative gets a plus sign.
    pub plus: bool,
    /// Whether the field is filled with zeros behind the sign.
    pub zero: bool,
    /// What the field is filled with otherwise.
    pub fill: char,
    /// Where the number stands in the field: at the right if nothing is asked for.
    pub align: Option<TextAlign>,
    /// How wide the field is at least.
    pub width: Option<usize>,
    /// With how many decimals the number is written.
    pub precision: Option<usize>,
}

/// A character, so many times.
pub open spec fn repeated(c: char, n: nat) -> Seq<char> {
    Seq::new(n, |i: int| c)
}

/// How much of `space` a text has in front of it.
pub open spec fn space_before(align: Option<TextAlign>, space: nat) -> nat {
    match align {
        Some(TextAlign::Left) => 0,
        Some(TextAlign::Center) => space / 2,
        Some(TextAlign::Right) => space,
        None => space,
    }
}

/// A sign and a text in the field that the format asks for.
pub open spec fn padded_text(sign: Seq<char>, unsigned: Seq<char>, format: NumberFormat) -> Seq<char> {
    let length = sign.len() + unsigned.len();
    let space = match format.width {
        Some(width) => if width > length {
            (width - length) as nat
        } else {
            0
        },
        None => 0,
    };
    let before = space_before(format.align, space);
    if format.zero {
        sign + repeated('0', space) + unsigned
    } else {
        repeated(format.fill, before) + sign + unsigned + repeated(
            format.fill,
            (space - before) as nat,
        )
    }
}

impl Double {
    /// The sign that is written: none for what is no number.
    pub open spec fn sign_text(self, plus: bool) -> Seq<char> {
        if self.nan() {
            Seq::empty()
        } else if self.negative() {
            "-"@
        } else if plus {
            "+"@
        } else {
            Seq::empty()
        }
    }

    /// What is written behind the sign. A precision asks for so many decimals; it does not
    /// change what is no finite number.
    pub open spec fn unsigned_formatted_text(self, precision: Option<usize>) -> Seq<char> {
        match precision {
            Some(places) => if self.finite() {
                fixed_text(self.magnitude(), places as nat)
            } else {
                unsigned_debug_text(self.magnitude())
            },
            None => unsigned_debug_text(self.magnitude()),
        }
    }

    /// The number as it is written into a format.
    pub open spec fn formatted_text(self, format: NumberFormat) -> Seq<char> {
        padded_text(
            self.sign_text(format.plus),
            self.unsigned_formatted_text(format.precision),
            format,
        )
    }

    /// The sign that is written.
    fn sign(self, plus: bool) -> (r: String)
        ensures
            r@ == self.sign_text(plus),
    {
        let (negative, m): (bool, u64) = self.sign_and_magnitude();
        if m > INFINITY_MAGNITUDE {
            String::new()
        } else if negative {
            "-".to_owned()
        } else if plus {
            "+".to_owned()
        } else {
            String::new()
        }
    }

    /// What is written behind the sign.
    fn unsigned_formatted(self, precision: Option<usize>) -> (r: String)
        ensures
            r@ == self.unsigned_formatted_text(precision),
    {
        let (_, m): (bool, u64) = self.sign_and_magnitude();
        match precision {
            Some(places) => if m < INFINITY_MAGNITUDE {
                fixed(m, places)
            } else {
                unsigned_debug(m)
            },
            None => unsigned_debug(m),
        }
    }

    /// The number as it is written into a format.
    pub fn formatted(self, format: NumberFormat) -> (r: String)
        ensures
            r@ == self.formatted_text(format),
    {
        let sign: String = self.sign(format.plus);
        let unsigned: String = self.unsigned_formatted(format.precision);
        let mut whole: String = sign.clone();
        whole.append(unsigned.as_str());
        let length: usize = whole.as_str().unicode_len();
        let space: usize = match format.width {
            Some(width) => if width > length {
                width - length
            } else {
                0
            },
            None => 0,
        };
        let mut r: String = String::new();
        if format.zero {
            r.append(sign.as_str());
            append_repeated(&mut r, '0', space);
            r.append(unsigned.as_str());
            assert(r@ =~= self.formatted_text(format));
        } else {
            let before: usize = match format.align {
                Some(TextAlign::Left) => 0,
                Some(TextAlign::Center) => space / 2,
                Some(TextAlign::Right) => space,
                None => space,
            };
            append_repeated(&mut r, format.fill, before);
            r.append(whole.as_str());
            append_repeated(&mut r, format.fill, space - before);
            assert(r@ =~= self.formatted_text(format));
        }
        r
    }
}

/// Where a format asks for nothing but `{:?}`, the number is written as
/// [`Double::to_debug_text`] writes it.
pub proof fn plain_format_is_debug_text(x: Double, format: NumberFormat)
    requires
        !format.plus,
        format.width is None,
        format.precision is None,
    ensures
        x.formatted_text(format) == x.debug_text(),
{
    assert(x.formatted_text(format) =~= x.debug_text());
}

/// A field is filled up to its width, and nothing is cut off.
pub proof fn formatted_fills_its_field(x: Double, format: NumberFormat)
    ensures
        ({
            let length = x.formatted_text(format).len();
            let needed = x.sign_text(format.plus).len() + x.unsigned_formatted_text(
                format.precision,
            ).len();
            length == match format.width {
                Some(width) => if width > needed {
                    width as nat
                } else {
                    needed
                },
                None => needed,
            }
        }),
{
}

/// Where a number stands in a field that is wider than it: the field is the number's sign
/// and text with only the fill around them, none at the side that is asked for, and for
/// the center as much before as behind or one less. With zeros the sign comes first.
pub proof fn field_is_filled_around_the_number(x: Double, format: NumberFormat)
    ensures
        ({
            let text = x.formatted_text(format);
            let sign = x.sign_text(format.plus);
            let unsigned = x.unsigned_formatted_text(format.precision);
            let space = text.len() - (sign.len() + unsigned.len());
            &&& space >= 0
            &&& format.zero ==> {
                &&& text.take(sign.len() as int) == sign
                &&& text.skip(sign.len() + space) == unsigned
                &&& forall|i: int|
                    sign.len() <= i < sign.len() + space ==> #[trigger] text[i] == '0'
            }
            &&& !format.zero ==> exists|before: int|
                {
                    &&& 0 <= before <= space
                    &&& #[trigger] text.skip(before).take((sign.len() + unsigned.len()) as int)
                        == sign + unsigned
                    &&& forall|i: int| 0 <= i < before ==> #[trigger] text[i] == format.fill
                    &&& forall|i: int|
                        before + sign.len() + unsigned.len() <= i < text.len()
                            ==> #[trigger] text[i] == format.fill
                    &&& format.align == Some(TextAlign::Left) ==> before == 0
                    &&& format.align is None || format.align == Some(TextAlign::Right) ==> before
                        == space
                    &&& format.align == Some(TextAlign::Center) ==> space - before == before || space
                        - before == before + 1
                }
        }),
{
    let text = x.formatted_text(format);
    let sign = x.sign_text(format.plus);
    let unsigned = x.unsigned_formatted_text(format.precision);
    let length = (sign.len() + unsigned.len()) as int;
    let space = text.len() - length;
    if format.zero {
        assert(text.take(sign.len() as int) =~= sign);
        assert(text.skip(sign.len() + space) =~= unsigned);
    } else {
        let before = space_before(format.align, space as nat) as int;
        assert(text.skip(before).take(length) =~= sign + unsigned);
    }
}

/// The sign that is written: a minus for what is negative, a plus for what is not if that
/// is asked for, and none for what is no number.
pub proof fn sign_is_that_of_the_number(x: Double, plus: bool)
    ensures
        ({
            let sign = x.sign_text(plus);
            &&& sign.len() <= 1
            &&& sign.len() == 1 && sign[0] == '-' <==> x.negative() && !x.nan()
            &&& sign.len() == 1 && sign[0] == '+' <==> plus && !x.negative() && !x.nan()
        }),
{
    reveal_strlit("-");
    reveal_strlit("+");
}

/// Appends a character so many times.
fn append_repeated(text: &mut String, c: char, n: usize)
    ensures
        final(text)@ == old(text)@ + repeated(c, n as nat),
{
    let mut i: usize = 0;
    assert(text@ =~= old(text)@ + repeated(c, 0));
    while i < n
        invariant
            i <= n,
            text@ == old(text)@ + repeated(c, i as nat),
        decreases n - i,
    {
        append_char(text, c);
        i = i + 1;
        assert(text@ =~= old(text)@ + repeated(c, i as nat));
    }
}

/// Calls `String::push`, which appends one character.
#[verifier::external_body]
fn append_char(text: &mut String, c: char)
    ensures
        final(text)@ == old(text)@.push(c),
{
    text.push(c)
}

/// The formatter that `{:?}` hands out. What it holds is not visible here.
#[verifier::external_type_specification]
#[verifier::external_body]
pub struct ExFormatter<'a>(core::fmt::Formatter<'a>);

/// The error of a formatter that cannot be written to.
#[verifier::external_type_specification]
#[verifier::external_body]
pub struct ExFormatError(core::fmt::Error);

/// Calls `Formatter::sign_plus`: whether the format has the flag `+`. Nothing is claimed
/// of which formats do.
#[verifier::external_body]
fn asks_for_plus(f: &core::fmt::Formatter<'_>) -> (r: bool) {
    f.sign_plus()
}

/// Calls `Formatter::sign_aware_zero_pad`: whether the format has the flag `0`. Nothing is
/// claimed of which formats do.
#[verifier::external_body]
fn asks_for_zeros(f: &core::fmt::Formatter<'_>) -> (r: bool) {
    f.sign_aware_zero_pad()
}

/// Calls `Formatter::fill`: the character that the format fills a field with. Nothing is
/// claimed of which one that is.
#[verifier::external_body]
fn asked_fill(f: &core::fmt::Formatter<'_>) -> (r: char) {
    f.fill()
}

/// Calls `Formatter::align`: where the format wants the text, if it says so. Nothing is
/// claimed of what it says.
#[verifier::external_body]
fn asked_align(f: &core::fmt::Formatter<'_>) -> (r: Option<TextAlign>) {
    match f.align() {
        Some(core::fmt::Alignment::Left) => Some(TextAlign::Left),
        Some(core::fmt::Alignment::Center) => Some(TextAlign::Center),
        Some(core::fmt::Alignment::Right) => Some(TextAlign::Right),
        None => None,
    }
}

/// Calls `Formatter::width`: the width of the field, if the format has one. Nothing is
/// claimed of what it is.
#[verifier::external_body]
fn asked_width(f: &core::fmt::Formatter<'_>) -> (r: Option<usize>) {
    f.width()
}

/// Calls `Formatter::precision`: the number of decimals, if the format has one. Nothing is
/// claimed of what it is.
#[verifier::external_body]
fn asked_precision(f: &core::fmt::Formatter<'_>) -> (r: Option<usize>) {
    f.precision()
}

/// Calls `Formatter::write_str`, which writes a text. Nothing is claimed of what the
/// formatter holds then, nor of whether it could be written to.
#[verifier::external_body]
fn write_text(f: &mut core::fmt::Formatter<'_>, text: &str) -> (r: core::fmt::Result) {
    f.write_str(text)
}

impl core::fmt::Debug for Double {
    /// Writes [`Double::formatted`], for what the format asks for.
    fn fmt(&self, f: &mut core::fmt::Formatter<'_>) -> (r: core::fmt::Result) {
        let format: NumberFormat = NumberFormat {
            plus: asks_for_plus(f),
            zero: asks_for_zeros(f),
            fill: asked_fill(f),
            align: asked_align(f),
            width: asked_width(f),
            precision: asked_precision(f),
        };
        let text: String = self.formatted(format);
        write_text(f, text.as_str())
    }
}

} // verus!
