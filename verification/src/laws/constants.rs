//! What the bit patterns of the constants stand for.
use crate::arithmetic::one;
use crate::double::{lemma_magnitude_step, magnitude_value, Double};
use crate::drag::DRAG_THRESHOLD_SQUARED_BITS;
use crate::geometry::{ONE_BITS, TWENTY_FOUR_BITS};
use crate::rounding::nearest;
use crate::scene::{LABEL_FRACTION_BITS, LABEL_HALF_HEIGHT_BITS, LABEL_HALF_WIDTH_BITS};
use crate::viewport::{DOT_SPACING_BITS, TWO_BITS, WHEEL_RATE_BITS};
use vstd::arithmetic::power2::{lemma2_to64, lemma2_to64_rest, lemma_pow2_adds, lemma_pow2_pos, pow2};
use vstd::prelude::*;

verus! {

/// The number `n` as a value.
pub open spec fn whole(n: int) -> int {
    n * one()
}

/// The patterns that stand for whole numbers stand for the numbers they are named
/// after; the two others are the numbers nearest to `0.68` and to `0.0015`.
pub proof fn constants_are_what_they_say()
    ensures
        (Double { bits: ONE_BITS }).value() == whole(1),
        (Double { bits: TWO_BITS }).value() == whole(2),
        (Double { bits: DRAG_THRESHOLD_SQUARED_BITS }).value() == whole(9),
        (Double { bits: LABEL_HALF_HEIGHT_BITS }).value() == whole(10),
        (Double { bits: DOT_SPACING_BITS }).value() == whole(20),
        (Double { bits: LABEL_HALF_WIDTH_BITS }).value() == whole(22),
        (Double { bits: TWENTY_FOUR_BITS }).value() == whole(24),
        nearest(68 * one(), 100, LABEL_FRACTION_BITS as int),
        nearest(15 * one(), 10000, WHEEL_RATE_BITS as int),
{
    lemma2_to64();
    lemma2_to64_rest();
    lemma_pow2_adds(1022, 52);
    lemma_pow2_adds(1023, 51);
    lemma_pow2_adds(1025, 49);
    lemma_pow2_adds(1026, 48);
    let p = pow2(1022) as int;
    lemma_pow2_adds(1022, 1);
    lemma_pow2_adds(1022, 3);
    lemma_pow2_adds(1022, 4);
    assert(one() == p * 0x10_0000_0000_0000);
    assert(whole(1) == one() && whole(2) == 2 * one() && whole(9) == 9 * one() && whole(10) == 10
        * one() && whole(20) == 20 * one() && whole(22) == 22 * one() && whole(24) == 24 * one())
        by (nonlinear_arith);
    assert(magnitude_value(ONE_BITS as int) == 0x10_0000_0000_0000 * p);
    assert(magnitude_value(TWO_BITS as int) == 0x10_0000_0000_0000 * pow2(1023));
    assert(magnitude_value(DRAG_THRESHOLD_SQUARED_BITS as int) == 0x12_0000_0000_0000 * pow2(1025));
    assert(magnitude_value(LABEL_HALF_HEIGHT_BITS as int) == 0x14_0000_0000_0000 * pow2(1025));
    assert(magnitude_value(DOT_SPACING_BITS as int) == 0x14_0000_0000_0000 * pow2(1026));
    assert(magnitude_value(LABEL_HALF_WIDTH_BITS as int) == 0x16_0000_0000_0000 * pow2(1026));
    assert(magnitude_value(TWENTY_FOUR_BITS as int) == 0x18_0000_0000_0000 * pow2(1026));
    // 0.68 and 0.0015
    let q = pow2(1021) as int;
    lemma_pow2_adds(1021, 53);
    assert(magnitude_value(LABEL_FRACTION_BITS as int) == 0x15_c28f_5c28_f5c3 * q);
    lemma_magnitude_step(LABEL_FRACTION_BITS as int);
    lemma_magnitude_step(LABEL_FRACTION_BITS - 1);
    lemma_pow2_pos(1021);
    assert(nearest(68 * one(), 100, LABEL_FRACTION_BITS as int));
    let r = pow2(1012) as int;
    lemma_pow2_adds(1012, 62);
    lemma_pow2_pos(1012);
    assert(magnitude_value(WHEEL_RATE_BITS as int) == 0x18_9374_bc6a_7efa * r);
    lemma_magnitude_step(WHEEL_RATE_BITS as int);
    lemma_magnitude_step(WHEEL_RATE_BITS - 1);
    assert(nearest(15 * one(), 10000, WHEEL_RATE_BITS as int));
}

} // verus!
