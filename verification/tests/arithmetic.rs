//! The software arithmetic against the machine's.
use dioxus_flow::double::Double;
use dioxus_flow::drag::DRAG_THRESHOLD_SQUARED_BITS;
use dioxus_flow::geometry::{ONE_BITS, TWENTY_FOUR_BITS};
use dioxus_flow::scene::{LABEL_FRACTION_BITS, LABEL_HALF_HEIGHT_BITS, LABEL_HALF_WIDTH_BITS};
use dioxus_flow::viewport::{DOT_SPACING_BITS, TWO_BITS, WHEEL_RATE_BITS};

fn double(x: f64) -> Double {
    Double::from_bits(x.to_bits())
}

fn same(a: Double, b: f64) -> bool {
    if b.is_nan() {
        a.is_nan()
    } else {
        a.to_bits() == b.to_bits()
    }
}

/// A linear congruential sequence of patterns.
fn patterns(n: usize) -> Vec<u64> {
    let mut state: u64 = 0x1234_5678_9abc_def1;
    let mut out: Vec<u64> = vec![
        0,
        0x8000_0000_0000_0000,
        1,
        0x8000_0000_0000_0001,
        0x000f_ffff_ffff_ffff,
        0x0010_0000_0000_0000,
        0x3ff0_0000_0000_0000,
        0x3ff0_0000_0000_0001,
        0x3fef_ffff_ffff_ffff,
        0x4340_0000_0000_0000,
        0x7fef_ffff_ffff_ffff,
        0xffef_ffff_ffff_ffff,
        0x7ff0_0000_0000_0000,
        0xfff0_0000_0000_0000,
        0x7ff8_0000_0000_0000,
    ];
    for i in 0..n {
        state = state.wrapping_mul(6364136223846793005).wrapping_add(1442695040888963407);
        let x = state ^ (state >> 29);
        // Every other pattern is near one, where operands interact most.
        if i % 2 == 0 {
            out.push(x);
        } else {
            out.push((x & 0x800f_ffff_ffff_ffff) | ((1000 + (x >> 52) % 46) << 52));
        }
    }
    out
}

#[test]
fn arithmetic_agrees_with_the_machine() {
    let ps = patterns(300);
    for &p in ps.iter() {
        for &q in ps.iter() {
            let a = f64::from_bits(p);
            let b = f64::from_bits(q);
            let (x, y) = (double(a), double(b));
            assert!(same(x.plus(y), a + b), "{a:?} + {b:?}");
            assert!(same(x.minus(y), a - b), "{a:?} - {b:?}");
            assert!(same(x.times(y), a * b), "{a:?} * {b:?}");
            assert!(same(x.over(y), a / b), "{a:?} / {b:?}");
            assert!(same(x.rem(y), a % b), "{a:?} % {b:?}");
            assert!(same(x.rem_euclid(y), a.rem_euclid(b)), "{a:?} rem_euclid {b:?}");
        }
    }
}

#[test]
fn order_agrees_with_the_machine() {
    let ps = patterns(300);
    for &p in ps.iter() {
        for &q in ps.iter() {
            let a = f64::from_bits(p);
            let b = f64::from_bits(q);
            let (x, y) = (double(a), double(b));
            assert_eq!(x.less(y), a < b);
            assert_eq!(x.at_most(y), a <= b);
            assert_eq!(x == y, a == b);
            if a != b {
                assert!(same(x.min(y), a.min(b)));
                assert!(same(x.max(y), a.max(b)));
            }
        }
    }
}

#[test]
fn results_are_nearest_with_ties_to_even() {
    let one = double(1.0);
    let half_gap = double(f64::EPSILON / 2.0);
    assert_eq!(one.plus(half_gap).to_bits(), 1.0f64.to_bits());
    let odd = double(1.0 + f64::EPSILON);
    assert_eq!(odd.plus(half_gap).to_bits(), (1.0 + 2.0 * f64::EPSILON).to_bits());
    assert_eq!(one.over(double(3.0)).to_bits(), 0x3fd5_5555_5555_5555);
    assert_eq!(double(0.1).plus(double(0.2)).to_bits(), 0x3fd3_3333_3333_3334);
}

#[test]
fn special_results_are_marked() {
    let inf = double(f64::INFINITY);
    let zero = double(0.0);
    assert!(inf.minus(inf).is_nan());
    assert!(inf.times(zero).is_nan());
    assert!(zero.over(zero).is_nan());
    assert!(inf.over(inf).is_nan());
    assert!(double(5.0).rem(zero).is_nan());
    assert_eq!(double(1.0).over(zero.neg()).to_bits(), f64::NEG_INFINITY.to_bits());
    assert_eq!(double(f64::MAX).plus(double(f64::MAX)), inf);
    assert!(!inf.is_finite());
    assert!(double(-3.0).is_negative());
    assert_eq!(double(-3.0).abs(), double(3.0));
    assert_eq!(zero.neg().plus(zero.neg()).to_bits(), (-0.0f64).to_bits());
}

#[test]
fn remainders_are_exact() {
    assert_eq!(double(5.5).rem(double(2.0)), double(1.5));
    assert_eq!(double(-5.5).rem(double(2.0)), double(-1.5));
    assert_eq!(double(-5.5).rem_euclid(double(2.0)), double(0.5));
    assert_eq!(double(1e300).rem(double(3e-5)).to_bits(), (1e300f64 % 3e-5f64).to_bits());
}

#[test]
fn constants_stand_for_their_numbers() {
    assert_eq!(ONE_BITS, 1.0f64.to_bits());
    assert_eq!(TWO_BITS, 2.0f64.to_bits());
    assert_eq!(DRAG_THRESHOLD_SQUARED_BITS, 9.0f64.to_bits());
    assert_eq!(LABEL_HALF_HEIGHT_BITS, 10.0f64.to_bits());
    assert_eq!(DOT_SPACING_BITS, 20.0f64.to_bits());
    assert_eq!(LABEL_HALF_WIDTH_BITS, 22.0f64.to_bits());
    assert_eq!(TWENTY_FOUR_BITS, 24.0f64.to_bits());
    assert_eq!(LABEL_FRACTION_BITS, 0.68f64.to_bits());
    assert_eq!(WHEEL_RATE_BITS, 0.0015f64.to_bits());
}
