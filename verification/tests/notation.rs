use dioxus_flow::{
    Double, FlowNode, NodeId, NodeMove, NumberFormat, Point, Size, TextAlign, Viewport,
};

fn double(x: f64) -> Double {
    Double::from_bits(x.to_bits())
}

fn check(x: f64) {
    assert_eq!(format!("{:?}", double(x)), format!("{x:?}"));
    assert_eq!(double(x).to_debug_text(), format!("{x:?}"));
    assert_eq!(double(x).to_text(), format!("{x}"));
}

#[test]
fn numbers_are_written_in_decimals() {
    assert_eq!(double(1.0).to_text(), "1");
    assert_eq!(double(1.0).to_debug_text(), "1.0");
    assert_eq!(double(-0.1).to_text(), "-0.1");
    assert_eq!(double(0.0).to_debug_text(), "0.0");
    assert_eq!(double(-0.0).to_debug_text(), "-0.0");
    assert_eq!(double(-0.0).to_text(), "-0");
    assert_eq!(double(f64::NAN).to_debug_text(), "NaN");
    assert_eq!(double(-f64::NAN).to_text(), "NaN");
    assert_eq!(double(f64::INFINITY).to_text(), "inf");
    assert_eq!(double(f64::NEG_INFINITY).to_debug_text(), "-inf");
    assert_eq!(double(123456.789).to_text(), "123456.789");
    assert_eq!(double(1500.0).to_text(), "1500");
    assert_eq!(double(1500.0).to_debug_text(), "1500.0");
    assert_eq!(double(0.1 + 0.2).to_text(), "0.30000000000000004");
}

#[test]
fn very_large_and_very_small_numbers_have_an_exponent() {
    assert_eq!(double(1e16).to_debug_text(), "1e16");
    assert_eq!(double(1e16).to_text(), "10000000000000000");
    assert_eq!(double(9999999999999998.0).to_debug_text(), "9999999999999998.0");
    assert_eq!(double(0.0001).to_debug_text(), "0.0001");
    assert_eq!(double(0.00009999).to_debug_text(), "9.999e-5");
    assert_eq!(double(f64::MAX).to_debug_text(), "1.7976931348623157e308");
    assert_eq!(double(f64::from_bits(1)).to_debug_text(), "5e-324");
    assert_eq!(double(f64::MIN_POSITIVE).to_debug_text(), "2.2250738585072014e-308");
    assert_eq!(double(-1.5e300).to_debug_text(), "-1.5e300");
}

#[test]
fn of_two_equally_near_decimals_the_greater_is_written() {
    assert_eq!(double(1125899906842624.25).to_text(), "1125899906842624.3");
    assert_eq!(double(1125899906842624.75).to_text(), "1125899906842624.8");
    assert_eq!(double(562949953421312.125).to_text(), "562949953421312.1");
}

#[test]
fn numbers_are_written_as_the_machine_writes_them() {
    let mut state: u64 = 7;
    for i in 0..3000u64 {
        state = state.wrapping_mul(6364136223846793005).wrapping_add(1442695040888963407);
        // Any pattern, a number of the size of coordinates, and a short fraction.
        check(f64::from_bits(state));
        check(f64::from_bits(state % (1 << 52)));
        check(((state >> 33) as f64 - 1073741824.0) / 262144.7);
        check((state % 100_000) as f64 / 64.0 - i as f64);
        check((i as f64 - 1500.0) / 1000.0);
    }
    for e in 0..2046u64 {
        check(f64::from_bits(e << 52));
        check(f64::from_bits((e << 52) + 1));
        check(f64::from_bits((e << 52) + ((1 << 52) - 1)));
    }
    let mut power = 1.0f64;
    for _ in 0..308 {
        check(power);
        check(1.0 / power);
        power *= 10.0;
    }
}

#[test]
fn what_is_written_reads_back() {
    let mut state: u64 = 23;
    for _ in 0..500 {
        state = state.wrapping_mul(6364136223846793005).wrapping_add(1442695040888963407);
        let x = f64::from_bits(state);
        if x.is_finite() {
            let text = double(x).to_text();
            assert_eq!(text.parse::<f64>().unwrap().to_bits(), x.to_bits());
        }
    }
}

#[test]
fn geometry_prints_its_numbers() {
    let point = Point::new(double(1.5), double(-2.0));
    assert_eq!(format!("{point:?}"), "Point { x: 1.5, y: -2.0 }");
    let size = Size::new(double(160.0), double(0.1));
    assert_eq!(format!("{size:?}"), "Size { width: 160.0, height: 0.1 }");
    let viewport = Viewport { x: double(0.0), y: double(1e20), zoom: double(0.35) };
    assert_eq!(format!("{viewport:?}"), "Viewport { x: 0.0, y: 1e20, zoom: 0.35 }");
    let node = FlowNode { id: NodeId::from("a"), position: point, size };
    assert_eq!(
        format!("{node:?}"),
        "FlowNode { id: NodeId(\"a\"), position: Point { x: 1.5, y: -2.0 }, \
         size: Size { width: 160.0, height: 0.1 } }"
    );
    let step = NodeMove { id: NodeId::from("a"), position: point };
    assert_eq!(
        format!("{step:?}"),
        "NodeMove { id: NodeId(\"a\"), position: Point { x: 1.5, y: -2.0 } }"
    );
    assert_eq!(format!("{point:.2?}"), "Point { x: 1.50, y: -2.00 }");
    assert_eq!(
        format!("{viewport:+.1?}"),
        "Viewport { x: +0.0, y: +100000000000000000000.0, zoom: +0.3 }"
    );
}

/// Writes a number in many formats, as the library and as the machine does.
fn check_formats(x: f64) {
    let d = double(x);
    assert_eq!(format!("{d:8?}|{d:+?}|{d:08?}"), format!("{x:8?}|{x:+?}|{x:08?}"));
    assert_eq!(format!("{d:.0?}|{d:.1?}|{d:.2?}"), format!("{x:.0?}|{x:.1?}|{x:.2?}"));
    assert_eq!(format!("{d:.3?}|{d:.17?}|{d:.60?}"), format!("{x:.3?}|{x:.17?}|{x:.60?}"));
    assert_eq!(format!("{d:<12?}|{d:^13?}|{d:>14?}"), format!("{x:<12?}|{x:^13?}|{x:>14?}"));
    assert_eq!(format!("{d:*<12.1?}|{d:#^13.4?}"), format!("{x:*<12.1?}|{x:#^13.4?}"));
    assert_eq!(format!("{d:+012.3?}|{d:<+012?}"), format!("{x:+012.3?}|{x:<+012?}"));
    assert_eq!(format!("{d:\u{e9}^+9.1?}|{d:#?}"), format!("{x:\u{e9}^+9.1?}|{x:#?}"));
    let n = 7;
    assert_eq!(format!("{d:+9?}|{d:n$?}|{d:.n$?}"), format!("{x:+9?}|{x:n$?}|{x:.n$?}"));
}

#[test]
fn formats_are_kept_to_as_the_machine_keeps_to_them() {
    for x in [
        0.0, -0.0, 0.5, 1.5, 2.5, -2.5, 0.25, 0.35, 0.05, 0.125, 0.375, 9.95, 99.995, 999.5,
        0.999_999, 1e15, 1e16, 1.5e300, 1e-5, 5e-324, -1e-320, f64::MAX, f64::MIN_POSITIVE,
        f64::NAN, -f64::NAN, f64::INFINITY, f64::NEG_INFINITY, 123456.789, 0.1, -1.0 / 3.0,
    ] {
        check_formats(x);
    }
    let mut state: u64 = 41;
    for _ in 0..400 {
        state = state.wrapping_mul(6364136223846793005).wrapping_add(1442695040888963407);
        check_formats(f64::from_bits(state));
        check_formats(((state >> 33) as f64 - 1073741824.0) / 262144.7);
        check_formats((state >> 50) as f64 / 64.0);
    }
}

#[test]
fn a_format_can_be_given_as_a_value() {
    let plain = NumberFormat {
        plus: false,
        zero: false,
        fill: ' ',
        align: None,
        width: None,
        precision: None,
    };
    assert_eq!(double(1.5).formatted(plain), "1.5");
    assert_eq!(double(f64::NAN).formatted(NumberFormat { plus: true, ..plain }), "NaN");
    assert_eq!(double(2.0).formatted(NumberFormat { plus: true, ..plain }), "+2.0");
    assert_eq!(double(1.256).formatted(NumberFormat { precision: Some(2), ..plain }), "1.26");
    assert_eq!(double(2.5).formatted(NumberFormat { precision: Some(0), ..plain }), "2");
    assert_eq!(double(9.99).formatted(NumberFormat { precision: Some(1), ..plain }), "10.0");
    let wide = NumberFormat { width: Some(8), fill: '*', ..plain };
    assert_eq!(double(-1.5).formatted(wide), "****-1.5");
    assert_eq!(
        double(-1.5).formatted(NumberFormat { align: Some(TextAlign::Left), ..wide }),
        "-1.5****"
    );
    assert_eq!(
        double(1.5).formatted(NumberFormat { align: Some(TextAlign::Center), ..wide }),
        "**1.5***"
    );
    assert_eq!(double(-1.5).formatted(NumberFormat { zero: true, ..wide }), "-00001.5");
}
