use brush_viewer::scalar::Scalar;

fn s(x: f32) -> Scalar {
    Scalar::from_bits(x.to_bits())
}

/// A result agrees when the patterns do, or when both are no number.
fn agrees(r: Scalar, x: f32) -> bool {
    r.bits == x.to_bits() || (x.is_nan() && r.is_nan())
}

/// Patterns with every kind of number among them.
fn patterns() -> Vec<u32> {
    let mut v: Vec<u32> = vec![
        0x0000_0000, 0x8000_0000, 0x0000_0001, 0x8000_0001, 0x007f_ffff, 0x0080_0000, 0x00ff_ffff,
        0x3f80_0000, 0xbf80_0000, 0x3f7f_ffff, 0x3f80_0001, 0x4000_0000, 0x3f00_0000, 0x3dcc_cccd,
        0x7f7f_ffff, 0xff7f_ffff, 0x7f80_0000, 0xff80_0000, 0x7fc0_0000, 0xffc0_0001, 0x4b7f_ffff,
        0x4b80_0000, 0x4b80_0001, 0x3380_0000, 0x3300_0000, 0x5f80_0000, 0x1f80_0000, 0x437f_0000,
    ];
    let mut x: u32 = 0x1234_5678;
    for _ in 0..600 {
        x ^= x << 13;
        x ^= x >> 17;
        x ^= x << 5;
        v.push(x);
        // Numbers near one, so that sums and products stay finite.
        v.push((x & 0x83ff_ffff) | 0x3c00_0000);
    }
    v
}

#[test]
fn arithmetic_agrees_with_the_machine() {
    let v = patterns();
    for &a in &v {
        for &b in &v {
            let (x, y) = (f32::from_bits(a), f32::from_bits(b));
            let (p, q) = (Scalar::from_bits(a), Scalar::from_bits(b));
            assert!(agrees(p.plus(q), x + y), "{a:08x} + {b:08x}");
            assert!(agrees(p.minus(q), x - y), "{a:08x} - {b:08x}");
            assert!(agrees(p.times(q), x * y), "{a:08x} * {b:08x}");
            assert!(agrees(p.over(q), x / y), "{a:08x} / {b:08x}");
            assert_eq!(p.lt(q), x < y);
            assert_eq!(p.le(q), x <= y);
        }
    }
}

#[test]
fn close_exponents_agree_with_the_machine() {
    // Cancellation, ties and sticky bits at every gap between the exponents.
    let mut x: u32 = 0x9e37_79b9;
    for gap in 0..60u32 {
        for _ in 0..400 {
            x ^= x << 13;
            x ^= x >> 17;
            x ^= x << 5;
            let a = (x & 0x807f_ffff) | (100 << 23);
            x ^= x << 13;
            x ^= x >> 17;
            x ^= x << 5;
            let b = (x & 0x807f_fff0) | ((100 - gap) << 23);
            let (f, g) = (f32::from_bits(a), f32::from_bits(b));
            assert!(agrees(s(f).plus(s(g)), f + g), "{a:08x} + {b:08x}");
            assert!(agrees(s(f).minus(s(g)), f - g), "{a:08x} - {b:08x}");
        }
    }
}

#[test]
fn roots_and_negation_agree_with_the_machine() {
    for a in patterns() {
        let x = f32::from_bits(a);
        assert!(agrees(Scalar::from_bits(a).root(), x.sqrt()), "sqrt {a:08x}");
        assert_eq!(Scalar::from_bits(a).negated().bits, (-x).to_bits());
    }
    for n in 0..3000u32 {
        let x = (n * n) as f32;
        assert!(agrees(s(x).root(), x.sqrt()));
    }
}

#[test]
fn conversions_agree_with_the_machine() {
    for a in patterns() {
        let x = f32::from_bits(a);
        assert_eq!(Scalar::from_bits(a).to_byte(), x as u8);
        assert!(agrees(Scalar::from_u32(a), a as f32), "{a}");
        assert_eq!(Scalar::from_bits(a).is_nan(), x.is_nan());
        assert!(agrees(Scalar::from_bits(a).clamped(s(-1.5), s(2.5)), x.clamp(-1.5, 2.5)));
        assert!(agrees(Scalar::from_bits(a).at_least(s(0.01)), x.max(0.01)));
    }
    for n in 0..300u32 {
        let x = n as f32 + 0.75;
        assert_eq!(s(x).to_byte(), x as u8);
        assert_eq!(Scalar::from_u32(n).bits, (n as f32).to_bits());
    }
}

#[test]
fn exact_values() {
    assert_eq!(s(1.5).plus(s(2.25)), s(3.75));
    assert_eq!(s(1.0).minus(s(1.0)), s(0.0));
    assert_eq!(s(-0.0).plus(s(-0.0)), s(-0.0));
    assert_eq!(s(3.0).times(s(-0.5)), s(-1.5));
    assert_eq!(s(1.0).over(s(4.0)), s(0.25));
    assert_eq!(s(2.0).root(), s(std::f32::consts::SQRT_2));
    assert!(s(0.0).over(s(0.0)).is_nan());
    assert!(s(f32::INFINITY).minus(s(f32::INFINITY)).is_nan());
    assert!(s(-1.0).root().is_nan());
    // 2^24 + 1 lies halfway between two numbers and goes to the even one.
    assert_eq!(Scalar::from_u32(16_777_217), s(16_777_216.0));
    assert_eq!(Scalar::from_u32(16_777_219), s(16_777_220.0));
}

#[test]
fn addition_and_multiplication_commute() {
    assert_eq!(s(0.1).plus(s(0.7)), s(0.7).plus(s(0.1)));
    assert_eq!(s(0.1).times(s(0.7)), s(0.7).times(s(0.1)));
}

#[test]
fn numbers_are_ordered() {
    assert!(s(-0.0).le(s(0.0)) && s(0.0).le(s(-0.0)) && !s(-0.0).lt(s(0.0)));
    assert!(s(-2.0).lt(s(-1.0)) && s(-1.0).lt(s(1.0)) && s(1.0).lt(s(f32::INFINITY)));
    assert!(!s(f32::NAN).le(s(1.0)) && !s(1.0).lt(s(f32::NAN)));
}

#[test]
fn sums_round_to_the_nearest_number() {
    let ulp = f32::EPSILON;
    // A quarter of the last place goes down, three quarters go up, and a half to
    // the even neighbor.
    assert_eq!(s(1.0).plus(s(ulp * 0.25)), s(1.0));
    assert_eq!(s(1.0).plus(s(ulp * 0.75)), s(1.0 + ulp));
    assert_eq!(s(1.0).plus(s(ulp * 0.5)), s(1.0));
    assert_eq!(s(1.0 + ulp).plus(s(ulp * 0.5)), s(1.0 + 2.0 * ulp));
    // What is a number already stays as it is.
    assert_eq!(s(1.0).times(s(0.1)), s(0.1));
    assert_eq!(s(0.1).plus(s(0.0)), s(0.1));
    // A greater sum never rounds to a lesser number.
    assert!(s(1.0).plus(s(ulp * 0.25)).le(s(1.0).plus(s(ulp * 0.75))));
}

#[test]
fn what_is_past_the_greatest_number_is_infinite() {
    assert_eq!(s(f32::MAX).plus(s(f32::MAX)), s(f32::INFINITY));
    assert_eq!(s(f32::MAX).times(s(-2.0)), s(f32::NEG_INFINITY));
    assert_eq!(s(1.0).over(s(0.0)), s(f32::INFINITY));
}

#[test]
fn roots_are_the_nearest_numbers() {
    for x in [2.0f32, 3.0, 0.1, 1e-40, 1e30, f32::MAX, f32::MIN_POSITIVE] {
        let bits = s(x).root().bits;
        let at = |b: u32| f32::from_bits(b) as f64;
        let low = at(bits - 1) + at(bits);
        let high = at(bits) + at(bits + 1);
        assert!(low * low <= 4.0 * x as f64 && 4.0 * x as f64 <= high * high);
    }
}

#[test]
fn results_err_by_less_than_a_part_in_sixteen_million() {
    let part = 1.0 / 16_777_216.0;
    for (x, y) in [(0.1f32, 0.7f32), (3.3, -1e6), (1e-10, 7e9)] {
        let (a, b) = (x as f64, y as f64);
        let close = |r: Scalar, exact: f64| {
            (f32::from_bits(r.bits) as f64 - exact).abs() <= exact.abs() * part * 1.000001
        };
        assert!(close(s(x).plus(s(y)), a + b));
        assert!(close(s(x).times(s(y)), a * b));
        assert!(close(s(x).over(s(y)), a / b));
    }
    // Below that, by half the smallest positive number.
    let tiny = f32::from_bits(s(1e-20).over(s(7e19)).bits) as f64;
    assert!((tiny - 1e-20f32 as f64 / 7e19f32 as f64).abs() <= f32::from_bits(1) as f64 * 0.5);
}
