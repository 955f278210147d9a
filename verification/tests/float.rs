use velo::float::{Double, Single};

fn singles() -> Vec<f32> {
    vec![
        f32::NEG_INFINITY,
        f32::MIN,
        -1.5,
        -1.0,
        -f32::MIN_POSITIVE,
        -0.0,
        0.0,
        1e-40,
        1.0,
        2.5,
        f32::MAX,
        f32::INFINITY,
        f32::NAN,
        -f32::NAN,
    ]
}

#[test]
fn singles_compare_like_floats() {
    for a in singles() {
        for b in singles() {
            let x = Single::from_bits(a.to_bits());
            let y = Single::from_bits(b.to_bits());
            assert_eq!(x.lt(y), a < b, "{a} < {b}");
            assert_eq!(x == y, a == b, "{a} == {b}");
            assert_eq!(x.total_lt(y), a.total_cmp(&b).is_lt(), "{a} before {b}");
        }
        let x = Single::from_bits(a.to_bits());
        assert_eq!(x.is_nan(), a.is_nan());
        assert_eq!(x.is_finite(), a.is_finite());
    }
}

#[test]
fn doubles_compare_like_floats() {
    for a in singles() {
        for b in singles() {
            let (a, b) = (a as f64, b as f64);
            let x = Double::from_bits(a.to_bits());
            let y = Double::from_bits(b.to_bits());
            assert_eq!(x.lt(y), a < b);
            assert_eq!(x == y, a == b);
        }
    }
}

#[test]
fn integers_convert_like_casts() {
    let mut cases: Vec<i64> = vec![0, 1, -1, 2021, i64::MAX, i64::MIN, i64::MAX - 511];
    for shift in 50..63 {
        for offset in -3..=3 {
            cases.push((1i64 << shift) + offset);
            cases.push(-(1i64 << shift) + offset);
        }
    }
    for n in cases {
        assert_eq!(Double::from_i64(n).to_bits(), (n as f64).to_bits(), "{n}");
    }
    for n in [0u64, 1, u64::MAX, u64::MAX - 1023, (1 << 53) + 1, (1 << 54) + 2] {
        assert_eq!(Double::from_u64(n).to_bits(), (n as f64).to_bits(), "{n}");
    }
}

#[test]
fn unit_fractions_are_exact() {
    for k in [0u32, 1, 2, 3, 0x80_0000, 0xFF_FFFF] {
        let expected = k as f32 / (1u32 << 24) as f32;
        assert_eq!(Single::from_unit_fraction(k).to_bits(), expected.to_bits());
    }
}

#[test]
fn bytes_convert_exactly() {
    for n in 0..=255u8 {
        assert_eq!(Single::from_u8(n).to_bits(), (n as f32).to_bits());
    }
}

#[test]
fn nearest_bytes_are_rounded_and_clamped() {
    let mut cases = singles();
    for k in 0..1100 {
        cases.push(k as f32 / 4.0 - 5.0);
    }
    cases.push(0.499_999_97);
    cases.push(254.499_98);
    for x in cases {
        let expected = x.round().clamp(0.0, 255.0) as u8;
        assert_eq!(Single::from_bits(x.to_bits()).to_nearest_byte(), expected, "{x}");
    }
}

#[test]
fn floors_are_kept_within_their_limit() {
    for x in [0.0f64, -0.0, -3.5, 0.99, 1.0, 1.5, 31.999, 32.0, 33.0, 1e300, 5e15, f64::INFINITY, f64::NAN] {
        let expected = (x.floor() as usize).min(32);
        assert_eq!(Double::from_bits(x.to_bits()).floor_up_to(32) as usize, expected, "{x}");
    }
}

#[test]
fn negation_flips_the_sign() {
    for x in singles() {
        assert_eq!(Single::from_bits(x.to_bits()).negated().to_bits(), (-x).to_bits());
    }
}
