use burn_kda::float::{above_zero, narrow, negate, scale_width, F32, F64};

/// Bit patterns from all over the range.
fn patterns() -> Vec<u64> {
    let mut seed: u64 = 42;
    let mut all = vec![
        0,
        1,
        0x8000_0000_0000_0000,
        f64::INFINITY.to_bits(),
        f64::NEG_INFINITY.to_bits(),
        f64::MAX.to_bits(),
        f64::MIN_POSITIVE.to_bits(),
        1.0f64.to_bits(),
        0.95f64.to_bits(),
        1e-5f64.to_bits(),
        (f32::MAX as f64).to_bits(),
        (f32::MAX as f64 * 1.0000001).to_bits(),
        (f32::MIN_POSITIVE as f64).to_bits(),
        (f32::MIN_POSITIVE as f64 / 3.0).to_bits(),
        1.4e-45f64.to_bits(),
        0.7e-45f64.to_bits(),
        0.70064923216240853e-45f64.to_bits(),
        (1.0f64 + 2f64.powi(-24)).to_bits(),
        (1.0f64 + 3.0 * 2f64.powi(-24)).to_bits(),
        (1.0f64 + 2f64.powi(-24) + 2f64.powi(-52)).to_bits(),
    ];
    for _ in 0..20000 {
        seed = seed.wrapping_mul(6364136223846793005).wrapping_add(1442695040888963407);
        all.push(seed);
        let exponent = 1023 - 150 + (seed >> 32) % 280;
        all.push((seed & 0x800f_ffff_ffff_ffff) | (exponent << 52));
    }
    all
}

#[test]
fn narrowing_is_the_cast() {
    for bits in patterns() {
        let x = f64::from_bits(bits);
        let got = f32::from_bits(narrow(F64 { bits }).bits);
        if x.is_nan() {
            assert!(got.is_nan());
        } else {
            assert_eq!(got.to_bits(), (x as f32).to_bits(), "{x:e}");
        }
    }
}

#[test]
fn above_zero_is_the_comparison() {
    for bits in patterns() {
        assert_eq!(above_zero(F64 { bits }), f64::from_bits(bits) > 0.0);
    }
    assert!(!above_zero(F64 { bits: f64::NAN.to_bits() }));
}

#[test]
fn negation_flips_the_sign() {
    for x in [0.0f32, -0.0, 1.5, -2.25, f32::INFINITY, f32::NEG_INFINITY, 1e-40] {
        assert_eq!(negate(x.to_bits()), (-x).to_bits());
    }
    assert!(f32::from_bits(negate(f32::NAN.to_bits())).is_nan());
}

#[test]
fn widths_scale_as_the_casts_do() {
    let mut factors: Vec<f32> = vec![
        0.0, -0.0, 1.0, 0.5, 1.5, 2.0, 0.1, 1.3, 1e-3, 1e20, 1e38, 1e-40, -1.0,
        f32::INFINITY, f32::NEG_INFINITY, f32::NAN, f32::MAX, f32::MIN_POSITIVE,
    ];
    factors.extend(patterns().iter().take(400).map(|b| f32::from_bits(*b as u32)));
    let widths = [
        0usize, 1, 2, 3, 7, 16, 31, 32, 64, 100, 128, 255, 1000, 4097, 16777215, 16777216, 16777217,
        16777219, 33554435, 1 << 40, (1 << 53) + 1, usize::MAX / 3, usize::MAX - 1, usize::MAX,
    ];
    for n in widths {
        for f in &factors {
            let expected = (n as f32 * f) as usize;
            assert_eq!(scale_width(n, F32 { bits: f.to_bits() }), expected, "{n} * {f:e}");
        }
    }
}

#[test]
fn a_factor_of_one_keeps_a_width() {
    for n in [0usize, 1, 32, 33, 127, 4096, 9999, 16777214, 16777215] {
        assert_eq!(scale_width(n, F32 { bits: 1.0f32.to_bits() }), n);
    }
}
