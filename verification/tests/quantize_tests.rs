use resin_slicer::grid::{GridPoint, COORD_LIMIT, GRID_PER_UNIT};
use resin_slicer::quantize::{float_count, quantize, quantize_point};

fn by_floats(v: f32) -> Option<i64> {
    if !v.is_finite() {
        return None;
    }
    let scaled = (v as f64 * 1_000_000.0).round();
    if scaled.abs() > 1.0e12 {
        None
    } else {
        Some(scaled as i64)
    }
}

#[test]
fn quantize_gives_exact_grid_steps() {
    assert_eq!(quantize(0.0f32.to_bits()), Some(0));
    assert_eq!(quantize((-0.0f32).to_bits()), Some(0));
    assert_eq!(quantize(1.0f32.to_bits()), Some(1_000_000));
    assert_eq!(quantize(0.5f32.to_bits()), Some(500_000));
    assert_eq!(quantize((-1.5f32).to_bits()), Some(-1_500_000));
    assert_eq!(quantize(0.25f32.to_bits()), Some(250_000));
    assert_eq!(quantize(123.0f32.to_bits()), Some(123_000_000));
}

#[test]
fn quantize_rounds_half_away_from_zero() {
    // 2^-21 is 0.476837158203125 grid steps, 2^-20 is 0.95367431640625.
    assert_eq!(quantize(f32::from_bits(0x3500_0000).to_bits()), Some(0));
    assert_eq!(quantize(f32::from_bits(0x3580_0000).to_bits()), Some(1));
    // 1.5 grid steps cannot be written exactly; 0.0000015 lies just above.
    assert_eq!(quantize(0.000_001_5f32.to_bits()), Some(2));
    assert_eq!(quantize((-0.000_001_5f32).to_bits()), Some(-2));
    // The smallest subnormal is far below half a step.
    assert_eq!(quantize(1), Some(0));
    assert_eq!(quantize(0x8000_0001), Some(0));
}

#[test]
fn quantize_refuses_what_is_no_number() {
    assert_eq!(quantize(f32::NAN.to_bits()), None);
    assert_eq!(quantize(f32::INFINITY.to_bits()), None);
    assert_eq!(quantize(f32::NEG_INFINITY.to_bits()), None);
    assert_eq!(quantize(0x7fc0_0001), None);
}

#[test]
fn quantize_refuses_what_lies_beyond_the_grid() {
    assert_eq!(quantize(1.0e6f32.to_bits()), Some(COORD_LIMIT));
    assert_eq!(quantize((-1.0e6f32).to_bits()), Some(-COORD_LIMIT));
    assert_eq!(quantize(1.000_001e6f32.to_bits()), None);
    assert_eq!(quantize(2.0e6f32.to_bits()), None);
    assert_eq!(quantize(f32::MAX.to_bits()), None);
    assert_eq!(quantize(3.0e20f32.to_bits()), None);
    assert_eq!(GRID_PER_UNIT, 1_000_000);
}

#[test]
fn quantize_agrees_with_rounding_in_double_precision() {
    let mut bits: u32 = 0;
    let mut checked = 0;
    loop {
        let v = f32::from_bits(bits);
        assert_eq!(quantize(bits), by_floats(v), "bits {:#x}", bits);
        assert_eq!(quantize(bits | 0x8000_0000), by_floats(-v), "bits {:#x}", bits);
        checked += 1;
        match bits.checked_add(0x0000_c357) {
            Some(next) if next < 0x8000_0000 => bits = next,
            _ => break,
        }
    }
    assert!(checked > 40_000);
}

#[test]
fn quantize_point_reads_all_three_coordinates() {
    let p = quantize_point(&[1.0f32.to_bits(), (-2.0f32).to_bits(), 0.5f32.to_bits()]);
    assert_eq!(p, Some(GridPoint { x: 1_000_000, y: -2_000_000, z: 500_000 }));
    let q = quantize_point(&[1.0f32.to_bits(), f32::NAN.to_bits(), 0.5f32.to_bits()]);
    assert_eq!(q, None);
}

#[test]
fn float_is_read_as_a_count_like_a_cast() {
    let samples = [
        0.0f32, -0.0, 0.4, 0.99999, 1.0, 1.5, 2.0, 7.9, 8.0, 255.0, 16_777_215.0, 16_777_216.0,
        4_294_967_040.0, 4_294_967_296.0, 1.0e19, 1.8e19, 1.9e19, 3.0e38, -1.0, -0.5, -3.0e38,
        1.0e-40, f32::MIN_POSITIVE, f32::MAX, f32::INFINITY, f32::NEG_INFINITY, f32::NAN,
    ];
    for v in samples {
        assert_eq!(float_count(v.to_bits()), v as usize, "{}", v);
    }
    assert_eq!(float_count(3.7f32.to_bits()), 3);
    assert_eq!(float_count(f32::INFINITY.to_bits()), usize::MAX);
    assert_eq!(float_count(0x7fc0_0000), 0);
    assert_eq!(float_count(0xffc0_0000), 0);
}

#[test]
fn float_counts_agree_with_the_cast_over_the_range() {
    let mut bits: u32 = 0;
    loop {
        assert_eq!(float_count(bits), f32::from_bits(bits) as usize, "bits {:#x}", bits);
        match bits.checked_add(0x0001_86a3) {
            Some(next) => bits = next,
            None => break,
        }
    }
}
