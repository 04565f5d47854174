use pdf_wm_remover::blocks::FontSize;
use pdf_wm_remover::size::tenths;

fn expected(size: f32) -> u32 {
    (size * 10.0) as u32
}

fn check(bits: u32) {
    assert_eq!(tenths(FontSize::Real(bits)), expected(f32::from_bits(bits)), "bits {bits:#x}");
}

#[test]
fn tenths_of_common_sizes() {
    assert_eq!(tenths(FontSize::Unset), 0);
    assert_eq!(tenths(FontSize::Integer(12)), 120);
    assert_eq!(tenths(FontSize::Integer(0)), 0);
    assert_eq!(tenths(FontSize::Real(10.5f32.to_bits())), 105);
    assert_eq!(tenths(FontSize::Real(7.98f32.to_bits())), 79);
    assert_eq!(tenths(FontSize::Real(0.05f32.to_bits())), 0);
}

#[test]
fn tenths_of_unusual_sizes() {
    assert_eq!(tenths(FontSize::Integer(-3)), 0);
    assert_eq!(tenths(FontSize::Real((-2.5f32).to_bits())), 0);
    assert_eq!(tenths(FontSize::Real(f32::NAN.to_bits())), 0);
    assert_eq!(tenths(FontSize::Real(f32::INFINITY.to_bits())), u32::MAX);
    assert_eq!(tenths(FontSize::Real(f32::NEG_INFINITY.to_bits())), 0);
    assert_eq!(tenths(FontSize::Real(f32::MAX.to_bits())), u32::MAX);
    assert_eq!(tenths(FontSize::Real(f32::MIN_POSITIVE.to_bits())), 0);
    assert_eq!(tenths(FontSize::Integer(i64::MAX)), u32::MAX);
    assert_eq!(tenths(FontSize::Integer(i64::MIN)), 0);
}

#[test]
fn tenths_agree_with_single_precision_for_reals() {
    for exponent in 0..512u32 {
        for fraction in [0, 1, 2, 3, 0x3f_ffff, 0x40_0000, 0x40_0001, 0x66_6666, 0x7f_fffe, 0x7f_ffff] {
            check(exponent << 23 | fraction);
        }
    }
    let mut bits: u32 = 0x1234_5678;
    for _ in 0..300_000 {
        bits = bits.wrapping_mul(1_664_525).wrapping_add(1_013_904_223);
        check(bits);
        check(0x4000_0000 | bits >> 4);
    }
}

#[test]
fn tenths_agree_with_single_precision_for_integers() {
    let mut numbers: Vec<i64> = vec![i64::MIN, -1, 0, 1, 2, 12, 429_496_729, 429_496_730, i64::MAX];
    for shift in 0..63 {
        for delta in -3..=3i64 {
            numbers.push((1i64 << shift).wrapping_add(delta));
            numbers.push((3i64 << (shift / 2)).wrapping_add(delta));
        }
    }
    let mut seed: u64 = 42;
    for _ in 0..200_000 {
        seed = seed.wrapping_mul(6_364_136_223_846_793_005).wrapping_add(1_442_695_040_888_963_407);
        numbers.push((seed >> (seed % 50)) as i64);
    }
    for n in numbers {
        assert_eq!(tenths(FontSize::Integer(n)), expected(n as f32), "number {n}");
    }
}
