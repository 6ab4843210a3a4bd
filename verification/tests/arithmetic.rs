//! Single-precision arithmetic against the arithmetic of the machine.
use ternary_quantize::Binary32;

fn num(x: f32) -> Binary32 {
    Binary32::from_bits(x.to_bits())
}

/// Bit for bit the same, or both NaN.
fn same(x: Binary32, y: f32) -> bool {
    if y.is_nan() {
        x.is_nan()
    } else {
        x.to_bits() == y.to_bits()
    }
}

/// Bit patterns that meet every branch: zeros, subnormals, powers of two, the
/// neighbours of infinity, infinities and NaN.
fn corners() -> Vec<u32> {
    let magnitudes = vec![
        0u32, 1, 2, 3, 0x7F_FFFE, 0x7F_FFFF, 0x80_0000, 0x80_0001, 0xFF_FFFF, 0x100_0000,
        0x100_0001, 0x3280_0000, 0x3380_0000, 0x3380_0001, 0x3400_0000, 0x3EFF_FFFF, 0x3F00_0000,
        0x3F7F_FFFF, 0x3F80_0000, 0x3F80_0001, 0x3FFF_FFFF, 0x4000_0000, 0x4040_0000, 0x4B00_0000,
        0x4B7F_FFFF, 0x4B80_0000, 0x5F80_0000, 0x7E80_0000, 0x7EFF_FFFF, 0x7F00_0000, 0x7F7F_FFFF,
        0x7F80_0000, 0x7F80_0001, 0x7FC0_0000, 0x7FFF_FFFF,
    ];
    let mut all = magnitudes.clone();
    for m in magnitudes {
        all.push(m | 0x8000_0000);
    }
    all
}

fn check_pair(a: u32, b: u32) {
    let (x, y) = (f32::from_bits(a), f32::from_bits(b));
    let (p, q) = (Binary32::from_bits(a), Binary32::from_bits(b));
    assert!(same(p.add(q), x + y), "{} + {}", x, y);
    assert!(same(p.sub(q), x - y), "{} - {}", x, y);
    assert!(same(p.mul(q), x * y), "{} * {}", x, y);
    assert!(same(p.div(q), x / y), "{} / {}", x, y);
    assert_eq!(p.lt(q), x < y, "{} < {}", x, y);
    assert_eq!(p.gt(q), x > y, "{} > {}", x, y);
    assert_eq!(p.le(q), x <= y, "{} <= {}", x, y);
    assert_eq!(p.ge(q), x >= y, "{} >= {}", x, y);
}

#[test]
fn corners_agree_with_the_machine() {
    let all = corners();
    for &a in &all {
        for &b in &all {
            check_pair(a, b);
        }
    }
}

#[test]
fn scattered_patterns_agree_with_the_machine() {
    let mut seed = 0x1234_5678_9ABC_DEFu64;
    for i in 0..20000u32 {
        seed = seed.wrapping_mul(6364136223846793005).wrapping_add(1442695040888963407);
        let a = (seed >> 32) as u32;
        let b = match i % 3 {
            0 => (seed >> 8) as u32,
            // Exponents that lie close together, so that digits cancel.
            1 => a ^ ((seed >> 5) as u32 & 0x80FF_FFFF),
            _ => (a & 0x7F80_0000) ^ (seed as u32 & 0x83FF_FFFF),
        };
        check_pair(a, b);
    }
}

#[test]
fn signs_and_sizes() {
    for &a in &corners() {
        let x = f32::from_bits(a);
        let p = Binary32::from_bits(a);
        assert_eq!(p.neg().to_bits(), a ^ 0x8000_0000);
        assert_eq!(p.abs().to_bits(), a & 0x7FFF_FFFF);
        assert_eq!(p.is_nan(), x.is_nan());
        assert_eq!(p.is_negative(), x.is_sign_negative());
    }
}

#[test]
fn maximum_passes_nan_over() {
    let nan = Binary32::quiet_nan();
    assert_eq!(num(1.0).max(num(2.0)).to_bits(), num(2.0).to_bits());
    assert_eq!(num(2.0).max(num(-1.0)).to_bits(), num(2.0).to_bits());
    assert_eq!(nan.max(num(-1.0)).to_bits(), num(-1.0).to_bits());
    assert_eq!(num(-1.0).max(nan).to_bits(), num(-1.0).to_bits());
    assert!(nan.max(nan).is_nan());
}

#[test]
fn clamping_keeps_nan() {
    let (low, high) = (num(0.0), num(2.0));
    assert_eq!(num(-3.0).clamp(low, high).to_bits(), low.to_bits());
    assert_eq!(num(1.5).clamp(low, high).to_bits(), num(1.5).to_bits());
    assert_eq!(num(7.0).clamp(low, high).to_bits(), high.to_bits());
    assert_eq!(num(-0.0).clamp(low, high).to_bits(), (-0.0f32).clamp(0.0, 2.0).to_bits());
    assert!(Binary32::quiet_nan().clamp(low, high).is_nan());
}

#[test]
fn integers_round_to_even() {
    for n in [
        0usize, 1, 2, 3, 100, 16777215, 16777216, 16777217, 16777218, 16777219, 33554434, 33554435,
        33554438, usize::MAX, usize::MAX / 2, 123456789012345,
    ] {
        assert_eq!(Binary32::from_usize(n).to_bits(), (n as f32).to_bits(), "{}", n);
    }
}
