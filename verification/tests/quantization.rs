//! Quantization, dequantization, error metrics and reports on known values.
use ternary_quantize::{
    dequantize_ternary_to_f32, distribution_shift, learn_threshold, max_error, mean_squared_error,
    per_channel_dequantize, per_channel_quantize, quantization_report, quantize_f32_to_ternary,
    stochastic_quantize, trit_distribution, Binary32, QuantizationReport, QuantizeConfig,
    SimpleRng, Trit,
};

fn num(x: f32) -> Binary32 {
    Binary32::from_bits(x.to_bits())
}

fn float(x: Binary32) -> f32 {
    f32::from_bits(x.to_bits())
}

fn nums(xs: &[f32]) -> Vec<Binary32> {
    xs.iter().map(|&x| num(x)).collect()
}

fn floats(xs: &[Binary32]) -> Vec<f32> {
    xs.iter().map(|&x| float(x)).collect()
}

// ---- Trit ----

#[test]
fn trit_conversions() {
    assert_eq!(Trit::Neg.to_i8(), -1);
    assert_eq!(Trit::Zero.to_i8(), 0);
    assert_eq!(Trit::Pos.to_i8(), 1);
    assert_eq!(float(Trit::Neg.to_f32()), -1.0);
    assert_eq!(float(Trit::Zero.to_f32()), 0.0);
    assert_eq!(float(Trit::Pos.to_f32()), 1.0);
}

#[test]
fn trit_from_i8() {
    assert_eq!(Trit::from_i8(-1), Some(Trit::Neg));
    assert_eq!(Trit::from_i8(0), Some(Trit::Zero));
    assert_eq!(Trit::from_i8(1), Some(Trit::Pos));
    assert_eq!(Trit::from_i8(2), None);
}

// ---- Deterministic quantization ----

#[test]
fn quantize_positive() {
    let config = QuantizeConfig::new(num(0.05), num(1.0));
    let result = quantize_f32_to_ternary(&nums(&[0.5, 1.0, 10.0]), &config);
    assert_eq!(result, vec![Trit::Pos, Trit::Pos, Trit::Pos]);
}

#[test]
fn quantize_negative() {
    let config = QuantizeConfig::new(num(0.05), num(1.0));
    let result = quantize_f32_to_ternary(&nums(&[-0.5, -1.0, -10.0]), &config);
    assert_eq!(result, vec![Trit::Neg, Trit::Neg, Trit::Neg]);
}

#[test]
fn quantize_zero_region() {
    let config = QuantizeConfig::new(num(0.1), num(1.0));
    let result = quantize_f32_to_ternary(&nums(&[0.0, 0.05, -0.05, 0.1]), &config);
    assert_eq!(result[0], Trit::Zero);
    assert_eq!(result[1], Trit::Zero);
    assert_eq!(result[2], Trit::Zero);
    assert_eq!(result[3], Trit::Zero);
}

#[test]
fn quantize_mixed() {
    let config = QuantizeConfig::new(num(0.5), num(1.0));
    let result = quantize_f32_to_ternary(&nums(&[-2.0, -0.3, 0.0, 0.3, 2.0]), &config);
    assert_eq!(result, vec![Trit::Neg, Trit::Zero, Trit::Zero, Trit::Zero, Trit::Pos]);
}

#[test]
fn quantize_empty() {
    let config = QuantizeConfig::default();
    let result = quantize_f32_to_ternary(&nums(&[]), &config);
    assert!(result.is_empty());
}

// ---- Dequantization ----

#[test]
fn dequantize_basic() {
    let trits = vec![Trit::Neg, Trit::Zero, Trit::Pos];
    let result = dequantize_ternary_to_f32(&trits, num(1.0));
    assert_eq!(floats(&result), vec![-1.0, 0.0, 1.0]);
}

#[test]
fn dequantize_with_scale() {
    let trits = vec![Trit::Neg, Trit::Zero, Trit::Pos];
    let result = dequantize_ternary_to_f32(&trits, num(2.5));
    assert_eq!(floats(&result), vec![-2.5, 0.0, 2.5]);
}

#[test]
fn round_trip_error_bounds() {
    let original = nums(&[-1.0, -0.5, 0.0, 0.5, 1.0]);
    let config = QuantizeConfig::new(num(0.25), num(1.0));
    let trits = quantize_f32_to_ternary(&original, &config);
    let deq = dequantize_ternary_to_f32(&trits, config.scale);

    let mse = float(mean_squared_error(&original, &deq));
    let max_err = float(max_error(&original, &deq));

    assert!(mse < 1.0, "MSE should be small, got {}", mse);
    assert!(max_err <= 2.0, "max error bounded, got {}", max_err);
}

// ---- Stochastic quantization ----

#[test]
fn stochastic_quantize_extremes() {
    let mut rng = SimpleRng::new(42);
    let result = stochastic_quantize(&nums(&[10.0, -10.0]), num(1.0), &mut rng);
    assert_eq!(result[0], Trit::Pos);
    assert_eq!(result[1], Trit::Neg);
}

#[test]
fn stochastic_quantize_distribution() {
    let mut rng = SimpleRng::new(12345);
    let n = 10000;
    let values = nums(&vec![0.3f32; n]); // 30% chance of +1, 70% of 0
    let trits = stochastic_quantize(&values, num(1.0), &mut rng);
    let (neg, zero, pos) = trit_distribution(&trits);
    assert_eq!(neg, 0);
    // Expect ~3000 positives, allow ±500
    assert!(
        (2500..3500).contains(&pos),
        "expected ~3000 positives, got {}",
        pos
    );
    assert!(
        (6500..7500).contains(&zero),
        "expected ~7000 zeros, got {}",
        zero
    );
}

#[test]
fn stochastic_quantize_symmetry() {
    let mut rng = SimpleRng::new(99);
    let values: Vec<Binary32> = (0..1000).map(|i| num(-0.5 + i as f32 / 1000.0)).collect();
    let trits = stochastic_quantize(&values, num(1.0), &mut rng);
    let (neg, _zero, pos) = trit_distribution(&trits);
    // Roughly symmetric: more negs for negative inputs, more pos for positive
    assert!(neg > 0);
    assert!(pos > 0);
}

#[test]
fn stochastic_quantize_zero_input() {
    let mut rng = SimpleRng::new(0);
    let trits = stochastic_quantize(&nums(&[0.0; 100]), num(1.0), &mut rng);
    let (neg, zero, pos) = trit_distribution(&trits);
    assert_eq!(neg, 0);
    assert_eq!(pos, 0);
    assert_eq!(zero, 100);
}

// ---- Learned threshold ----

#[test]
fn learn_threshold_converges() {
    // Values centered around ±1 with some near-zero noise
    let values: Vec<f32> = [-1.0, -0.9, -0.1, 0.0, 0.1, 0.9, 1.0]
        .iter()
        .cycle()
        .take(700)
        .copied()
        .collect();

    let (threshold, mse) = learn_threshold(&nums(&values), num(0.5), num(1.0), 50, num(0.01));
    let threshold = float(threshold);
    let mse = float(mse);

    // Threshold should be reasonable (not 0, not huge)
    assert!(threshold > 0.0, "threshold should be positive, got {}", threshold);
    assert!(threshold < 1.0, "threshold should be < 1.0, got {}", threshold);
    assert!(mse < 0.5, "MSE should be small after learning, got {}", mse);
}

#[test]
fn learn_threshold_all_same_sign() {
    let values = nums(&vec![0.5f32; 100]);
    let (threshold, _mse) = learn_threshold(&values, num(0.1), num(1.0), 20, num(0.01));
    // All positive: the threshold should push to maximize Pos
    assert!(float(threshold) >= 0.0);
}

// ---- Per-channel quantization ----

#[test]
fn per_channel_basic() {
    let row1 = nums(&[0.1, -0.2, 0.3]);
    let row2 = nums(&[10.0, -5.0, 0.0]);
    let (trits, scales, thresholds) = per_channel_quantize(&[&row1, &row2]);
    let scales = floats(&scales);

    assert_eq!(trits.len(), 6);
    assert_eq!(scales.len(), 2);
    assert_eq!(thresholds.len(), 2);
    // Row 2 has much larger scale than row 1
    assert!(scales[1] > scales[0] * 10.0);
}

#[test]
fn per_channel_dequantize_roundtrip() {
    let row1 = nums(&[0.5, -0.5, 0.0]);
    let row2 = nums(&[2.0, -1.0, 0.5]);
    let (trits, scales, _thresholds) = per_channel_quantize(&[&row1, &row2]);
    let deq = floats(&per_channel_dequantize(&trits, &scales, 3));
    let scales = floats(&scales);

    assert_eq!(deq.len(), 6);
    // Values should be multiples of their row's scale
    for i in 0..3 {
        let s = scales[0];
        assert!(deq[i] == -s || deq[i] == 0.0 || deq[i] == s, "row1 deq[{}] = {}", i, deq[i]);
    }
}

#[test]
fn per_channel_independent() {
    let row1 = nums(&[100.0, -100.0]);
    let row2 = nums(&[0.01, -0.01]);
    let (trits, scales, _) = per_channel_quantize(&[&row1, &row2]);
    let scales = floats(&scales);

    // Both rows should quantize to [+1, -1] but with very different scales
    assert_eq!(trits[0], Trit::Pos);
    assert_eq!(trits[1], Trit::Neg);
    assert_eq!(trits[2], Trit::Pos);
    assert_eq!(trits[3], Trit::Neg);

    let ratio = scales[0] / scales[1];
    assert!(ratio > 100.0, "scales should differ by ~10000x, ratio = {}", ratio);
}

// ---- Error metrics ----

#[test]
fn mse_identical() {
    let a = nums(&[1.0, 2.0, 3.0]);
    assert_eq!(float(mean_squared_error(&a, &a)), 0.0);
}

#[test]
fn mse_known() {
    let a = nums(&[1.0, 2.0, 3.0]);
    let b = nums(&[2.0, 3.0, 4.0]);
    // errors: 1, 1, 1, so the MSE is 1.0
    assert!((float(mean_squared_error(&a, &b)) - 1.0).abs() < 1e-6);
}

#[test]
fn mse_empty() {
    assert_eq!(float(mean_squared_error(&[], &[])), 0.0);
}

#[test]
fn max_error_known() {
    let a = nums(&[0.0, 0.0, 0.0]);
    let b = nums(&[-1.0, 0.5, 2.0]);
    assert!((float(max_error(&a, &b)) - 2.0).abs() < 1e-6);
}

#[test]
fn distribution_shift_zero() {
    let a = nums(&[1.0, -1.0, 0.0]);
    assert!(float(distribution_shift(&a, &a)).abs() < 1e-6);
}

#[test]
fn distribution_shift_known() {
    let original = nums(&[1.0, 2.0, 3.0]);
    let quantized = nums(&[1.0, 1.0, 1.0]);
    let shift = float(distribution_shift(&original, &quantized));
    // mean_orig = 2.0, mean_quant = 1.0, shift = 1.0
    assert!((shift - 1.0).abs() < 1e-6);
}

// ---- Trit distribution ----

#[test]
fn trit_dist_counts() {
    let trits = vec![Trit::Neg, Trit::Neg, Trit::Zero, Trit::Pos, Trit::Pos, Trit::Pos];
    let (n, z, p) = trit_distribution(&trits);
    assert_eq!(n, 2);
    assert_eq!(z, 1);
    assert_eq!(p, 3);
}

// ---- QuantizationReport ----

#[test]
fn report_basic() {
    let original = nums(&[0.5, -0.5, 0.0, 1.0, -1.0]);
    let config = QuantizeConfig::new(num(0.1), num(1.0));
    let trits = quantize_f32_to_ternary(&original, &config);
    let report = quantization_report(&original, &trits, num(1.0));

    assert!(float(report.mse) >= 0.0);
    assert!(float(report.max_err) >= 0.0);
    assert!(float(report.sparsity) >= 0.0 && float(report.sparsity) <= 1.0);
    let total: usize = report.trit_counts.0 + report.trit_counts.1 + report.trit_counts.2;
    assert_eq!(total, 5);
}

#[test]
fn report_display() {
    let report = QuantizationReport {
        mse: num(0.123),
        max_err: num(0.5),
        distribution_shift: num(0.01),
        trit_counts: (10, 20, 30),
        sparsity: num(0.333),
    };
    let s = report.to_string();
    assert!(s.contains("mse:"));
    assert!(s.contains("sparsity:"));
}

// ---- RNG ----

#[test]
fn rng_deterministic() {
    let mut r1 = SimpleRng::new(42);
    let mut r2 = SimpleRng::new(42);
    for _ in 0..100 {
        assert_eq!(float(r1.next_f32()), float(r2.next_f32()));
    }
}

#[test]
fn rng_in_range() {
    let mut rng = SimpleRng::new(0);
    for _ in 0..1000 {
        let v = float(rng.next_f32());
        assert!(v >= 0.0 && v < 1.0, "value out of range: {}", v);
    }
}

// ---- Integration / round-trip ----

#[test]
fn full_pipeline_deterministic() {
    let weights: Vec<Binary32> = (0..100)
        .map(|i| num(((i as f32 - 50.0) / 50.0).sin()))
        .collect();

    let config = QuantizeConfig::new(num(0.05), num(1.0));
    let trits = quantize_f32_to_ternary(&weights, &config);
    let _deq = dequantize_ternary_to_f32(&trits, config.scale);
    let report = quantization_report(&weights, &trits, config.scale);

    // Ternary values should compress well
    assert!(float(report.sparsity) > 0.0, "some values should be zero");
    // MSE should be reasonable for sin values
    assert!(float(report.mse) < 1.0, "MSE too high: {}", float(report.mse));
}

#[test]
fn full_pipeline_stochastic() {
    let weights: Vec<Binary32> = (0..1000)
        .map(|i| num((i as f32 * 0.01).sin() * 0.5))
        .collect();

    let mut rng = SimpleRng::new(7);
    let trits = stochastic_quantize(&weights, num(0.5), &mut rng);
    let deq = dequantize_ternary_to_f32(&trits, num(0.5));

    let mse = float(mean_squared_error(&weights, &deq));
    assert!(mse < 1.0, "stochastic round-trip MSE too high: {}", mse);
}
