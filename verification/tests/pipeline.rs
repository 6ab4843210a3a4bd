//! The library's functions against the same computations on the machine's floats.
use ternary_quantize::{
    dequantize_ternary_to_f32, distribution_shift, learn_threshold, max_error, mean_squared_error,
    per_channel_dequantize, per_channel_quantize, quantization_report, quantize_f32_to_ternary,
    stochastic_quantize, Binary32, QuantizationReport, QuantizeConfig, SimpleRng, Trit,
};

fn num(x: f32) -> Binary32 {
    Binary32::from_bits(x.to_bits())
}

fn float(x: Binary32) -> f32 {
    f32::from_bits(x.to_bits())
}

fn nums(xs: &[f32]) -> Vec<Binary32> {
    xs.iter().map(|&x| num(x)).collect()
}

/// Bit for bit the same, or both NaN.
fn same(x: Binary32, y: f32) -> bool {
    if y.is_nan() {
        x.is_nan()
    } else {
        x.to_bits() == y.to_bits()
    }
}

fn all_same(xs: &[Binary32], ys: &[f32]) -> bool {
    xs.len() == ys.len() && xs.iter().zip(ys.iter()).all(|(&x, &y)| same(x, y))
}

fn machine_quantize(values: &[f32], threshold: f32) -> Vec<Trit> {
    values
        .iter()
        .map(|&x| {
            if x > threshold {
                Trit::Pos
            } else if x < -threshold {
                Trit::Neg
            } else {
                Trit::Zero
            }
        })
        .collect()
}

fn machine_dequantize(trits: &[Trit], scale: f32) -> Vec<f32> {
    trits.iter().map(|t| t.to_i8() as f32 * scale).collect()
}

fn machine_mse(a: &[f32], b: &[f32]) -> f32 {
    if a.is_empty() {
        return 0.0;
    }
    let sum: f32 = a.iter().zip(b.iter()).map(|(x, y)| (x - y) * (x - y)).sum();
    sum / a.len() as f32
}

fn machine_loss(values: &[f32], threshold: f32, scale: f32) -> f32 {
    machine_mse(values, &machine_dequantize(&machine_quantize(values, threshold), scale))
}

fn machine_learn(values: &[f32], initial: f32, scale: f32, n: usize, lr: f32) -> (f32, f32) {
    let mut best = 0.0f32;
    for v in values {
        if machine_loss(values, v.abs(), scale) < machine_loss(values, best, scale) {
            best = v.abs();
        }
    }
    let mut threshold = initial;
    for _ in 0..n {
        let eps = 1e-4;
        let mse = machine_loss(values, threshold, scale);
        let grad = (machine_loss(values, threshold + eps, scale) - mse) / eps;
        threshold -= lr * grad;
        let max_abs = values.iter().map(|v| v.abs()).fold(0.0f32, f32::max);
        threshold = threshold.clamp(0.0, max_abs);
        let mse = machine_loss(values, threshold, scale);
        if threshold.is_nan() || machine_loss(values, best, scale) < mse {
            threshold = best;
        }
    }
    (threshold, machine_loss(values, threshold, scale))
}

/// Sequences with ordinary numbers, zeros of both signs, extremes, infinities and NaN.
fn samples() -> Vec<Vec<f32>> {
    vec![
        vec![],
        vec![0.3],
        vec![-0.0],
        vec![-0.0, -0.0, 0.0],
        vec![0.5, -0.5, 0.0, 1.0, -1.0],
        vec![-0.8, -0.02, 0.0, 0.03, 0.9],
        vec![1e-40, -1e-40, 1e-45, 3e-39],
        vec![3.4e38, -3.4e38, 1e38],
        vec![f32::INFINITY, 1.0, -2.0],
        vec![f32::NAN, 1.0, -2.0, 0.25],
        (0..100).map(|i| ((i as f32 - 50.0) / 50.0).sin()).collect(),
        (0..257).map(|i| (i as f32 * 0.37).cos() * 7.3).collect(),
    ]
}

#[test]
fn quantization_agrees_with_the_machine() {
    let bounds = [0.0f32, -0.0, 0.05, 0.5, -0.25, 1e-40, f32::INFINITY, f32::NAN];
    for values in samples() {
        for &t in &bounds {
            let config = QuantizeConfig::new(num(t), num(1.0));
            let trits = quantize_f32_to_ternary(&nums(&values), &config);
            assert_eq!(trits, machine_quantize(&values, t));
            for scale in [1.0f32, 0.37, -2.5, 0.0, f32::INFINITY, f32::NAN, 1e-42] {
                let deq = dequantize_ternary_to_f32(&trits, num(scale));
                assert!(all_same(&deq, &machine_dequantize(&trits, scale)));
            }
        }
    }
}

#[test]
fn metrics_agree_with_the_machine() {
    for values in samples() {
        let other: Vec<f32> = values.iter().map(|x| x * 0.9 + 0.01).collect();
        let (a, b) = (nums(&values), nums(&other));
        assert!(same(mean_squared_error(&a, &b), machine_mse(&values, &other)));
        let max = values
            .iter()
            .zip(other.iter())
            .map(|(x, y)| (x - y).abs())
            .fold(0.0f32, f32::max);
        assert!(same(max_error(&a, &b), max));
        for quantized in samples() {
            let mean_a = values.iter().sum::<f32>() / values.len().max(1) as f32;
            let mean_b = quantized.iter().sum::<f32>() / quantized.len().max(1) as f32;
            assert!(same(distribution_shift(&a, &nums(&quantized)), mean_a - mean_b));
        }
    }
}

#[test]
fn learning_agrees_with_the_machine() {
    for values in samples() {
        for (initial, scale, n, lr) in [
            (0.5f32, 1.0f32, 0usize, 0.01f32),
            (0.5, 1.0, 5, 0.01),
            (0.1, 0.7, 7, 0.1),
            (0.2, -1.0, 3, 1e-3),
            (9.0, 1.0, 2, f32::NAN),
        ] {
            let (t, e) = learn_threshold(&nums(&values), num(initial), num(scale), n, num(lr));
            let (mt, me) = machine_learn(&values, initial, scale, n, lr);
            assert!(same(t, mt) && same(e, me), "{:?} {} {} {} {}", values, initial, scale, n, lr);
        }
    }
}

#[test]
fn channels_agree_with_the_machine() {
    let all = samples();
    let rows: Vec<Vec<Binary32>> = all.iter().map(|r| nums(r)).collect();
    let slices: Vec<&[Binary32]> = rows.iter().map(|r| r.as_slice()).collect();
    let (trits, scales, thresholds) = per_channel_quantize(&slices);

    let mut machine_trits = Vec::new();
    let mut machine_scales = Vec::new();
    let mut machine_thresholds = Vec::new();
    for row in &all {
        let mean_abs: f32 = if row.is_empty() {
            0.0
        } else {
            row.iter().map(|v| v.abs()).sum::<f32>() / row.len() as f32
        };
        let scale = mean_abs.max(1e-8);
        let threshold = 0.05 * scale;
        machine_trits.extend(machine_quantize(row, threshold));
        machine_scales.push(scale);
        machine_thresholds.push(threshold);
    }
    assert_eq!(trits, machine_trits);
    assert!(all_same(&scales, &machine_scales));
    assert!(all_same(&thresholds, &machine_thresholds));

    for row_len in [0usize, 1, 3, 30, 100, 1000] {
        let deq = per_channel_dequantize(&trits, &scales, row_len);
        let mut machine = Vec::new();
        for (row_idx, &scale) in machine_scales.iter().enumerate() {
            let start = row_idx * row_len;
            let end = (start + row_len).min(trits.len());
            for i in start..end {
                machine.push(trits[i].to_i8() as f32 * scale);
            }
        }
        assert!(all_same(&deq, &machine), "row length {}", row_len);
    }
}

#[test]
fn stochastic_rounding_agrees_with_the_machine() {
    for values in samples() {
        for scale in [1.0f32, 0.5, -3.0, 0.0, f32::NAN] {
            let mut rng = SimpleRng::new(2024);
            let mut machine_rng = rng.clone();
            let trits = stochastic_quantize(&nums(&values), num(scale), &mut rng);
            let mut expected = Vec::new();
            for &x in &values {
                let n = x / scale;
                expected.push(if n >= 1.0 {
                    Trit::Pos
                } else if n <= -1.0 {
                    Trit::Neg
                } else {
                    let r = (machine_rng.next_u32() >> 8) as f32 / (1u32 << 24) as f32;
                    if n > 0.0 {
                        if r < n { Trit::Pos } else { Trit::Zero }
                    } else {
                        if r < -n { Trit::Neg } else { Trit::Zero }
                    }
                });
            }
            assert_eq!(trits, expected);
            // Both generators have taken the same number of draws.
            assert_eq!(rng.next_u32(), machine_rng.next_u32());
        }
    }
}

#[test]
fn reports_agree_with_the_machine() {
    for values in samples() {
        let trits = machine_quantize(&values, 0.1);
        let report = quantization_report(&nums(&values), &trits, num(0.8));
        let deq = machine_dequantize(&trits, 0.8);
        let zeros = trits.iter().filter(|&&t| t == Trit::Zero).count();
        assert!(same(report.mse, machine_mse(&values, &deq)));
        assert_eq!(report.trit_counts.1, zeros);
        assert!(same(report.sparsity, zeros as f32 / trits.len().max(1) as f32));
    }
}

fn machine_text(r: &QuantizationReport) -> String {
    format!(
        "QuantizationReport {{ mse: {:.6}, max_err: {:.6}, shift: {:.6}, sparsity: {:.2}%, counts: neg={} zero={} pos={} }}",
        float(r.mse),
        float(r.max_err),
        float(r.distribution_shift),
        float(r.sparsity) * 100.0,
        r.trit_counts.0,
        r.trit_counts.1,
        r.trit_counts.2
    )
}

#[test]
fn texts_agree_with_the_machine() {
    let mut numbers = vec![
        0.0f32, -0.0, 1.0, -1.0, 0.5, 0.25, 0.125, 0.0000005, 0.0000015, 0.000001, 9.9999995,
        99.9999999, 1e-45, 1e-30, -1e-7, 123456.79, 16777216.0, 3.4028235e38, -3.4028235e38, 1e20,
        0.005, 0.015, 0.00390625, 0.01171875, 2.5, f32::INFINITY, f32::NEG_INFINITY, f32::NAN,
        -f32::NAN, 0.9999999, 0.99999994, 4.7683716e-7,
    ];
    let mut bits = 0x9E37_79B9u32;
    for _ in 0..2000 {
        bits = bits.wrapping_mul(1664525).wrapping_add(1013904223);
        numbers.push(f32::from_bits(bits));
        // Exponents for which the last decimal place matters.
        numbers.push(f32::from_bits((bits & 0x807F_FFFF) | (0x3580_0000 + (bits >> 3 & 0xF80_0000))));
    }
    for w in numbers.windows(4) {
        let report = QuantizationReport {
            mse: num(w[0]),
            max_err: num(w[1]),
            distribution_shift: num(w[2]),
            trit_counts: (w[0].to_bits() as usize, 0, usize::MAX),
            sparsity: num(w[3]),
        };
        assert_eq!(report.to_string(), machine_text(&report));
    }
}
