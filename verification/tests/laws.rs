//! What holds of several functions together, on concrete values.
use ternary_quantize::{
    dequantize_ternary_to_f32, distribution_shift, learn_threshold, max_error, mean_squared_error,
    per_channel_dequantize, per_channel_quantize, quantization_report, quantize_f32_to_ternary,
    stochastic_quantize, trit_distribution, Binary32, QuantizeConfig, SimpleRng, Trit,
};

fn num(x: f32) -> Binary32 {
    Binary32::from_bits(x.to_bits())
}

fn float(x: Binary32) -> f32 {
    f32::from_bits(x.to_bits())
}

fn nums(xs: &[f32]) -> Vec<Binary32> {
    xs.iter().map(|&x| num(x)).collect()
}

fn floats(xs: &[Binary32]) -> Vec<f32> {
    xs.iter().map(|&x| float(x)).collect()
}

fn trits_of(values: &[f32], threshold: f32) -> Vec<Trit> {
    quantize_f32_to_ternary(&nums(values), &QuantizeConfig::new(num(threshold), num(1.0)))
}

#[test]
fn trit_integers_round_trip() {
    for t in [Trit::Neg, Trit::Zero, Trit::Pos] {
        assert_eq!(Trit::from_i8(t.to_i8()), Some(t));
    }
    assert_eq!(Trit::from_i8(-2), None);
    assert_eq!(Trit::from_i8(i8::MIN), None);
    assert_eq!(Trit::from_i8(i8::MAX), None);
}

#[test]
fn trit_texts() {
    assert_eq!(Trit::Neg.to_string(), "-1");
    assert_eq!(Trit::Zero.to_string(), "0");
    assert_eq!(Trit::Pos.to_string(), "1");
}

#[test]
fn constants_are_the_nearest_numbers() {
    let config = QuantizeConfig::default();
    assert_eq!(config.threshold.to_bits(), 0.05f32.to_bits());
    assert_eq!(config.scale.to_bits(), 1.0f32.to_bits());
    assert_eq!(ternary_quantize::channel::least_scale().to_bits(), 1e-8f32.to_bits());
    assert_eq!(ternary_quantize::learn::gradient_step().to_bits(), 1e-4f32.to_bits());
}

#[test]
fn cloned_values_are_equal() {
    let config = QuantizeConfig::new(num(0.25), num(3.0)).clone();
    assert_eq!((float(config.threshold), float(config.scale)), (0.25, 3.0));
    let report = quantization_report(&nums(&[1.0, 0.0]), &[Trit::Pos, Trit::Zero], num(1.0));
    assert_eq!(report.clone().to_string(), report.to_string());
    let mut a = SimpleRng::new(5);
    let mut b = a.clone();
    assert_eq!(a.next_u32(), b.next_u32());
}

#[test]
fn quick_start() {
    let trits = trits_of(&[-0.8, -0.02, 0.0, 0.03, 0.9], 0.05);
    assert_eq!(trits, vec![Trit::Neg, Trit::Zero, Trit::Zero, Trit::Zero, Trit::Pos]);
    let deq = dequantize_ternary_to_f32(&trits, num(1.0));
    assert_eq!(floats(&deq), vec![-1.0, 0.0, 0.0, 0.0, 1.0]);
}

#[test]
fn threshold_belongs_to_zero() {
    assert_eq!(trits_of(&[0.5, -0.5], 0.5), vec![Trit::Zero, Trit::Zero]);
    let above = f32::from_bits(0.5f32.to_bits() + 1);
    assert_eq!(trits_of(&[above, -above], 0.5), vec![Trit::Pos, Trit::Neg]);
}

#[test]
fn nan_is_quantized_to_zero() {
    assert_eq!(trits_of(&[f32::NAN], 0.5), vec![Trit::Zero]);
    assert_eq!(trits_of(&[1.0, f32::INFINITY], f32::NAN), vec![Trit::Zero, Trit::Zero]);
}

#[test]
fn opposite_numbers_have_opposite_trits() {
    for x in [0.0f32, 0.1, 0.5, 0.7, 3.0, f32::INFINITY] {
        let t = trits_of(&[x, -x], 0.5);
        assert_eq!(t[0].to_i8(), -t[1].to_i8());
    }
}

#[test]
fn order_is_kept() {
    let t = trits_of(&[f32::NEG_INFINITY, -1.0, -0.5, -0.1, 0.2, 0.6, 9.0], 0.4);
    for w in t.windows(2) {
        assert!(w[0].to_i8() <= w[1].to_i8());
    }
}

#[test]
fn greater_threshold_is_sparser() {
    let values = [-0.9, -0.4, -0.1, 0.0, 0.2, 0.3, 0.8];
    let mut last = -1.0;
    for t in [0.0, 0.1, 0.25, 0.35, 0.85, 2.0] {
        let trits = trits_of(&values, t);
        let sparsity = float(quantization_report(&nums(&values), &trits, num(1.0)).sparsity);
        assert!(sparsity >= last);
        last = sparsity;
    }
    assert_eq!(last, 1.0);
}

#[test]
fn sparsity_of_extremes() {
    let of = |trits: &[Trit]| {
        float(quantization_report(&nums(&vec![0.0; trits.len()]), trits, num(1.0)).sparsity)
    };
    assert_eq!(of(&[]), 0.0);
    assert_eq!(of(&[Trit::Pos, Trit::Neg]), 0.0);
    assert_eq!(of(&[Trit::Zero, Trit::Zero, Trit::Zero]), 1.0);
    assert_eq!(of(&[Trit::Zero, Trit::Pos, Trit::Pos, Trit::Pos]), 0.25);
}

#[test]
fn dequantized_trits_quantize_back() {
    let trits = vec![Trit::Pos, Trit::Zero, Trit::Neg, Trit::Neg, Trit::Zero];
    for scale in [0.3f32, 7.0, f32::INFINITY] {
        let values = dequantize_ternary_to_f32(&trits, num(scale));
        let config = QuantizeConfig::new(num(0.29), num(scale));
        assert_eq!(quantize_f32_to_ternary(&values, &config), trits);
    }
}

#[test]
fn round_trip_moves_within_bounds() {
    let values: Vec<f32> = (-100..=100).map(|i| i as f32 / 50.0).collect();
    for t in [0.0f32, 0.3, 1.0, 1.7, 2.0] {
        let trits = trits_of(&values, t);
        let deq = dequantize_ternary_to_f32(&trits, num(2.0));
        assert!(float(max_error(&nums(&values), &deq)) <= t.max(2.0 - t));
    }
}

#[test]
fn draws_beyond_the_unit_interval_are_not_taken() {
    let mut rng = SimpleRng::new(7);
    let mut untouched = SimpleRng::new(7);
    let values = nums(&[1.0, -1.0, 5.0, f32::INFINITY]);
    let trits = stochastic_quantize(&values, num(1.0), &mut rng);
    assert_eq!(trits, vec![Trit::Pos, Trit::Neg, Trit::Pos, Trit::Pos]);
    assert_eq!(rng.next_u32(), untouched.next_u32());

    stochastic_quantize(&nums(&[0.5, 2.0, f32::NAN]), num(1.0), &mut rng);
    untouched.next_u32();
    untouched.next_u32();
    assert_eq!(rng.next_u32(), untouched.next_u32());
}

#[test]
fn batches_are_rounded_as_one() {
    let values: Vec<f32> = (0..50).map(|i| (i as f32 * 0.7).sin()).collect();
    let mut whole = SimpleRng::new(11);
    let mut parts = SimpleRng::new(11);
    let all = stochastic_quantize(&nums(&values), num(0.9), &mut whole);
    let mut joined = stochastic_quantize(&nums(&values[..20]), num(0.9), &mut parts);
    joined.extend(stochastic_quantize(&nums(&values[20..]), num(0.9), &mut parts));
    assert_eq!(all, joined);
    assert_eq!(whole.next_u32(), parts.next_u32());
}

#[test]
fn stochastic_signs_are_kept() {
    for seed in 0..200u64 {
        for x in [0.0f32, -0.0, 0.3, -0.3, 0.9, -0.9, f32::NAN] {
            let mut rng = SimpleRng::new(seed << 20 | 3);
            let t = stochastic_quantize(&nums(&[x]), num(1.0), &mut rng)[0];
            assert!(t == Trit::Zero || (t.to_i8() as f32) * x > 0.0);
            let mut rng = SimpleRng::new(seed << 20 | 3);
            let o = stochastic_quantize(&nums(&[-x]), num(1.0), &mut rng)[0];
            assert_eq!(t.to_i8(), -o.to_i8());
        }
    }
}

#[test]
fn stochastic_rounding_is_unbiased() {
    let mut rng = SimpleRng::new(42);
    let trits = stochastic_quantize(&nums(&[0.3; 10000]), num(1.0), &mut rng);
    let (neg, zero, pos) = trit_distribution(&trits);
    assert_eq!(neg, 0);
    assert!((2800..3200).contains(&pos));
    assert_eq!(zero, 10000 - pos);
}

#[test]
fn generator_outputs() {
    let mut rng = SimpleRng::new(0x0123_4567_89AB_CDEF);
    let first: Vec<u32> = (0..6).map(|_| rng.next_u32()).collect();
    assert_eq!(first, vec![0x99998d92, 0xc901bbf7, 0xe6ab73d4, 0xfce4d6f6, 0x9254bb7a, 0x74b6a235]);
    let mut rng = SimpleRng::new(0x0123_4567_89AB_CDEF);
    for x in first {
        assert_eq!(float(rng.next_f32()), (x >> 8) as f32 / 16777216.0);
    }
}

#[test]
fn generator_states() {
    // Whatever the seed, the outputs vary: of five in a row, two differ.
    for seed in [0u64, 1, 42, 1 << 32, u64::MAX, 0x9E37_79B9, 0x243F_6A88_9E37_79B9] {
        let mut rng = SimpleRng::new(seed);
        for _ in 0..200 {
            let five: Vec<u32> = (0..5).map(|_| rng.next_u32()).collect();
            assert!(five.iter().any(|&x| x != five[0]), "seed {}", seed);
        }
    }
    // Different seeds give different draws.
    let draws = |seed: u64| {
        let mut rng = SimpleRng::new(seed);
        (0..8).map(|_| rng.next_u32()).collect::<Vec<u32>>()
    };
    assert_ne!(draws(0), draws(1));
    assert_ne!(draws(1), draws(2));
    assert_ne!(draws(1), draws(1 << 32));
}

#[test]
fn first_draws_vary() {
    // Of the first five draws two differ, and for these seeds it takes all five.
    for seed in [
        0x0600_0000u64,
        0x3A00_0000,
        0x3E00_0000,
        0x6E00_0000,
        0xA200_0000,
        0xA400_0000,
        0xD200_0000,
    ] {
        let mut rng = SimpleRng::new(seed);
        let five: Vec<f32> = (0..5).map(|_| float(rng.next_f32())).collect();
        assert!(five[..4].iter().all(|&x| x == five[0]), "seed {}", seed);
        assert!(five[4] != five[0], "seed {}", seed);
    }
    for seed in (0..5000u64).map(|i| i.wrapping_mul(0x9E37_79B9_7F4A_7C15)) {
        let mut rng = SimpleRng::new(seed);
        let five: Vec<f32> = (0..5).map(|_| float(rng.next_f32())).collect();
        assert!(five.iter().any(|&x| x != five[0]), "seed {}", seed);
    }
}

#[test]
fn each_output_has_its_source() {
    for o in [0u32, 1, 255, 256, 0x1234_5678, 0x8000_0000, u32::MAX] {
        let word = o.wrapping_mul(0x38E3_8E39).rotate_right(7).wrapping_mul(0xCCCC_CCCD);
        let seed = (word as u64) << 32 | 1;
        assert_eq!(SimpleRng::new(seed).next_u32(), o);
        assert_eq!(float(SimpleRng::new(seed).next_f32()), (o / 256) as f32 / 16777216.0);
    }
}

#[test]
fn seed_zero_draws_uniformly() {
    let mut rng = SimpleRng::new(0);
    let first: Vec<u32> = (0..6).map(|_| rng.next_u32()).collect();
    assert_eq!(first, vec![0x0, 0xe032c2e3, 0x92dcf72a, 0xe3e15c93, 0xcfdbb2d7, 0x620019c3]);

    let mut rng = SimpleRng::new(0);
    let mut tenths = [0usize; 10];
    for _ in 0..10000 {
        tenths[(float(rng.next_f32()) * 10.0) as usize] += 1;
    }
    assert!(tenths.iter().all(|n| (900..1100).contains(n)), "{:?}", tenths);

    let mut rng = SimpleRng::new(0);
    let trits = stochastic_quantize(&nums(&[0.3; 10000]), num(1.0), &mut rng);
    let (neg, _zero, pos) = trit_distribution(&trits);
    assert_eq!(neg, 0);
    assert!((2800..3200).contains(&pos));
}

#[test]
fn learned_threshold_stays_in_range() {
    let values = nums(&[0.9, -0.4, 0.1, 0.6, -0.7]);
    for initial in [-5.0f32, 0.0, 0.3, 50.0] {
        for n in [1usize, 4] {
            let (t, e) = learn_threshold(&values, num(initial), num(0.5), n, num(0.2));
            assert!(float(t) >= 0.0 && float(t) <= 0.9);
            let trits = quantize_f32_to_ternary(&values, &QuantizeConfig::new(t, num(0.5)));
            let deq = dequantize_ternary_to_f32(&trits, num(0.5));
            assert_eq!(e.to_bits(), mean_squared_error(&values, &deq).to_bits());
        }
    }
    let (t, _) = learn_threshold(&values, num(-5.0), num(0.5), 0, num(0.2));
    assert_eq!(float(t), -5.0);
}

#[test]
fn learning_resumes() {
    let values: Vec<f32> = (0..400).map(|i| (i as f32 * 0.11).sin()).collect();
    let values = nums(&values);
    let (t, _) = learn_threshold(&values, num(0.4), num(1.0), 6, num(0.05));
    let (u, e) = learn_threshold(&values, t, num(1.0), 5, num(0.05));
    let (v, d) = learn_threshold(&values, num(0.4), num(1.0), 11, num(0.05));
    assert_eq!((u.to_bits(), e.to_bits()), (v.to_bits(), d.to_bits()));
}

#[test]
fn least_and_flat_loss_keeps_the_threshold() {
    let values = nums(&[1.0, -1.0, 0.0]);
    let (t, e) = learn_threshold(&values, num(0.5), num(1.0), 9, num(0.3));
    assert_eq!((float(t), float(e)), (0.5, 0.0));
    // Flat but not least: the threshold moves.
    let (t, e) = learn_threshold(&nums(&[0.25]), num(0.1), num(1.0), 50, num(0.01));
    assert_eq!((float(t), float(e)), (0.25, 0.0625));
    // Without an iteration it stays all the same.
    let (t, e) = learn_threshold(&nums(&[0.25]), num(0.1), num(1.0), 0, num(0.01));
    assert_eq!((float(t), float(e)), (0.1, 0.5625));
}

#[test]
fn learned_threshold_minimizes_the_error() {
    let samples: [Vec<f32>; 6] = [
        vec![],
        vec![0.50005, 0.4955],
        vec![0.9, -0.4, 0.1, 0.6, -0.7, 0.4, -0.0],
        vec![3.0, -1.0, 0.5, 1e-40, -2e-3],
        vec![3e38, -1e19, 2.0],
        (0..60).map(|i| (i as f32 * 0.37).cos() * 1.3).collect(),
    ];
    for values in &samples {
        let values = nums(values);
        for (initial, scale, n, lr) in [
            (0.5f32, 1.0f32, 100usize, 0.01f32),
            (0.1, 0.7, 1, 0.1),
            (-3.0, -1.0, 3, 1e-3),
            (f32::NAN, 0.0, 2, 0.1),
            (9.0, 1e19, 2, f32::INFINITY),
        ] {
            let (_, least) = learn_threshold(&values, num(initial), num(scale), n, num(lr));
            let mut thresholds: Vec<f32> = (0..80).map(|i| i as f32 * 0.04).collect();
            thresholds.extend([1e-45, 1e-39, 1e19, 3.4e38, f32::INFINITY]);
            for t in thresholds {
                let config = QuantizeConfig::new(num(t), num(scale));
                let trits = quantize_f32_to_ternary(&values, &config);
                let deq = dequantize_ternary_to_f32(&trits, num(scale));
                let other = mean_squared_error(&values, &deq);
                assert!(float(least) <= float(other), "{} {} {} {}", initial, scale, n, t);
            }
        }
    }
}

#[test]
fn errors_of_identical_sequences() {
    let a = nums(&[1.5, -2.25, 0.0, 1e30]);
    assert_eq!(mean_squared_error(&a, &a).to_bits(), 0);
    assert_eq!(max_error(&a, &a).to_bits(), 0);
    assert_eq!(distribution_shift(&a, &a).to_bits(), 0);
    let b = nums(&[f32::INFINITY, f32::NAN]);
    assert_eq!(max_error(&b, &b).to_bits(), 0);
    assert!(mean_squared_error(&b, &b).is_nan());
}

#[test]
fn errors_are_symmetric() {
    let a = nums(&[0.1, -0.0, 3.0, 7.5]);
    let b = nums(&[0.7, 0.0, -1.0, 7.25]);
    assert_eq!(mean_squared_error(&a, &b).to_bits(), mean_squared_error(&b, &a).to_bits());
    assert_eq!(max_error(&a, &b).to_bits(), max_error(&b, &a).to_bits());
    assert_eq!(float(max_error(&a, &b)), 4.0);
    assert_eq!(float(mean_squared_error(&nums(&[0.0, 0.0]), &nums(&[1.0, 3.0]))), 5.0);
}

#[test]
fn shift_points_downwards() {
    let high = nums(&[2.0, 4.0]);
    let low = nums(&[1.0, 1.0]);
    assert_eq!(float(distribution_shift(&high, &low)), 2.0);
    assert_eq!(float(distribution_shift(&low, &high)), -2.0);
}

#[test]
fn distributions_add() {
    let a = [Trit::Neg, Trit::Pos, Trit::Pos];
    let b = [Trit::Zero, Trit::Pos];
    let mut both = a.to_vec();
    both.extend(b);
    assert_eq!(trit_distribution(&a), (1, 0, 2));
    assert_eq!(trit_distribution(&b), (0, 1, 1));
    assert_eq!(trit_distribution(&both), (1, 1, 3));
    assert_eq!(trit_distribution(&[]), (0, 0, 0));
}

#[test]
fn channels_have_scales_of_their_own() {
    let row1 = nums(&[0.1, -0.2, 0.3]);
    let row2 = nums(&[10.0, -5.0, 0.0]);
    let (trits, scales, thresholds) = per_channel_quantize(&[&row1, &row2]);
    assert!((float(scales[0]) - 0.2).abs() < 1e-6);
    assert!((float(scales[1]) - 5.0).abs() < 1e-6);
    assert!(float(thresholds[0]) < float(scales[0]));
    let (first, _, _) = per_channel_quantize(&[&row1]);
    let (second, _, _) = per_channel_quantize(&[&row2]);
    assert_eq!(&trits[..3], &first[..]);
    assert_eq!(&trits[3..], &second[..]);

    let deq = per_channel_dequantize(&trits, &scales, 3);
    let expected1 = dequantize_ternary_to_f32(&first, scales[0]);
    let expected2 = dequantize_ternary_to_f32(&second, scales[1]);
    assert_eq!(floats(&deq[..3]), floats(&expected1));
    assert_eq!(floats(&deq[3..]), floats(&expected2));

    let config = QuantizeConfig::new(thresholds[1], scales[1]);
    assert_eq!(quantize_f32_to_ternary(&deq[3..], &config), second);
}

#[test]
fn empty_and_nan_rows_have_the_least_scale() {
    let empty: Vec<Binary32> = Vec::new();
    let nan = nums(&[f32::NAN, 1.0]);
    let zeros = nums(&[0.0, -0.0]);
    let (trits, scales, _) = per_channel_quantize(&[&empty, &nan, &zeros]);
    for s in floats(&scales) {
        assert_eq!(s, 1e-8);
    }
    assert_eq!(trits, vec![Trit::Zero, Trit::Pos, Trit::Zero, Trit::Zero]);
}

#[test]
fn dequantization_stops_at_the_last_scale() {
    let trits = [Trit::Pos; 5];
    let scales = nums(&[1.0, 2.0]);
    assert_eq!(floats(&per_channel_dequantize(&trits, &scales, 2)), vec![1.0, 1.0, 2.0, 2.0]);
    assert_eq!(floats(&per_channel_dequantize(&trits, &scales, 4)), vec![1.0, 1.0, 1.0, 1.0, 2.0]);
    assert!(per_channel_dequantize(&trits, &scales, 0).is_empty());
    assert!(per_channel_dequantize(&trits, &[], 3).is_empty());
}

#[test]
fn requantized_matrices_keep_their_trits() {
    for cols in [1usize, 2, 7, 100, 1000] {
        let rows: Vec<Vec<Binary32>> = (0..6)
            .map(|r| {
                (0..cols)
                    .map(|c| {
                        let x = ((r * 31 + c * 17) as f32 * 0.61).sin();
                        num(x * x * x * [1e-12f32, 1e-9, 1e-3, 1.0, 1e10, 1e30][r])
                    })
                    .collect()
            })
            .collect();
        let slices: Vec<&[Binary32]> = rows.iter().map(|r| r.as_slice()).collect();
        let (trits, scales, _) = per_channel_quantize(&slices);
        let deq = per_channel_dequantize(&trits, &scales, cols);
        let again: Vec<&[Binary32]> = deq.chunks(cols).collect();
        assert_eq!(per_channel_quantize(&again).0, trits);
    }
}

#[test]
fn infinite_rows_keep_their_trits() {
    let row = nums(&[f32::INFINITY, 1.0, -2.0]);
    let (trits, scales, _) = per_channel_quantize(&[&row]);
    assert_eq!(trits, vec![Trit::Zero; 3]);
    let deq = per_channel_dequantize(&trits, &scales, 3);
    assert!(deq.iter().all(|x| x.is_nan()));
    assert_eq!(per_channel_quantize(&[&deq]).0, trits);
}

#[test]
fn rows_keep_their_largest_number() {
    let mut row = vec![0.0f32; 1000];
    row[500] = -1e-9;
    let (trits, scales, thresholds) = per_channel_quantize(&[&nums(&row)]);
    assert_eq!(float(scales[0]), 1e-8);
    assert!(float(thresholds[0]) > 0.0 && 16.0 * float(thresholds[0]) <= float(scales[0]));
    assert_eq!(trits[500], Trit::Neg);
    assert_eq!(trit_distribution(&trits), (1, 999, 0));
}

#[test]
fn rows_of_zeros_stay_zero() {
    let (trits, scales, thresholds) = per_channel_quantize(&[&nums(&[0.0, -0.0, 0.0]), &[]]);
    assert_eq!(trits, vec![Trit::Zero; 3]);
    assert_eq!(floats(&scales), vec![1e-8, 1e-8]);
    assert!(floats(&thresholds).iter().all(|&t| t > 0.0));
}

#[test]
fn round_trip_error_beyond_the_scale() {
    let error = |x: f32, t: f32, s: f32| {
        let deq = dequantize_ternary_to_f32(&trits_of(&[x], t), num(s));
        float(max_error(&nums(&[x]), &deq))
    };
    assert_eq!(error(10.0, 0.5, 1.0), 9.0);
    assert_eq!(error(-10.0, 0.5, 1.0), 9.0);
    assert_eq!(error(0.75, 0.5, 1.0), 0.25);
    assert_eq!(error(0.75, 0.5, -1.0), 1.75);
    assert_eq!(error(-0.4, 0.5, 1.0), 0.4);
    assert_eq!(error(100.0, f32::INFINITY, 1.0), 100.0);
}

#[test]
fn learning_from_finite_numbers_stays_finite() {
    let values = nums(&[3.0, -1.0, 0.5]);
    let (t, _) = learn_threshold(&values, num(0.49995), num(1.0), 5, num(1e30));
    assert!(float(t) >= 0.0 && float(t) <= 3.0);
    // A rate of zero times an infinite gradient is not a number, and the best threshold
    // stands in for it.
    let (t, e) = learn_threshold(&nums(&[0.5]), num(0.49995), num(1e19), 1, num(0.0));
    assert_eq!((float(t), float(e)), (0.5, 0.25));
    // With NaN among the numbers no threshold is better than another.
    let (t, e) = learn_threshold(&nums(&[0.5, f32::NAN]), num(0.3), num(1.0), 4, num(0.1));
    assert_eq!(float(t), 0.0);
    assert!(e.is_nan());
}
