//! Learning of the threshold that minimizes the mean squared error.
use crate::binary32;
use crate::binary32::Binary32;
use crate::exact;
use crate::metrics;
use crate::quantize;
use crate::quantize::QuantizeConfig;
use crate::rounding;
use crate::trit;
use crate::trit::Trit;
use vstd::arithmetic::power2::*;
use vstd::prelude::*;

verus! {

/// The number nearest to `1e-4`, the step of the numerical gradient.
#[verifier::allow_in_spec]
pub fn gradient_step() -> Binary32
    returns
        (Binary32 { bits: 0x38D1_B717 }),
{
    Binary32 { bits: 0x38D1_B717 }
}

/// The mean squared error between the numbers and what is left of them after
/// quantization and dequantization.
pub open spec fn loss(values: Seq<Binary32>, threshold: Binary32, scale: Binary32) -> Binary32 {
    metrics::mse(
        values,
        quantize::dequantized(quantize::quantized(values, threshold), scale),
    )
}

/// The forward difference quotient of the loss.
pub open spec fn gradient(values: Seq<Binary32>, threshold: Binary32, scale: Binary32) -> Binary32 {
    loss(values, threshold.plus(gradient_step()), scale).minus(
        loss(values, threshold, scale),
    ).over(gradient_step())
}

/// The threshold after one step along the gradient, clamped to the interval from zero
/// to the size of the largest number.
pub open spec fn stepped(
    values: Seq<Binary32>,
    threshold: Binary32,
    scale: Binary32,
    lr: Binary32,
) -> Binary32 {
    threshold.minus(lr.times(gradient(values, threshold, scale))).clamped(
        Binary32::plus_zero(),
        metrics::largest(metrics::sizes(values)),
    )
}

/// The first number at which `f` is least, among `+0` and the members of `s`.
pub open spec fn least_by(f: spec_fn(Binary32) -> Binary32, s: Seq<Binary32>) -> Binary32
    decreases s.len(),
{
    if s.len() == 0 {
        Binary32::plus_zero()
    } else {
        let best = least_by(f, s.drop_last());
        if f(s.last()).below(f(best)) {
            s.last()
        } else {
            best
        }
    }
}

/// The threshold at which quantization loses least. Between two neighbouring sizes of
/// the numbers the loss does not change, so that only zero and these sizes come into
/// question.
pub open spec fn best_threshold(values: Seq<Binary32>, scale: Binary32) -> Binary32 {
    least_by(|t: Binary32| loss(values, t, scale), metrics::sizes(values))
}

/// The threshold after one step of gradient descent: where the step along the gradient
/// leads, unless that is no number or the loss is smaller at the best threshold, which
/// is then taken.
pub open spec fn descended(
    values: Seq<Binary32>,
    threshold: Binary32,
    scale: Binary32,
    lr: Binary32,
) -> Binary32 {
    let next = stepped(values, threshold, scale, lr);
    let best = best_threshold(values, scale);
    if next.nan() || loss(values, best, scale).below(loss(values, next, scale)) {
        best
    } else {
        next
    }
}

/// The threshold after `n` steps of gradient descent.
pub open spec fn learned(
    values: Seq<Binary32>,
    initial: Binary32,
    scale: Binary32,
    n: nat,
    lr: Binary32,
) -> Binary32
    decreases n,
{
    if n == 0 {
        initial
    } else {
        descended(values, learned(values, initial, scale, (n - 1) as nat, lr), scale, lr)
    }
}

/// The loss at a threshold.
fn reconstruction_error(values: &[Binary32], threshold: Binary32, scale: Binary32) -> (r: Binary32)
    ensures
        r == loss(values@, threshold, scale),
{
    let config = QuantizeConfig::new(threshold, scale);
    let trits = quantize::quantize_f32_to_ternary(values, &config);
    let deq = quantize::dequantize_ternary_to_f32(trits.as_slice(), scale);
    metrics::mean_squared_error(values, deq.as_slice())
}

/// Whether the size of the number at `i` has occurred before.
fn size_repeats(values: &[Binary32], i: usize) -> (r: bool)
    requires
        i < values@.len(),
    ensures
        r <==> metrics::sizes(values@).take(i as int).contains(metrics::sizes(values@)[i as int]),
{
    let size = values[i].abs();
    let ghost before = metrics::sizes(values@).take(i as int);
    for j in 0..i
        invariant
            i < values@.len(),
            size == metrics::sizes(values@)[i as int],
            before == metrics::sizes(values@).take(i as int),
            forall|k: int| 0 <= k < j ==> before[k] != size,
    {
        assert(before[j as int] == values@[j as int].absolute());
        if values[j].abs().to_bits() == size.to_bits() {
            return true;
        }
    }
    false
}

/// The threshold at which quantization loses least, and the loss there.
fn find_best_threshold(values: &[Binary32], scale: Binary32) -> (r: (Binary32, Binary32))
    ensures
        r.0 == best_threshold(values@, scale),
        r.1 == loss(values@, r.0, scale),
{
    let ghost all = metrics::sizes(values@);
    let ghost f = |t: Binary32| loss(values@, t, scale);
    let mut best = Binary32::plus_zero();
    let mut least = reconstruction_error(values, best, scale);
    for i in 0..values.len()
        invariant
            all == metrics::sizes(values@),
            f == (|t: Binary32| loss(values@, t, scale)),
            best == least_by(f, all.take(i as int)),
            least == f(best),
    {
        assert(all.take(i + 1).drop_last() =~= all.take(i as int));
        proof {
            lemma_least_by(f, all.take(i as int));
        }
        if !size_repeats(values, i) {
            let size = values[i].abs();
            let mse = reconstruction_error(values, size, scale);
            if mse.lt(least) {
                best = size;
                least = mse;
            }
        }
    }
    assert(all.take(values@.len() as int) =~= all);
    (best, least)
}

/// The threshold after one step along the gradient, given the size of the largest number.
fn step_along(
    values: &[Binary32],
    threshold: Binary32,
    scale: Binary32,
    lr: Binary32,
    max_abs: Binary32,
) -> (r: Binary32)
    requires
        max_abs == metrics::largest(metrics::sizes(values@)),
    ensures
        r == stepped(values@, threshold, scale, lr),
{
    let mse = reconstruction_error(values, threshold, scale);
    let eps = gradient_step();
    let mse_plus = reconstruction_error(values, threshold.add(eps), scale);
    let grad = mse_plus.sub(mse).div(eps);
    proof {
        metrics::lemma_largest_from_zero(metrics::sizes(values@));
    }
    threshold.sub(lr.mul(grad)).clamp(Binary32::plus_zero(), max_abs)
}

/// Learn the threshold that minimizes the mean squared error between the original and
/// the quantized-then-dequantized numbers, by gradient descent.
///
/// Returns the learned threshold and the mean squared error at it. After at least one
/// iteration on finite numbers, no threshold from zero up gives a smaller error.
pub fn learn_threshold(
    values: &[Binary32],
    initial_threshold: Binary32,
    scale: Binary32,
    iterations: usize,
    lr: Binary32,
) -> (r: (Binary32, Binary32))
    ensures
        r.0 == learned(values@, initial_threshold, scale, iterations as nat, lr),
        r.1 == loss(values@, r.0, scale),
        r.1 == metrics::mse(
            values@,
            quantize::dequantized(quantize::quantized(values@, r.0), scale),
        ),
        iterations == 0 ==> r.0 == initial_threshold,
        iterations > 0 ==> Binary32::plus_zero().at_most(r.0) && r.0.at_most(
            metrics::largest(metrics::sizes(values@)),
        ),
        iterations > 0 && scale.finite() && (forall|i: int|
            0 <= i < values@.len() ==> (#[trigger] values@[i]).finite()) ==> forall|t: Binary32|
            Binary32::plus_zero().at_most(t) ==> r.1.at_most(#[trigger] loss(values@, t, scale)),
{
    if iterations == 0 {
        return (initial_threshold, reconstruction_error(values, initial_threshold, scale));
    }
    let max_abs = metrics::largest_size(values);
    let (best, least) = find_best_threshold(values, scale);
    let mut threshold = initial_threshold;
    for i in 0..iterations
        invariant
            max_abs == metrics::largest(metrics::sizes(values@)),
            best == best_threshold(values@, scale),
            least == loss(values@, best, scale),
            threshold == learned(values@, initial_threshold, scale, i as nat, lr),
    {
        let next = step_along(values, threshold, scale, lr, max_abs);
        threshold = if next.is_nan() || least.lt(reconstruction_error(values, next, scale)) {
            best
        } else {
            next
        };
    }
    let final_mse = reconstruction_error(values, threshold, scale);
    proof {
        assert(values@.len() == values.len());
        lemma_nothing_better(values@, initial_threshold, scale, iterations as nat, lr);
        law_learned_range(values@, initial_threshold, scale, iterations as nat, lr);
    }
    (threshold, final_mse)
}

/// The step of the gradient is the number nearest to `1e-4`.
pub proof fn law_gradient_step()
    ensures
        gradient_step() == Binary32::of_parts(false, rounding::nearest(pow2(149), 10_000)),
{
    let v = pow2(112);
    lemma2_to64();
    lemma2_to64_rest();
    lemma_pow2_adds(37, 112);
    lemma_pow2_pos(112);
    rounding::lemma_nearest_in_binade(pow2(149), 10_000, 112);
    rounding::lemma_round_expanded(pow2(37), 10_000, v);
    assert(rounding::round_half_even(0x20_0000_0000, 10_000) == 0xD1_B717);
}

/// The number at which `f` is least is a member or `+0`, and no member does better.
proof fn lemma_least_by(f: spec_fn(Binary32) -> Binary32, s: Seq<Binary32>)
    ensures
        least_by(f, s) == Binary32::plus_zero() || s.contains(least_by(f, s)) && !f(
            least_by(f, s),
        ).nan(),
        !f(Binary32::plus_zero()).below(f(least_by(f, s))),
        forall|i: int| 0 <= i < s.len() ==> !f(#[trigger] s[i]).below(f(least_by(f, s))),
    decreases s.len(),
{
    if s.len() > 0 {
        let init = s.drop_last();
        let before = least_by(f, init);
        lemma_least_by(f, init);
        assert(s[s.len() - 1] == s.last());
        if least_by(f, s) == before && init.contains(before) {
            let i = choose|i: int| 0 <= i < init.len() && init[i] == before;
            assert(s[i] == before);
        }
        assert forall|i: int| 0 <= i < s.len() implies !f(#[trigger] s[i]).below(
            f(least_by(f, s)),
        ) by {
            if i < s.len() - 1 {
                assert(s[i] == init[i]);
            }
        }
    }
}

/// The loss of finite numbers at a finite scale is a number, if perhaps infinite.
proof fn lemma_loss_number(values: Seq<Binary32>, threshold: Binary32, scale: Binary32)
    requires
        forall|i: int| 0 <= i < values.len() ==> (#[trigger] values[i]).finite(),
        scale.finite(),
        values.len() <= usize::MAX,
    ensures
        !loss(values, threshold, scale).nan(),
{
    let restored = quantize::dequantized(quantize::quantized(values, threshold), scale);
    let squares = metrics::squared_errors(values, restored);
    let bound = rounding::units(rounding::INFINITY as nat);
    assert forall|i: int| 0 <= i < squares.len() implies !(#[trigger] squares[i]).nan()
        && !squares[i].negative() && squares[i].size() <= bound by {
        trit::lemma_trit_times(quantize::ternary(values[i], threshold), scale);
        binary32::lemma_reassembled(scale);
        assert(restored[i].finite());
        binary32::lemma_minus_size(values[i], restored[i]);
        binary32::lemma_square(values[i].minus(restored[i]));
        binary32::lemma_size(squares[i]);
    }
    if values.len() > 0 {
        let n = values.len();
        metrics::lemma_sum_bounded(squares, bound);
        binary32::lemma_count_ordered(n, n);
        binary32::lemma_over_count(metrics::sum(squares), n);
        binary32::lemma_size(Binary32::of_nat(n));
        rounding::lemma_nearest_range(
            metrics::sum(squares).size() * pow2(149),
            Binary32::of_nat(n).size(),
        );
    }
}

/// The loss is NaN where one of the numbers is.
proof fn lemma_loss_nan(values: Seq<Binary32>, threshold: Binary32, scale: Binary32, i: int)
    requires
        0 <= i < values.len(),
        values[i].nan(),
    ensures
        loss(values, threshold, scale).nan(),
{
    let restored = quantize::dequantized(quantize::quantized(values, threshold), scale);
    metrics::lemma_sum_nan(metrics::squared_errors(values, restored), i);
}

/// Two thresholds that no size of the numbers lies between give the same trits.
proof fn lemma_same_trits(values: Seq<Binary32>, c: Binary32, t: Binary32)
    requires
        Binary32::plus_zero().at_most(c),
        c.at_most(t),
        forall|i: int| 0 <= i < values.len() ==> !(#[trigger] values[i]).nan(),
        forall|i: int|
            0 <= i < values.len() && (#[trigger] values[i]).absolute().at_most(t)
                ==> values[i].absolute().at_most(c),
    ensures
        quantize::quantized(values, c) == quantize::quantized(values, t),
{
    assert forall|i: int| 0 <= i < values.len() implies quantize::ternary(values[i], c)
        == quantize::ternary(values[i], t) by {
        let x = values[i];
        quantize::law_threshold_rule(x, c);
        quantize::law_threshold_rule(x, t);
        quantize::law_signs_kept(x, c);
        quantize::law_signs_kept(x, t);
        binary32::lemma_reassembled(x);
    }
    assert(quantize::quantized(values, c) =~= quantize::quantized(values, t));
}

/// The greatest among zero and the members of `s` that is not above `t`.
proof fn lemma_greatest_up_to(s: Seq<Binary32>, t: Binary32) -> (c: Binary32)
    requires
        Binary32::plus_zero().at_most(t),
    ensures
        c == Binary32::plus_zero() || s.contains(c),
        Binary32::plus_zero().at_most(c),
        c.at_most(t),
        forall|i: int| 0 <= i < s.len() && (#[trigger] s[i]).at_most(t) ==> s[i].at_most(c),
    decreases s.len(),
{
    if s.len() == 0 {
        return Binary32::plus_zero();
    }
    let init = s.drop_last();
    let before = lemma_greatest_up_to(init, t);
    let c = if s.last().at_most(t) && before.below(s.last()) {
        s.last()
    } else {
        before
    };
    assert(s.last() == s[s.len() - 1]);
    if c == before && init.contains(before) {
        let i = choose|i: int| 0 <= i < init.len() && init[i] == before;
        assert(s[i] == before);
    }
    assert forall|i: int| 0 <= i < s.len() && (#[trigger] s[i]).at_most(t) implies s[i].at_most(
        c,
    ) by {
        if i < s.len() - 1 {
            assert(s[i] == init[i]);
        }
    }
    c
}

/// At no threshold from zero up do finite numbers lose less than at the best one.
pub proof fn law_best_threshold(values: Seq<Binary32>, scale: Binary32, t: Binary32)
    requires
        forall|i: int| 0 <= i < values.len() ==> (#[trigger] values[i]).finite(),
        scale.finite(),
        values.len() <= usize::MAX,
        Binary32::plus_zero().at_most(t),
    ensures
        loss(values, best_threshold(values, scale), scale).at_most(loss(values, t, scale)),
{
    let all = metrics::sizes(values);
    let best = best_threshold(values, scale);
    let c = lemma_greatest_up_to(all, t);
    assert forall|i: int|
        0 <= i < values.len() && (#[trigger] values[i]).absolute().at_most(t) implies values[i]
        .absolute().at_most(c) by {
        assert(all[i].at_most(t));
    }
    lemma_same_trits(values, c, t);
    lemma_least_by(|t: Binary32| loss(values, t, scale), all);
    lemma_loss_number(values, c, scale);
    lemma_loss_number(values, best, scale);
}

/// What learning is for: after at least one step on finite numbers, no threshold from
/// zero up gives a smaller mean squared error than the learned one, whatever the first
/// threshold and the rate.
pub proof fn law_learned_minimizes(
    values: Seq<Binary32>,
    initial: Binary32,
    scale: Binary32,
    n: nat,
    lr: Binary32,
    t: Binary32,
)
    requires
        n > 0,
        forall|i: int| 0 <= i < values.len() ==> (#[trigger] values[i]).finite(),
        scale.finite(),
        values.len() <= usize::MAX,
        Binary32::plus_zero().at_most(t),
    ensures
        loss(values, learned(values, initial, scale, n, lr), scale).at_most(
            loss(values, t, scale),
        ),
{
    law_best_threshold(values, scale, t);
    lemma_loss_number(values, learned(values, initial, scale, n, lr), scale);
}

/// The learned threshold against all others at once.
proof fn lemma_nothing_better(
    values: Seq<Binary32>,
    initial: Binary32,
    scale: Binary32,
    n: nat,
    lr: Binary32,
)
    requires
        n > 0,
        values.len() <= usize::MAX,
    ensures
        scale.finite() && (forall|i: int|
            0 <= i < values.len() ==> (#[trigger] values[i]).finite()) ==> forall|t: Binary32|
            Binary32::plus_zero().at_most(t) ==> loss(
                values,
                learned(values, initial, scale, n, lr),
                scale,
            ).at_most(#[trigger] loss(values, t, scale)),
{
    if scale.finite() && (forall|i: int|
        0 <= i < values.len() ==> (#[trigger] values[i]).finite()) {
        assert forall|t: Binary32| Binary32::plus_zero().at_most(t) implies loss(
            values,
            learned(values, initial, scale, n, lr),
            scale,
        ).at_most(#[trigger] loss(values, t, scale)) by {
            law_learned_minimizes(values, initial, scale, n, lr, t);
        }
    }
}

/// The best threshold is a number, from zero to the size of the largest one.
proof fn lemma_best_range(values: Seq<Binary32>, scale: Binary32)
    ensures
        Binary32::plus_zero().at_most(best_threshold(values, scale)),
        best_threshold(values, scale).at_most(metrics::largest(metrics::sizes(values))),
{
    let all = metrics::sizes(values);
    let best = best_threshold(values, scale);
    metrics::lemma_largest_from_zero(all);
    lemma_least_by(|t: Binary32| loss(values, t, scale), all);
    if best != Binary32::plus_zero() {
        let i = choose|i: int| 0 <= i < all.len() && all[i] == best;
        if values[i].nan() {
            lemma_loss_nan(values, best, scale, i);
        }
        binary32::lemma_reassembled(values[i]);
        rounding::lemma_units_least();
        metrics::lemma_largest_bounds(all, i);
    }
}

/// After at least one step the threshold is a number, from zero to the size of the
/// largest one.
pub proof fn law_learned_range(
    values: Seq<Binary32>,
    initial: Binary32,
    scale: Binary32,
    n: nat,
    lr: Binary32,
)
    requires
        n > 0,
    ensures
        Binary32::plus_zero().at_most(learned(values, initial, scale, n, lr)),
        learned(values, initial, scale, n, lr).at_most(metrics::largest(metrics::sizes(values))),
{
    metrics::lemma_largest_from_zero(metrics::sizes(values));
    lemma_best_range(values, scale);
}

/// Learning on finite numbers gives a finite threshold.
pub proof fn law_learned_finite(
    values: Seq<Binary32>,
    initial: Binary32,
    scale: Binary32,
    n: nat,
    lr: Binary32,
)
    requires
        n > 0,
        forall|i: int| 0 <= i < values.len() ==> (#[trigger] values[i]).finite(),
    ensures
        learned(values, initial, scale, n, lr).finite(),
{
    let all = metrics::sizes(values);
    let high = metrics::largest(all);
    let t = learned(values, initial, scale, n, lr);
    law_learned_range(values, initial, scale, n, lr);
    metrics::lemma_largest_from_zero(all);
    metrics::lemma_largest_member(all);
    assert(high.finite()) by {
        if all.contains(high) {
            let i = choose|i: int| 0 <= i < all.len() && all[i] == high;
            assert(values[i].finite());
        }
    }
    rounding::lemma_units_least();
    binary32::lemma_size(high);
    binary32::lemma_size(t);
}

/// Learning can be interrupted: further steps go on from the threshold reached.
pub proof fn law_learning_resumes(
    values: Seq<Binary32>,
    initial: Binary32,
    scale: Binary32,
    n: nat,
    m: nat,
    lr: Binary32,
)
    ensures
        learned(values, learned(values, initial, scale, n, lr), scale, m, lr) == learned(
            values,
            initial,
            scale,
            n + m,
            lr,
        ),
    decreases m,
{
    if m > 0 {
        law_learning_resumes(values, initial, scale, n, (m - 1) as nat, lr);
    }
}

/// Where the gradient is zero, a step along it leaves a threshold within bounds where
/// it is.
proof fn lemma_flat_step(
    values: Seq<Binary32>,
    threshold: Binary32,
    scale: Binary32,
    lr: Binary32,
)
    requires
        gradient(values, threshold, scale).zero(),
        lr.finite(),
        Binary32::plus_zero().at_most(threshold),
        threshold.at_most(metrics::largest(metrics::sizes(values))),
    ensures
        !stepped(values, threshold, scale, lr).nan(),
        stepped(values, threshold, scale, lr).value() == threshold.value(),
{
    let step = lr.times(gradient(values, threshold, scale));
    rounding::lemma_units_least();
    lemma_pow2_pos(149);
    binary32::lemma_nearest_zero(pow2(149));
    assert(lr.size() * 0 == 0);
    assert(step.zero());
    binary32::lemma_reassembled(step);
    binary32::lemma_reassembled(threshold);
    binary32::lemma_size(threshold);
    rounding::lemma_nearest_exact(threshold.magnitude(), 1);
    assert(threshold.minus(step).value() == threshold.value());
}

/// A threshold within bounds at which the loss is least and flat stays where it is.
pub proof fn law_least_stays(
    values: Seq<Binary32>,
    threshold: Binary32,
    scale: Binary32,
    lr: Binary32,
)
    requires
        gradient(values, threshold, scale).zero(),
        lr.finite(),
        Binary32::plus_zero().at_most(threshold),
        threshold.at_most(metrics::largest(metrics::sizes(values))),
        forall|t: Binary32|
            Binary32::plus_zero().at_most(t) ==> !(#[trigger] loss(values, t, scale)).below(
                loss(values, threshold, scale),
            ),
    ensures
        !descended(values, threshold, scale, lr).nan(),
        descended(values, threshold, scale, lr).value() == threshold.value(),
{
    let next = stepped(values, threshold, scale, lr);
    lemma_flat_step(values, threshold, scale, lr);
    lemma_best_range(values, scale);
    binary32::lemma_reassembled(next);
    binary32::lemma_reassembled(threshold);
    assert(quantize::quantized(values, next) =~= quantize::quantized(values, threshold));
    assert(loss(values, next, scale) == loss(values, threshold, scale));
    let best = best_threshold(values, scale);
    assert(!loss(values, best, scale).below(loss(values, threshold, scale)));
}

/// The loss at a threshold is the mean squared error between the numbers and what
/// quantization with that threshold and dequantization with the given scale make of them,
/// whatever the scale.
pub proof fn law_loss(
    values: Seq<Binary32>,
    threshold: Binary32,
    scale: Binary32,
    trits: Seq<Trit>,
    restored: Seq<Binary32>,
)
    requires
        trits == quantize::quantized(values, threshold),
        restored == quantize::dequantized(trits, scale),
    ensures
        loss(values, threshold, scale) == metrics::mse(values, restored),
{
}

/// The loss of one number, at a threshold that is not negative: the square of the number
/// where its size is at most the threshold, and otherwise the square of the distance
/// between its size and the scale, each rounded.
pub proof fn law_loss_of_one(x: Binary32, threshold: Binary32, scale: Binary32)
    requires
        x.finite(),
        scale.finite(),
        Binary32::plus_zero().at_most(threshold),
    ensures
        x.size() <= threshold.value() ==> loss(seq![x], threshold, scale) == x.times(x),
        x.size() > threshold.value() ==> loss(seq![x], threshold, scale) == x.absolute().minus(
            scale,
        ).times(x.absolute().minus(scale)),
{
    let t = quantize::ternary(x, threshold);
    let y = t.number().times(scale);
    assert(quantize::dequantized(quantize::quantized(seq![x], threshold), scale) =~= seq![y]);
    metrics::law_mse_of_one(x, y);
    quantize::law_round_trip_error(x, threshold, scale);
    quantize::law_threshold_rule(x, threshold);
    rounding::lemma_units_least();
    let (d, e) = (x.minus(y), x.absolute().minus(scale));
    binary32::lemma_reassembled(x);
    binary32::lemma_reassembled(d);
    binary32::lemma_reassembled(e);
    if t == Trit::Zero {
        lemma_same_size_same_square(d, x);
    } else {
        lemma_same_size_same_square(d, e);
    }
}

/// Numbers of one size have the same square.
proof fn lemma_same_size_same_square(x: Binary32, y: Binary32)
    requires
        x.absolute() == y.absolute(),
    ensures
        x.times(x) == y.times(y),
{
    binary32::lemma_reassembled(x);
    binary32::lemma_reassembled(y);
    assert(x.magnitude() == y.magnitude());
}

/// A scale that fits loses nothing: where every number is zero, the scale or its opposite,
/// and the scale is positive and finite, the learned error is zero.
pub proof fn law_fitting_scale(
    values: Seq<Binary32>,
    initial: Binary32,
    scale: Binary32,
    n: nat,
    lr: Binary32,
)
    requires
        n > 0,
        values.len() <= usize::MAX,
        scale.finite(),
        scale.value() > 0,
        forall|i: int|
            0 <= i < values.len() ==> (#[trigger] values[i]).zero() || values[i] == scale
                || values[i] == scale.negated(),
    ensures
        loss(values, learned(values, initial, scale, n, lr), scale) == Binary32::plus_zero(),
{
    let zero = Binary32::plus_zero();
    let t = learned(values, initial, scale, n, lr);
    let restored = quantize::dequantized(quantize::quantized(values, zero), scale);
    rounding::lemma_units_least();
    binary32::lemma_reassembled(scale);
    assert forall|i: int| 0 <= i < values.len() implies (#[trigger] values[i]).finite() by {}
    assert(loss(values, zero, scale) == zero) by {
        let squares = metrics::squared_errors(values, restored);
        assert forall|i: int| 0 <= i < squares.len() implies squares[i] == zero by {
            let x = values[i];
            binary32::lemma_size(x);
            binary32::lemma_reassembled(x);
            quantize::law_three_levels(quantize::quantized(values, zero), scale, i);
            quantize::law_quantized(values, zero, i);
            lemma_pow2_pos(149);
            binary32::lemma_nearest_zero(pow2(149));
            assert(0 * 0 == 0);
            assert(x.value() - restored[i].value() == 0);
            assert(x.minus(restored[i]).zero());
        }
        metrics::lemma_sum_of_zeros(squares);
        if values.len() > 0 {
            binary32::lemma_zero_over_count(values.len());
        }
    }
    law_learned_minimizes(values, initial, scale, n, lr, zero);
    let restored = quantize::dequantized(quantize::quantized(values, t), scale);
    metrics::law_mse_not_negative(values, restored);
    exact::law_comparison(loss(values, t, scale), zero);
    metrics::lemma_mse_unsigned(values, restored);
}

/// One step of learning: along the difference quotient of the mean squared error over
/// `1e-4`, against its sign, scaled by the rate; then into the range from zero to the
/// largest size. Where that is a number and the error there is not above the least one,
/// it is the next threshold.
pub proof fn law_learning_step(
    values: Seq<Binary32>,
    initial: Binary32,
    scale: Binary32,
    n: nat,
    lr: Binary32,
)
    ensures
        learned(values, initial, scale, 0, lr) == initial,
        ({
            let t = learned(values, initial, scale, n, lr);
            let next = learned(values, initial, scale, n + 1, lr);
            let eps = Binary32 { bits: 0x38D1_B717 };
            let slope = loss(values, t.plus(eps), scale).minus(loss(values, t, scale)).over(eps);
            let free = t.minus(lr.times(slope));
            let high = metrics::largest(metrics::sizes(values));
            let bounded = if free.value() < 0 {
                Binary32::plus_zero()
            } else if free.value() > high.value() {
                high
            } else {
                free
            };
            let best = best_threshold(values, scale);
            let worse = loss(values, best, scale).below(loss(values, bounded, scale));
            &&& free.nan() || worse ==> next == best
            &&& !free.nan() && !worse ==> next == bounded
        }),
{
    metrics::law_largest_size(values);
    rounding::lemma_units_least();
}

/// The best threshold is the first of least error: zero, or else the size of a number at
/// which the error is smaller than at zero and at the size of every number before it.
pub proof fn law_first_best(values: Seq<Binary32>, scale: Binary32)
    ensures
        ({
            let best = best_threshold(values, scale);
            let least = loss(values, best, scale);
            best == Binary32::plus_zero() || exists|i: int|
                0 <= i < values.len() && best == (#[trigger] values[i]).absolute() && least.below(
                    loss(values, Binary32::plus_zero(), scale),
                ) && forall|j: int|
                    0 <= j < i ==> !(loss(values, (#[trigger] values[j]).absolute(), scale).at_most(
                        least,
                    ))
        }),
{
    let f = |t: Binary32| loss(values, t, scale);
    let all = metrics::sizes(values);
    let best = best_threshold(values, scale);
    lemma_first_by(f, all);
    if best != Binary32::plus_zero() {
        let i = choose|i: int|
            0 <= i < all.len() && best == #[trigger] all[i] && f(best).below(
                f(Binary32::plus_zero()),
            ) && forall|j: int| 0 <= j < i ==> !f(#[trigger] all[j]).at_most(f(best));
        assert(best == values[i].absolute());
        assert forall|j: int| 0 <= j < i implies !(loss(
            values,
            (#[trigger] values[j]).absolute(),
            scale,
        ).at_most(loss(values, best, scale))) by {
            assert(!f(all[j]).at_most(f(best)));
        }
    }
}

/// Where the number at which `f` is least is not `+0`, it is the first member at which
/// `f` is that small, and `f` is smaller there than at `+0`.
proof fn lemma_first_by(f: spec_fn(Binary32) -> Binary32, s: Seq<Binary32>)
    ensures
        least_by(f, s) == Binary32::plus_zero() || exists|i: int|
            0 <= i < s.len() && least_by(f, s) == #[trigger] s[i] && f(least_by(f, s)).below(
                f(Binary32::plus_zero()),
            ) && forall|j: int| 0 <= j < i ==> !f(#[trigger] s[j]).at_most(f(least_by(f, s))),
    decreases s.len(),
{
    if s.len() > 0 {
        let init = s.drop_last();
        let (before, best) = (least_by(f, init), least_by(f, s));
        lemma_first_by(f, init);
        lemma_least_by(f, init);
        if best == before && best != Binary32::plus_zero() {
            let i = choose|i: int|
                0 <= i < init.len() && before == #[trigger] init[i] && f(before).below(
                    f(Binary32::plus_zero()),
                ) && forall|j: int| 0 <= j < i ==> !f(#[trigger] init[j]).at_most(f(before));
            assert(s[i] == best);
            assert forall|j: int| 0 <= j < i implies !f(#[trigger] s[j]).at_most(f(best)) by {
                assert(s[j] == init[j]);
            }
        } else if best != Binary32::plus_zero() {
            let i = s.len() - 1;
            assert(s[i] == best);
            assert forall|j: int| 0 <= j < i implies !f(#[trigger] s[j]).at_most(f(best)) by {
                assert(s[j] == init[j]);
            }
        }
    }
}

/// A step along the gradient goes downhill: with a positive rate, a threshold within
/// bounds does not grow where the error is greater a little above it, and does not shrink
/// where the error is smaller there.
pub proof fn law_downhill(
    values: Seq<Binary32>,
    threshold: Binary32,
    scale: Binary32,
    lr: Binary32,
)
    requires
        lr.finite(),
        lr.value() > 0,
        threshold.finite(),
        Binary32::plus_zero().at_most(threshold),
        threshold.at_most(metrics::largest(metrics::sizes(values))),
        loss(values, threshold, scale).finite(),
        loss(values, threshold.plus(gradient_step()), scale).finite(),
    ensures
        ({
            let here = loss(values, threshold, scale);
            let above = loss(values, threshold.plus(gradient_step()), scale);
            let next = stepped(values, threshold, scale, lr);
            &&& here.below(above) ==> next.at_most(threshold)
            &&& above.below(here) ==> threshold.at_most(next)
        }),
{
    let here = loss(values, threshold, scale);
    let above = loss(values, threshold.plus(gradient_step()), scale);
    let eps = gradient_step();
    let d = above.minus(here);
    let g = d.over(eps);
    let step = lr.times(g);
    let free = threshold.minus(step);
    rounding::lemma_units_least();
    binary32::lemma_minus_sign(above, here);
    binary32::lemma_size(eps);
    binary32::lemma_size(lr);
    exact::law_special(d, eps);
    if d.finite() {
        exact::law_quotient(d, eps, d);
    }
    exact::law_special(lr, g);
    if g.finite() {
        exact::law_product(lr, g, g);
    }
    assert(step.negative() == d.negative());
    exact::law_difference(threshold, step);
    exact::law_special(threshold, step.negated());
    if step.finite() {
        exact::law_sum(threshold, step.negated(), threshold);
    } else {
        binary32::lemma_size(threshold);
        assert(free == step.negated());
        assert(free.size() == rounding::units(rounding::INFINITY as nat));
    }
    assert(!free.nan());
    if here.below(above) {
        assert(free.value() <= threshold.value());
    }
    if above.below(here) {
        assert(free.value() >= threshold.value());
    }
}

} // verus!
