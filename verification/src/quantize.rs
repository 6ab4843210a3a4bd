//! Quantization of numbers to trits, and the way back.
use crate::binary32;
use crate::binary32::Binary32;
use crate::rng;
use crate::rng::SimpleRng;
use crate::rounding;
use crate::trit;
use crate::trit::Trit;
use vstd::arithmetic::div_mod::*;
use vstd::arithmetic::power2::*;
use vstd::prelude::*;

verus! {

/// Configuration for deterministic ternary quantization.
#[derive(Debug)]
pub struct QuantizeConfig {
    /// Numbers of at most this size become zero.
    pub threshold: Binary32,
    /// Scale factor applied during dequantization.
    pub scale: Binary32,
}

impl Default for QuantizeConfig {
    fn default() -> (r: Self)
        ensures
            r.threshold == one_twentieth(),
            r.scale == Binary32::one(),
    {
        Self { threshold: one_twentieth(), scale: Binary32::one() }
    }
}

impl Clone for QuantizeConfig {
    fn clone(&self) -> (r: Self)
        ensures
            r == *self,
    {
        Self { threshold: self.threshold, scale: self.scale }
    }
}

impl QuantizeConfig {
    pub fn new(threshold: Binary32, scale: Binary32) -> (r: Self)
        ensures
            r.threshold == threshold,
            r.scale == scale,
    {
        Self { threshold, scale }
    }
}

/// The number nearest to `0.05`.
#[verifier::allow_in_spec]
pub fn one_twentieth() -> Binary32
    returns
        (Binary32 { bits: 0x3D4C_CCCD }),
{
    Binary32 { bits: 0x3D4C_CCCD }
}

/// The trit of `x`: positive above the threshold, negative below its opposite,
/// zero otherwise.
pub open spec fn ternary(x: Binary32, threshold: Binary32) -> Trit {
    if threshold.below(x) {
        Trit::Pos
    } else if x.below(threshold.negated()) {
        Trit::Neg
    } else {
        Trit::Zero
    }
}

/// The trits of a sequence of numbers.
pub open spec fn quantized(values: Seq<Binary32>, threshold: Binary32) -> Seq<Trit> {
    Seq::new(values.len(), |i: int| ternary(values[i], threshold))
}

/// The numbers that a sequence of trits stands for.
pub open spec fn dequantized(trits: Seq<Trit>, scale: Binary32) -> Seq<Binary32> {
    Seq::new(trits.len(), |i: int| trits[i].number().times(scale))
}

/// Quantize numbers into trits using a fixed threshold.
///
/// - `|x| <= threshold` gives zero
/// - `x > threshold` gives positive
/// - `x < -threshold` gives negative
pub fn quantize_f32_to_ternary(values: &[Binary32], config: &QuantizeConfig) -> (r: Vec<Trit>)
    ensures
        r@ == quantized(values@, config.threshold),
        r@.len() == values@.len(),
        forall|i: int|
            0 <= i < values@.len() ==> ((#[trigger] r@[i]) == Trit::Pos <==> config.threshold.below(
                values@[i],
            )),
        forall|i: int|
            0 <= i < values@.len() ==> ((#[trigger] r@[i]) == Trit::Neg <==> values@[i].below(
                config.threshold.negated(),
            ) && !config.threshold.below(values@[i])),
{
    let mut trits: Vec<Trit> = Vec::new();
    for i in 0..values.len()
        invariant
            trits@ =~= quantized(values@.take(i as int), config.threshold),
    {
        let x = values[i];
        let t = if x.gt(config.threshold) {
            Trit::Pos
        } else if x.lt(config.threshold.neg()) {
            Trit::Neg
        } else {
            Trit::Zero
        };
        trits.push(t);
    }
    assert(values@.take(values@.len() as int) =~= values@);
    trits
}

/// Turn trits back into numbers: each becomes `trit.to_f32() * scale`.
pub fn dequantize_ternary_to_f32(trits: &[Trit], scale: Binary32) -> (r: Vec<Binary32>)
    ensures
        r@ == dequantized(trits@, scale),
        r@.len() == trits@.len(),
        forall|i: int|
            0 <= i < trits@.len() ==> #[trigger] r@[i] == trits@[i].number().times(scale),
        !scale.nan() ==> forall|i: int|
            0 <= i < trits@.len() && trits@[i] == Trit::Pos ==> #[trigger] r@[i] == scale,
        !scale.nan() ==> forall|i: int|
            0 <= i < trits@.len() && trits@[i] == Trit::Neg ==> #[trigger] r@[i] == scale.negated(),
{
    let mut values: Vec<Binary32> = Vec::new();
    for i in 0..trits.len()
        invariant
            values@ =~= dequantized(trits@.take(i as int), scale),
    {
        values.push(trits[i].to_f32().mul(scale));
    }
    assert(trits@.take(trits@.len() as int) =~= trits@);
    proof {
        if !scale.nan() {
            trit::lemma_trit_times(Trit::Pos, scale);
            trit::lemma_trit_times(Trit::Neg, scale);
        }
    }
    values
}

/// Whether stochastic rounding of `n` takes a draw: `n` is not beyond the unit
/// interval on either side.
pub open spec fn takes_draw(n: Binary32) -> bool {
    !Binary32::one().at_most(n) && !n.at_most(Binary32::one().negated())
}

/// The trit that `n` becomes where the draw is `r`. Beyond the unit interval the
/// draw does not matter; within it, `n` moves away from zero where the draw is
/// smaller than the size of `n`.
pub open spec fn stochastic_trit(n: Binary32, r: Binary32) -> Trit {
    if Binary32::one().at_most(n) {
        Trit::Pos
    } else if n.at_most(Binary32::one().negated()) {
        Trit::Neg
    } else if Binary32::plus_zero().below(n) {
        if r.below(n) {
            Trit::Pos
        } else {
            Trit::Zero
        }
    } else {
        if r.below(n.negated()) {
            Trit::Neg
        } else {
            Trit::Zero
        }
    }
}

/// The trits that stochastic rounding gives from generator state `s`, and the
/// state that it leaves. The numbers are taken in order; each is divided by the
/// scale, and takes one draw where it needs one.
pub open spec fn stochastic(values: Seq<Binary32>, scale: Binary32, s: Seq<u32>) -> (
    Seq<Trit>,
    Seq<u32>,
)
    decreases values.len(),
{
    if values.len() == 0 {
        (Seq::empty(), s)
    } else {
        let (trits, t) = stochastic(values.drop_last(), scale, s);
        let n = values.last().over(scale);
        (
            trits.push(stochastic_trit(n, rng::draw(t))),
            if takes_draw(n) {
                rng::successor(t)
            } else {
                t
            },
        )
    }
}

/// Stochastic ternary quantization.
///
/// Each number, divided by the scale, becomes one of its two neighbours among
/// `-1`, `0` and `1`; the nearer it lies to one of them, the more draws lead there.
/// Numbers beyond the unit interval become the nearer end and take no draw.
pub fn stochastic_quantize(values: &[Binary32], scale: Binary32, rng: &mut SimpleRng) -> (r: Vec<
    Trit,
>)
    ensures
        (r@, final(rng)@) == stochastic(values@, scale, old(rng)@),
        r@.len() == values@.len(),
{
    let mut trits: Vec<Trit> = Vec::new();
    for i in 0..values.len()
        invariant
            (trits@, rng@) == stochastic(values@.take(i as int), scale, old(rng)@),
    {
        let ghost before = values@.take(i as int);
        let ghost after = values@.take(i + 1);
        assert(after.drop_last() =~= before);
        let normalized = values[i].div(scale);
        let t = if normalized.ge(Binary32::one()) {
            Trit::Pos
        } else if normalized.le(Binary32::one().neg()) {
            Trit::Neg
        } else {
            let r = rng.next_f32();
            if normalized.gt(Binary32::plus_zero()) {
                if r.lt(normalized) {
                    Trit::Pos
                } else {
                    Trit::Zero
                }
            } else {
                if r.lt(normalized.neg()) {
                    Trit::Neg
                } else {
                    Trit::Zero
                }
            }
        };
        trits.push(t);
    }
    assert(values@.take(values@.len() as int) =~= values@);
    proof {
        law_draws_taken(values@, scale, old(rng)@);
    }
    trits
}

/// The default threshold is the number nearest to `0.05`.
pub proof fn law_default_threshold()
    ensures
        one_twentieth() == Binary32::of_parts(false, rounding::nearest(5 * pow2(149), 100)),
{
    let v = pow2(121);
    lemma2_to64();
    lemma_pow2_adds(28, 121);
    lemma_pow2_pos(121);
    rounding::lemma_nearest_in_binade(5 * pow2(149), 100, 121);
    rounding::lemma_round_expanded(5 * 0x1000_0000, 100, v);
    assert(rounding::round_half_even(5 * 0x1000_0000, 100) == 0xCC_CCCD);
}

/// The rule of deterministic quantization: zero takes exactly the numbers of at
/// most the threshold's size, positive the numbers above the threshold, negative
/// the rest.
pub proof fn law_threshold_rule(x: Binary32, threshold: Binary32)
    requires
        !x.nan(),
        !threshold.nan(),
    ensures
        ternary(x, threshold) == Trit::Zero <==> x.absolute().at_most(threshold),
        ternary(x, threshold) == Trit::Pos <==> threshold.below(x),
        ternary(x, threshold) == Trit::Neg <==> x.below(threshold.negated()) && !threshold.below(x),
{
    binary32::lemma_reassembled(x);
    binary32::lemma_reassembled(threshold);
}

/// What is not a number becomes zero, and so does everything where the threshold
/// is not a number.
pub proof fn law_nan_becomes_zero(x: Binary32, threshold: Binary32)
    requires
        x.nan() || threshold.nan(),
    ensures
        ternary(x, threshold) == Trit::Zero,
{
    binary32::lemma_reassembled(threshold);
}

/// With a threshold that is not negative, a trit has the sign of its number, and
/// the opposite number has the opposite trit.
pub proof fn law_signs_kept(x: Binary32, threshold: Binary32)
    requires
        Binary32::plus_zero().at_most(threshold),
    ensures
        ternary(x, threshold) == Trit::Pos ==> Binary32::plus_zero().below(x),
        ternary(x, threshold) == Trit::Neg ==> x.below(Binary32::plus_zero()),
        ternary(x.negated(), threshold).sign() == -ternary(x, threshold).sign(),
{
    binary32::lemma_reassembled(x);
    binary32::lemma_reassembled(threshold);
    rounding::lemma_units_least();
}

/// Quantization keeps the order of numbers.
pub proof fn law_order_kept(x: Binary32, y: Binary32, threshold: Binary32)
    requires
        x.at_most(y),
    ensures
        ternary(x, threshold).sign() <= ternary(y, threshold).sign(),
{
    binary32::lemma_reassembled(threshold);
}

/// A greater threshold only ever makes more numbers zero.
pub proof fn law_greater_threshold(values: Seq<Binary32>, t1: Binary32, t2: Binary32)
    requires
        t1.at_most(t2),
    ensures
        forall|i: int|
            #![trigger quantized(values, t1)[i]]
            #![trigger quantized(values, t2)[i]]
            0 <= i < values.len() && quantized(values, t1)[i] == Trit::Zero ==> quantized(
                values,
                t2,
            )[i] == Trit::Zero,
{
    binary32::lemma_reassembled(t1);
    binary32::lemma_reassembled(t2);
}

/// The trits of a sequence, number by number and in exact terms: for a threshold that is
/// a number, positive where the number is above the threshold, negative where it is not
/// and lies below the opposite of the threshold, and zero otherwise.
pub proof fn law_quantized(values: Seq<Binary32>, threshold: Binary32, i: int)
    requires
        0 <= i < values.len(),
    ensures
        ({
            let x = values[i];
            let t = quantized(values, threshold)[i];
            &&& quantized(values, threshold).len() == values.len()
            &&& x.nan() || threshold.nan() ==> t == Trit::Zero
            &&& !x.nan() && !threshold.nan() && x.value() > threshold.value() ==> t == Trit::Pos
            &&& !x.nan() && !threshold.nan() && x.value() <= threshold.value() && x.value()
                < -threshold.value() ==> t == Trit::Neg
            &&& !x.nan() && !threshold.nan() && -threshold.value() <= x.value()
                <= threshold.value() ==> t == Trit::Zero
        }),
{
    binary32::lemma_reassembled(threshold);
}

/// Dequantization has three levels: the scale, its opposite and zero with the sign of
/// the scale. An infinite scale has no zero, and a scale that is NaN has nothing.
pub proof fn law_three_levels(trits: Seq<Trit>, scale: Binary32, i: int)
    requires
        0 <= i < trits.len(),
    ensures
        dequantized(trits, scale).len() == trits.len(),
        !scale.nan() && trits[i] == Trit::Pos ==> dequantized(trits, scale)[i] == scale,
        !scale.nan() && trits[i] == Trit::Neg ==> dequantized(trits, scale)[i] == scale.negated(),
        scale.finite() && trits[i] == Trit::Zero ==> dequantized(trits, scale)[i].zero()
            && dequantized(trits, scale)[i].negative() == scale.negative(),
        scale.infinite() && trits[i] == Trit::Zero ==> dequantized(trits, scale)[i].nan(),
        scale.nan() ==> dequantized(trits, scale)[i].nan(),
{
    if !scale.nan() {
        trit::lemma_trit_times(trits[i], scale);
    }
}

/// Quantizing what was dequantized gives the trits back, wherever the scale is
/// above the threshold.
pub proof fn law_requantized(trits: Seq<Trit>, threshold: Binary32, scale: Binary32)
    requires
        Binary32::plus_zero().at_most(threshold),
        threshold.below(scale),
    ensures
        quantized(dequantized(trits, scale), threshold) == trits,
{
    let back = quantized(dequantized(trits, scale), threshold);
    rounding::lemma_units_least();
    binary32::lemma_reassembled(scale);
    binary32::lemma_reassembled(threshold);
    assert forall|i: int| 0 <= i < trits.len() implies back[i] == trits[i] by {
        trit::lemma_trit_times(trits[i], scale);
    }
    assert(back =~= trits);
}

/// What quantization loses: with a threshold that is not negative, the way to a trit
/// and back moves a number that becomes zero by its own size, which is at most the
/// threshold, and any other number by the distance between its size and the scale. The
/// rounded error is the rounding of just that.
pub proof fn law_round_trip_error(x: Binary32, threshold: Binary32, scale: Binary32)
    requires
        x.finite(),
        scale.finite(),
        Binary32::plus_zero().at_most(threshold),
    ensures
        ({
            let t = ternary(x, threshold);
            let y = t.number().times(scale);
            let moved = if x.value() <= y.value() {
                y.value() - x.value()
            } else {
                x.value() - y.value()
            };
            &&& y.finite()
            &&& t == Trit::Zero ==> moved == x.size() && moved <= threshold.value()
            &&& t == Trit::Zero ==> x.minus(y).absolute() == x.absolute()
            &&& t != Trit::Zero ==> moved == if x.size() <= scale.value() {
                scale.value() - x.size()
            } else {
                x.size() - scale.value()
            }
            &&& t != Trit::Zero ==> x.minus(y).absolute() == x.absolute().minus(scale).absolute()
        }),
{
    let t = ternary(x, threshold);
    let y = t.number().times(scale);
    let ax = x.absolute();
    trit::lemma_trit_times(t, scale);
    law_signs_kept(x, threshold);
    law_threshold_rule(x, threshold);
    rounding::lemma_units_least();
    binary32::lemma_reassembled(x);
    binary32::lemma_reassembled(y);
    binary32::lemma_reassembled(scale);
    binary32::lemma_minus_size(x, y);
    binary32::lemma_minus_size(ax, scale);
    rounding::lemma_nearest_exact(x.magnitude(), 1);
    binary32::lemma_reassembled(x.minus(y));
    binary32::lemma_reassembled(ax.minus(scale));
}

/// The bound on what quantization loses: for a number of at most the scale's size, the
/// error is at most the threshold, or at most the distance between threshold and
/// scale, whichever is greater.
pub proof fn law_round_trip_bound(x: Binary32, threshold: Binary32, scale: Binary32)
    requires
        scale.finite(),
        Binary32::plus_zero().at_most(threshold),
        threshold.at_most(scale),
        x.absolute().at_most(scale),
    ensures
        ({
            let y = ternary(x, threshold).number().times(scale);
            let moved = if x.value() <= y.value() {
                y.value() - x.value()
            } else {
                x.value() - y.value()
            };
            &&& y.finite()
            &&& moved <= threshold.value() || moved <= scale.value() - threshold.value()
            &&& x.minus(y).absolute().at_most(threshold.greater_of(scale.minus(threshold)))
        }),
{
    let t = ternary(x, threshold);
    let y = t.number().times(scale);
    trit::lemma_trit_times(t, scale);
    rounding::lemma_units_least();
    binary32::lemma_reassembled(x);
    binary32::lemma_reassembled(y);
    binary32::lemma_reassembled(scale);
    binary32::lemma_reassembled(threshold);
    binary32::lemma_size(scale);
    binary32::lemma_size_ordered(x.absolute(), scale);
    binary32::lemma_size_ordered(scale, x.absolute());
    binary32::lemma_size_ordered(threshold, scale);
    binary32::lemma_size_ordered(scale, threshold);
    assert(x.finite() && threshold.finite());
    let moved = if x.value() <= y.value() {
        (y.value() - x.value()) as nat
    } else {
        (x.value() - y.value()) as nat
    };
    let gap = (scale.value() - threshold.value()) as nat;
    binary32::lemma_minus_size(x, y);
    binary32::lemma_minus_size(scale, threshold);
    if moved <= threshold.value() {
        rounding::lemma_nearest_monotone(moved, 1, threshold.size(), 1);
        rounding::lemma_nearest_exact(threshold.magnitude(), 1);
        binary32::lemma_size_ordered(x.minus(y).absolute(), threshold);
        binary32::lemma_size_ordered(threshold, x.minus(y).absolute());
    } else {
        rounding::lemma_nearest_monotone(moved, 1, gap, 1);
        binary32::lemma_size_ordered(x.minus(y).absolute(), scale.minus(threshold));
        binary32::lemma_size_ordered(scale.minus(threshold), x.minus(y).absolute());
    }
}

/// How many of the numbers take a draw.
pub open spec fn draws_taken(values: Seq<Binary32>, scale: Binary32) -> nat
    decreases values.len(),
{
    if values.len() == 0 {
        0
    } else {
        draws_taken(values.drop_last(), scale) + if takes_draw(values.last().over(scale)) {
            1nat
        } else {
            0nat
        }
    }
}

/// Stochastic rounding gives one trit for each number, and the generator moves on
/// by one state for each draw taken.
pub proof fn law_draws_taken(values: Seq<Binary32>, scale: Binary32, s: Seq<u32>)
    ensures
        stochastic(values, scale, s).0.len() == values.len(),
        stochastic(values, scale, s).1 == rng::advanced(s, draws_taken(values, scale)),
    decreases values.len(),
{
    if values.len() > 0 {
        law_draws_taken(values.drop_last(), scale, s);
    }
}

/// Each number is rounded by itself, with the draw that is next when its turn comes.
pub proof fn law_each_by_itself(values: Seq<Binary32>, scale: Binary32, s: Seq<u32>, i: int)
    requires
        0 <= i < values.len(),
    ensures
        stochastic(values, scale, s).0[i] == stochastic_trit(
            values[i].over(scale),
            rng::draw(rng::advanced(s, draws_taken(values.take(i), scale))),
        ),
    decreases values.len(),
{
    let init = values.drop_last();
    law_draws_taken(init, scale, s);
    if i < init.len() {
        law_each_by_itself(init, scale, s, i);
        assert(init.take(i) =~= values.take(i));
    } else {
        assert(values.take(i) =~= init);
    }
}

/// Rounding two batches one after the other is rounding them as one.
pub proof fn law_batches(
    first: Seq<Binary32>,
    second: Seq<Binary32>,
    scale: Binary32,
    s: Seq<u32>,
)
    ensures
        ({
            let (a, t) = stochastic(first, scale, s);
            let (b, u) = stochastic(second, scale, t);
            stochastic(first + second, scale, s) == (a + b, u)
        }),
    decreases second.len(),
{
    let (a, t) = stochastic(first, scale, s);
    if second.len() == 0 {
        assert(first + second =~= first);
        assert(a + Seq::<Trit>::empty() =~= a);
    } else {
        let init = second.drop_last();
        law_batches(first, init, scale, s);
        assert((first + second).drop_last() =~= first + init);
        let (b, u) = stochastic(init, scale, t);
        let x = stochastic_trit(second.last().over(scale), rng::draw(u));
        assert((a + b).push(x) =~= a + b.push(x));
    }
}

/// Who takes a draw: exactly the numbers strictly between `-1` and `1`, and NaN.
pub proof fn law_takes_draw(n: Binary32)
    ensures
        takes_draw(n) <==> n.nan() || -pow2(149) < n.value() < pow2(149),
{
    trit::lemma_one();
    binary32::lemma_reassembled(Binary32::one());
}

/// The trit of a number and a draw, in exact terms. From one up it is positive, from
/// minus one down negative. In between, the number moves away from zero, to its own side,
/// exactly where the draw is smaller than its size.
pub proof fn law_stochastic_rule(n: Binary32, r: Binary32)
    requires
        !n.nan(),
        !r.nan(),
        r.value() >= 0,
    ensures
        n.value() >= pow2(149) ==> stochastic_trit(n, r) == Trit::Pos,
        n.value() <= -pow2(149) ==> stochastic_trit(n, r) == Trit::Neg,
        -pow2(149) < n.value() < pow2(149) ==> (stochastic_trit(n, r) == Trit::Pos <==> r.value()
            < n.value()),
        -pow2(149) < n.value() < pow2(149) ==> (stochastic_trit(n, r) == Trit::Neg <==> r.value()
            < -n.value()),
{
    trit::lemma_one();
    lemma_pow2_pos(149);
    rounding::lemma_units_least();
    binary32::lemma_reassembled(n);
    binary32::lemma_reassembled(Binary32::one());
}

/// Stochastic rounding, one number at a time. A further number `x` is divided by the
/// scale. If the quotient lies strictly between `-1` and `1`, the next draw is taken, and
/// the trit is the side of the quotient where the draw is smaller than its size, and zero
/// where it is not. If not, the generator stays, and the trit is the nearer end. A
/// quotient that is NaN takes a draw and gives zero.
pub proof fn law_one_more(values: Seq<Binary32>, x: Binary32, scale: Binary32, s: Seq<u32>)
    ensures
        ({
            let (trits, t) = stochastic(values, scale, s);
            let (more, u) = stochastic(values.push(x), scale, s);
            let n = x.over(scale);
            let draw = ((rng::output(t) / 256) * pow2(125)) as int;
            &&& stochastic(Seq::empty(), scale, s) == (Seq::<Trit>::empty(), s)
            &&& more.len() == trits.len() + 1
            &&& more.drop_last() == trits
            &&& n.nan() ==> u == rng::successor(t) && more.last() == Trit::Zero
            &&& !n.nan() && n.value() >= pow2(149) ==> u == t && more.last() == Trit::Pos
            &&& !n.nan() && n.value() <= -pow2(149) ==> u == t && more.last() == Trit::Neg
            &&& !n.nan() && -pow2(149) < n.value() < pow2(149) ==> {
                &&& u == rng::successor(t)
                &&& more.last() == Trit::Pos <==> draw < n.value()
                &&& more.last() == Trit::Neg <==> draw < -n.value()
            }
        }),
{
    let (trits, t) = stochastic(values, scale, s);
    let (more, u) = stochastic(values.push(x), scale, s);
    let n = x.over(scale);
    assert(values.push(x).drop_last() =~= values);
    assert(more.drop_last() =~= trits);
    rng::law_draw_in_unit_interval(t);
    let o = rng::output(t);
    assert(o >> 8 == o / 256) by (bit_vector);
    law_takes_draw(n);
    trit::lemma_one();
    lemma_pow2_pos(149);
    rounding::lemma_units_least();
    binary32::lemma_reassembled(n);
    binary32::lemma_reassembled(Binary32::one());
    if !n.nan() {
        law_stochastic_rule(n, rng::draw(t));
    }
}

/// Beyond the unit interval the draw does not matter, and none is taken.
pub proof fn law_extremes(n: Binary32, r: Binary32)
    ensures
        Binary32::one().at_most(n) ==> stochastic_trit(n, r) == Trit::Pos && !takes_draw(n),
        n.at_most(Binary32::one().negated()) ==> stochastic_trit(n, r) == Trit::Neg && !takes_draw(
            n,
        ),
{
    trit::lemma_one();
    lemma_pow2_pos(149);
    binary32::lemma_reassembled(Binary32::one());
}

/// For a draw from the unit interval: zero stays zero, so does NaN, a trit that is
/// not zero has the sign of its number, and the opposite number has the opposite trit.
pub proof fn law_stochastic_signs(n: Binary32, r: Binary32)
    requires
        Binary32::plus_zero().at_most(r),
    ensures
        n.zero() || n.nan() ==> stochastic_trit(n, r) == Trit::Zero,
        stochastic_trit(n, r) == Trit::Pos ==> Binary32::plus_zero().below(n),
        stochastic_trit(n, r) == Trit::Neg ==> n.below(Binary32::plus_zero()),
        stochastic_trit(n.negated(), r).sign() == -stochastic_trit(n, r).sign(),
{
    trit::lemma_one();
    lemma_pow2_pos(149);
    rounding::lemma_units_least();
    binary32::lemma_reassembled(n);
    binary32::lemma_reassembled(Binary32::one());
}

/// Within the unit interval a number becomes one of its two neighbours: it moves by
/// less than one.
pub proof fn law_neighbours(n: Binary32, r: Binary32)
    requires
        !n.nan(),
        -pow2(149) < n.value() < pow2(149),
        Binary32::plus_zero().at_most(r),
    ensures
        ({
            let y = stochastic_trit(n, r).number();
            n.value() - pow2(149) < y.value() < n.value() + pow2(149)
        }),
{
    trit::lemma_one();
    lemma_pow2_pos(149);
    rounding::lemma_units_least();
    binary32::lemma_reassembled(n);
    binary32::lemma_reassembled(Binary32::one());
    trit::lemma_number(stochastic_trit(n, r));
}

/// For how many of the `2^24` equally likely draws `n` moves away from zero.
pub open spec fn favourable_draws(n: Binary32) -> nat {
    (n.size() + pow2(125) - 1) as nat / pow2(125)
}

/// Stochastic rounding is unbiased: within the unit interval, exactly the draws
/// below `favourable_draws` move `n` to the end on its side, and their share of all
/// `2^24` draws is the size of `n`, rounded up to the next multiple of `2^-24`.
pub proof fn law_unbiased(n: Binary32, k: nat, r: Binary32)
    requires
        !n.nan(),
        -pow2(149) < n.value() < pow2(149),
        k < 0x100_0000,
        !r.nan(),
        r.value() == k * pow2(125),
    ensures
        takes_draw(n),
        stochastic_trit(n, r) == if k >= favourable_draws(n) {
            Trit::Zero
        } else if n.negative() {
            Trit::Neg
        } else {
            Trit::Pos
        },
        favourable_draws(n) <= 0x100_0000,
        n.size() <= favourable_draws(n) * pow2(125) < n.size() + pow2(125),
{
    let v = pow2(125);
    let m = favourable_draws(n);
    trit::lemma_one();
    lemma2_to64();
    lemma_pow2_pos(125);
    lemma_pow2_adds(24, 125);
    binary32::lemma_reassembled(n);
    binary32::lemma_reassembled(Binary32::one());
    rounding::lemma_units_least();
    binary32::lemma_size(n);
    lemma_fundamental_div_mod((n.size() + v - 1) as int, v as int);
    assert(v * m == m * v) by (nonlinear_arith);
    assert((k < m) == (k * v < n.size())) by (nonlinear_arith)
        requires
            n.size() <= m * v < n.size() + v,
            v > 0,
    ;
    assert(m <= 0x100_0000) by (nonlinear_arith)
        requires
            m * v < 0x100_0000 * v + v,
            v > 0,
    ;
}

} // verus!
