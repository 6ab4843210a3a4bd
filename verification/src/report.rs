//! The quantization report.
use crate::binary32;
use crate::binary32::Binary32;
use crate::decimal;
use crate::exact;
use crate::metrics;
use crate::quantize;
use crate::rounding;
use crate::trit;
use crate::trit::Trit;
use vstd::arithmetic::power2::*;
use vstd::prelude::*;
use vstd::string::*;

verus! {

/// Comprehensive quantization report.
#[derive(Debug)]
pub struct QuantizationReport {
    /// Mean squared error.
    pub mse: Binary32,
    /// Maximum absolute error.
    pub max_err: Binary32,
    /// Mean of the original minus mean of the dequantized numbers.
    pub distribution_shift: Binary32,
    /// How many trits are negative, zero and positive.
    pub trit_counts: (usize, usize, usize),
    /// Fraction of zeros.
    pub sparsity: Binary32,
}

impl Clone for QuantizationReport {
    fn clone(&self) -> (r: Self)
        ensures
            r == *self,
    {
        QuantizationReport {
            mse: self.mse,
            max_err: self.max_err,
            distribution_shift: self.distribution_shift,
            trit_counts: self.trit_counts,
            sparsity: self.sparsity,
        }
    }
}

/// The fraction of a sequence that is zero, rounded.
pub open spec fn zero_fraction(trits: Seq<Trit>) -> Binary32 {
    Binary32::of_nat(metrics::occurrences(trits, Trit::Zero)).over(
        Binary32::of_nat(
            if trits.len() == 0 {
                1
            } else {
                trits.len()
            },
        ),
    )
}

/// Generate a full quantization report.
pub fn quantization_report(original: &[Binary32], trits: &[Trit], scale: Binary32) -> (r:
    QuantizationReport)
    requires
        original@.len() == trits@.len(),
    ensures
        r.mse == metrics::mse(original@, quantize::dequantized(trits@, scale)),
        r.max_err == metrics::largest(
            metrics::absolute_errors(original@, quantize::dequantized(trits@, scale)),
        ),
        r.distribution_shift == metrics::mean(original@).minus(
            metrics::mean(quantize::dequantized(trits@, scale)),
        ),
        r.trit_counts.0 == metrics::occurrences(trits@, Trit::Neg),
        r.trit_counts.1 == metrics::occurrences(trits@, Trit::Zero),
        r.trit_counts.2 == metrics::occurrences(trits@, Trit::Pos),
        r.trit_counts.0 + r.trit_counts.1 + r.trit_counts.2 == trits@.len(),
        r.sparsity == zero_fraction(trits@),
        trits@.len() > 0 ==> r.sparsity == Binary32::of_nat(r.trit_counts.1 as nat).over(
            Binary32::of_nat(trits@.len()),
        ),
        trits@.len() == 0 ==> r.sparsity.bits == 0,
{
    let deq = quantize::dequantize_ternary_to_f32(trits, scale);
    let counts = metrics::trit_distribution(trits);
    let total = Binary32::from_usize(metrics::at_least_one(trits.len()));
    proof {
        law_sparsity(trits@);
    }
    QuantizationReport {
        mse: metrics::mean_squared_error(original, deq.as_slice()),
        max_err: metrics::max_error(original, deq.as_slice()),
        distribution_shift: metrics::distribution_shift(original, deq.as_slice()),
        trit_counts: counts,
        sparsity: Binary32::from_usize(counts.1).div(total),
    }
}

/// The report as one line of text: errors and shift to six places, the sparsity in
/// percent to two.
pub open spec fn report_text(r: QuantizationReport) -> Seq<char> {
    "QuantizationReport { mse: "@ + decimal::fixed_text(r.mse, 6) + ", max_err: "@
        + decimal::fixed_text(r.max_err, 6) + ", shift: "@ + decimal::fixed_text(
        r.distribution_shift,
        6,
    ) + ", sparsity: "@ + decimal::fixed_text(r.sparsity.times(Binary32::of_nat(100)), 2)
        + "%, counts: neg="@ + decimal::natural_text(r.trit_counts.0 as nat) + " zero="@
        + decimal::natural_text(r.trit_counts.1 as nat) + " pos="@ + decimal::natural_text(
        r.trit_counts.2 as nat,
    ) + " }"@
}

impl QuantizationReport {
    /// The report as one line of text.
    pub fn to_string(&self) -> (r: String)
        ensures
            r@ == report_text(*self),
            r@ == "QuantizationReport { mse: "@ + decimal::fixed_text(self.mse, 6) + ", max_err: "@
                + decimal::fixed_text(self.max_err, 6) + ", shift: "@ + decimal::fixed_text(
                self.distribution_shift,
                6,
            ) + ", sparsity: "@ + decimal::fixed_text(
                self.sparsity.times(Binary32::of_nat(100)),
                2,
            ) + "%, counts: neg="@ + decimal::natural_text(self.trit_counts.0 as nat) + " zero="@
                + decimal::natural_text(self.trit_counts.1 as nat) + " pos="@
                + decimal::natural_text(self.trit_counts.2 as nat) + " }"@,
    {
        let mut out = String::from_str("QuantizationReport { mse: ");
        decimal::append_fixed(&mut out, self.mse, 6);
        out.append(", max_err: ");
        decimal::append_fixed(&mut out, self.max_err, 6);
        out.append(", shift: ");
        decimal::append_fixed(&mut out, self.distribution_shift, 6);
        out.append(", sparsity: ");
        decimal::append_fixed(&mut out, self.sparsity.mul(Binary32::from_usize(100)), 2);
        out.append("%, counts: neg=");
        decimal::append_natural(&mut out, self.trit_counts.0 as u128);
        out.append(" zero=");
        decimal::append_natural(&mut out, self.trit_counts.1 as u128);
        out.append(" pos=");
        decimal::append_natural(&mut out, self.trit_counts.2 as u128);
        out.append(" }");
        out
    }
}

/// Fractions with the same denominator are ordered as their numerators.
proof fn lemma_fraction_ordered(c: nat, d: nat, n: nat)
    requires
        c <= d <= usize::MAX,
        0 < n <= usize::MAX,
    ensures
        Binary32::of_nat(c).over(Binary32::of_nat(n)).at_most(
            Binary32::of_nat(d).over(Binary32::of_nat(n)),
        ),
        Binary32::plus_zero().at_most(Binary32::of_nat(c).over(Binary32::of_nat(n))),
{
    let (x, y, z) = (Binary32::of_nat(c), Binary32::of_nat(d), Binary32::of_nat(n));
    let u = pow2(149);
    binary32::lemma_count_ordered(c, d);
    binary32::lemma_count_ordered(n, n);
    binary32::lemma_over_count(x, n);
    binary32::lemma_size(z);
    rounding::lemma_units_least();
    assert(x.size() * u <= y.size() * u) by (nonlinear_arith)
        requires
            x.size() <= y.size(),
    ;
    assert((x.size() * u) * z.size() <= (y.size() * u) * z.size()) by (nonlinear_arith)
        requires
            x.size() * u <= y.size() * u,
    ;
    rounding::lemma_nearest_monotone(x.size() * u, z.size(), y.size() * u, z.size());
    rounding::lemma_nearest_range(x.size() * u, z.size());
    rounding::lemma_nearest_range(y.size() * u, z.size());
    binary32::lemma_size_ordered(x.over(z), y.over(z));
    binary32::lemma_size_ordered(y.over(z), x.over(z));
}

/// A count over itself is one.
proof fn lemma_whole_fraction(n: nat)
    requires
        0 < n <= usize::MAX,
    ensures
        Binary32::of_nat(n).over(Binary32::of_nat(n)) == Binary32::one(),
{
    let z = Binary32::of_nat(n);
    let u = pow2(149);
    binary32::lemma_count_ordered(n, n);
    binary32::lemma_over_count(z, n);
    binary32::lemma_size(z);
    trit::lemma_one();
    rounding::lemma_nearest_expanded(u, 1, z.size());
    assert(1 * z.size() == z.size());
    assert(u * z.size() == z.size() * u) by (nonlinear_arith);
    rounding::lemma_nearest_exact(Binary32::one().magnitude(), 1);
}

/// The sparsity lies between zero and one: zero where no trit is zero, one where
/// every trit is.
pub proof fn law_sparsity(trits: Seq<Trit>)
    requires
        trits.len() <= usize::MAX,
    ensures
        Binary32::plus_zero().at_most(zero_fraction(trits)),
        zero_fraction(trits).at_most(Binary32::one()),
        metrics::occurrences(trits, Trit::Zero) == 0 ==> zero_fraction(trits)
            == Binary32::plus_zero(),
        trits.len() > 0 && metrics::occurrences(trits, Trit::Zero) == trits.len() ==> zero_fraction(
            trits,
        ) == Binary32::one(),
{
    let c = metrics::occurrences(trits, Trit::Zero);
    let n = if trits.len() == 0 {
        1
    } else {
        trits.len()
    };
    metrics::lemma_occurrences_total(trits);
    lemma_fraction_ordered(c, n, n);
    lemma_whole_fraction(n);
    if c == 0 {
        assert(0 * pow2(149) == 0);
        binary32::lemma_nearest_zero(1);
        binary32::lemma_zero_over_count(n);
    }
}

/// The sparsity of up to `2^24` trits is the share of zeros, correctly rounded: of all
/// numbers none lies nearer to the number of zeros over the number of trits.
pub proof fn law_sparsity_nearest(trits: Seq<Trit>, b: Binary32)
    requires
        0 < trits.len() <= 0x100_0000,
        !b.nan(),
    ensures
        ({
            let n = trits.len() as int;
            let r = zero_fraction(trits);
            let e = metrics::occurrences(trits, Trit::Zero) * pow2(149);
            &&& !r.nan()
            &&& !r.negative()
            &&& b.value() < r.value() ==> n * (b.value() + r.value()) <= 2 * e
            &&& b.value() > r.value() ==> n * (b.value() + r.value()) >= 2 * e
            &&& b.value() != r.value() && n * (b.value() + r.value()) == 2 * e ==> r.bits % 2 == 0
        }),
{
    let n = trits.len() as int;
    let c = metrics::occurrences(trits, Trit::Zero);
    let u = pow2(149) as int;
    metrics::lemma_occurrences_total(trits);
    exact::lemma_small_count(c);
    exact::lemma_small_count(trits.len());
    let (x, y) = (Binary32::of_nat(c), Binary32::of_nat(trits.len()));
    exact::law_quotient(x, y, b);
    lemma_pow2_pos(149);
    let d = b.value() + zero_fraction(trits).value();
    let e = c * u;
    let k = n * d;
    assert((n * u) * d == k * u && 2 * (e * u) == (2 * e) * u) by (nonlinear_arith)
        requires
            k == n * d,
    ;
    assert(k * u <= (2 * e) * u ==> k <= 2 * e) by (nonlinear_arith)
        requires
            u > 0,
    ;
    assert(k * u >= (2 * e) * u ==> k >= 2 * e) by (nonlinear_arith)
        requires
            u > 0,
    ;
}

/// A greater threshold never lowers the sparsity.
pub proof fn law_threshold_controls_sparsity(values: Seq<Binary32>, t1: Binary32, t2: Binary32)
    requires
        values.len() <= usize::MAX,
        t1.at_most(t2),
    ensures
        zero_fraction(quantize::quantized(values, t1)).at_most(
            zero_fraction(quantize::quantized(values, t2)),
        ),
{
    let a = quantize::quantized(values, t1);
    let b = quantize::quantized(values, t2);
    quantize::law_greater_threshold(values, t1, t2);
    metrics::lemma_zeros_ordered(a, b);
    metrics::lemma_occurrences_total(b);
    lemma_fraction_ordered(
        metrics::occurrences(a, Trit::Zero),
        metrics::occurrences(b, Trit::Zero),
        if values.len() == 0 {
            1
        } else {
            values.len()
        },
    );
}

/// The maximum error of quantization and dequantization: where no number is larger
/// than the scale, it is at most the threshold, or at most the distance between
/// threshold and scale, whichever is greater.
pub proof fn law_round_trip_max_error(
    values: Seq<Binary32>,
    threshold: Binary32,
    scale: Binary32,
)
    requires
        scale.finite(),
        Binary32::plus_zero().at_most(threshold),
        threshold.at_most(scale),
        forall|i: int| 0 <= i < values.len() ==> (#[trigger] values[i]).absolute().at_most(scale),
    ensures
        metrics::largest(
            metrics::absolute_errors(
                values,
                quantize::dequantized(quantize::quantized(values, threshold), scale),
            ),
        ).at_most(threshold.greater_of(scale.minus(threshold))),
{
    let restored = quantize::dequantized(quantize::quantized(values, threshold), scale);
    let errors = metrics::absolute_errors(values, restored);
    metrics::lemma_largest_member(errors);
    if errors.contains(metrics::largest(errors)) {
        let i = choose|i: int| 0 <= i < errors.len() && errors[i] == metrics::largest(errors);
        assert(values[i].absolute().at_most(scale));
        quantize::law_round_trip_bound(values[i], threshold, scale);
    } else {
        binary32::lemma_reassembled(scale);
        binary32::lemma_size_ordered(threshold, scale);
        binary32::lemma_size_ordered(scale, threshold);
        rounding::lemma_units_least();
        binary32::lemma_minus_size(scale, threshold);
    }
}

} // verus!
