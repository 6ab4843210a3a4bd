//! Quantization of a matrix, each row with a scale of its own.
use crate::binary32;
use crate::binary32::Binary32;
use crate::exact;
use crate::metrics;
use crate::powers;
use crate::quantize;
use crate::quantize::QuantizeConfig;
use crate::rounding;
use crate::trit;
use crate::trit::Trit;
use vstd::arithmetic::div_mod::*;
use vstd::arithmetic::power2::*;
use vstd::prelude::*;

verus! {

/// The number nearest to `1e-8`, the least scale of a row.
#[verifier::allow_in_spec]
pub fn least_scale() -> Binary32
    returns
        (Binary32 { bits: 0x322B_CC77 }),
{
    Binary32 { bits: 0x322B_CC77 }
}

/// The mean size of the numbers of a row, zero where the row is empty.
pub open spec fn mean_size(row: Seq<Binary32>) -> Binary32 {
    if row.len() == 0 {
        Binary32::plus_zero()
    } else {
        metrics::sum(metrics::sizes(row)).over(Binary32::of_nat(row.len()))
    }
}

/// The scale of a row: its mean size, but at least `1e-8`.
pub open spec fn row_scale(row: Seq<Binary32>) -> Binary32 {
    mean_size(row).greater_of(least_scale())
}

/// The threshold of a row: a twentieth of its scale.
pub open spec fn row_threshold(row: Seq<Binary32>) -> Binary32 {
    quantize::one_twentieth().times(row_scale(row))
}

/// The trits of a row.
pub open spec fn row_trits(row: Seq<Binary32>) -> Seq<Trit> {
    quantize::quantized(row, row_threshold(row))
}

/// The rows of a matrix.
pub open spec fn rows(matrix: Seq<&[Binary32]>) -> Seq<Seq<Binary32>> {
    Seq::new(matrix.len(), |i: int| matrix[i]@)
}

/// The trits of all rows, one row after the other.
pub open spec fn matrix_trits(rows: Seq<Seq<Binary32>>) -> Seq<Trit>
    decreases rows.len(),
{
    if rows.len() == 0 {
        Seq::empty()
    } else {
        matrix_trits(rows.drop_last()) + row_trits(rows.last())
    }
}

/// Quantize a weight matrix per output channel (row).
///
/// Each row gets its own threshold and scale, derived from its statistics. Returns
/// the trits of all rows in order, the scales and the thresholds of the rows.
pub fn per_channel_quantize(matrix: &[&[Binary32]]) -> (r: (
    Vec<Trit>,
    Vec<Binary32>,
    Vec<Binary32>,
))
    ensures
        r.0@ == matrix_trits(rows(matrix@)),
        r.1@ == Seq::new(matrix@.len(), |i: int| row_scale(matrix@[i]@)),
        r.2@ == Seq::new(matrix@.len(), |i: int| row_threshold(matrix@[i]@)),
        forall|i: int|
            0 <= i < matrix@.len() && matrix@[i]@.len() > 0 ==> #[trigger] r.1@[i] == metrics::sum(
                Seq::new(matrix@[i]@.len(), |j: int| matrix@[i]@[j].absolute()),
            ).over(Binary32::of_nat(matrix@[i]@.len())).greater_of(least_scale()),
        forall|i: int|
            0 <= i < matrix@.len() && matrix@[i]@.len() == 0 ==> #[trigger] r.1@[i]
                == least_scale(),
        forall|i: int|
            0 <= i < matrix@.len() ==> #[trigger] r.2@[i] == quantize::one_twentieth().times(
                r.1@[i],
            ),
{
    let mut all_trits: Vec<Trit> = Vec::new();
    let mut scales: Vec<Binary32> = Vec::new();
    let mut thresholds: Vec<Binary32> = Vec::new();
    let ghost all = rows(matrix@);
    for i in 0..matrix.len()
        invariant
            all == rows(matrix@),
            all_trits@ == matrix_trits(all.take(i as int)),
            scales@ =~= Seq::new(i as nat, |j: int| row_scale(matrix@[j]@)),
            thresholds@ =~= Seq::new(i as nat, |j: int| row_threshold(matrix@[j]@)),
    {
        let row: &[Binary32] = matrix[i];
        let mean_abs = if row.len() == 0 {
            Binary32::plus_zero()
        } else {
            metrics::total_size(row).div(Binary32::from_usize(row.len()))
        };
        let scale = mean_abs.max(least_scale());
        let threshold = quantize::one_twentieth().mul(scale);
        let config = QuantizeConfig::new(threshold, scale);
        let mut trits = quantize::quantize_f32_to_ternary(row, &config);
        assert(all.take(i + 1).drop_last() =~= all.take(i as int));
        all_trits.append(&mut trits);
        scales.push(scale);
        thresholds.push(threshold);
    }
    assert(all.take(matrix@.len() as int) =~= all);
    proof {
        assert forall|i: int| 0 <= i < matrix@.len() && matrix@[i]@.len() > 0 implies
            #[trigger] scales@[i] == metrics::sum(
            Seq::new(matrix@[i]@.len(), |j: int| matrix@[i]@[j].absolute()),
        ).over(Binary32::of_nat(matrix@[i]@.len())).greater_of(least_scale()) by {
            assert(metrics::sizes(matrix@[i]@) =~= Seq::new(
                matrix@[i]@.len(),
                |j: int| matrix@[i]@[j].absolute(),
            ));
        }
        assert forall|i: int| 0 <= i < matrix@.len() && matrix@[i]@.len() == 0 implies
            #[trigger] scales@[i] == least_scale() by {
            law_row_of_zeros(matrix@[i]@);
        }
    }
    (all_trits, scales, thresholds)
}

/// The numbers that the trits of a matrix stand for, `row_len` trits to a row; what
/// is beyond the last scale is left out.
pub open spec fn matrix_dequantized(
    trits: Seq<Trit>,
    scales: Seq<Binary32>,
    row_len: nat,
) -> Seq<Binary32> {
    let len = if scales.len() * row_len < trits.len() {
        scales.len() * row_len
    } else {
        trits.len()
    };
    Seq::new(len, |i: int| trits[i].number().times(scales[i / row_len as int]))
}

/// Dequantize per channel: each row uses its own scale.
pub fn per_channel_dequantize(trits: &[Trit], scales: &[Binary32], row_len: usize) -> (r: Vec<
    Binary32,
>)
    requires
        scales@.len() * row_len <= usize::MAX,
    ensures
        r@ == matrix_dequantized(trits@, scales@, row_len as nat),
        r@.len() <= trits@.len(),
        r@.len() <= scales@.len() * row_len,
        r@.len() == trits@.len() || r@.len() == scales@.len() * row_len,
        forall|i: int|
            0 <= i < r@.len() ==> #[trigger] r@[i] == trits@[i].number().times(
                scales@[i / row_len as int],
            ),
{
    let mut result: Vec<Binary32> = Vec::new();
    assert(0 * row_len == 0) by (nonlinear_arith);
    for row_idx in 0..scales.len()
        invariant
            scales@.len() * row_len <= usize::MAX,
            result@.len() == if row_idx * row_len < trits@.len() {
                (row_idx * row_len) as nat
            } else {
                trits@.len()
            },
            forall|j: int|
                #![trigger result@[j]]
                0 <= j < result@.len() ==> result@[j] == trits@[j].number().times(
                    scales@[j / row_len as int],
                ),
    {
        let scale = scales[row_idx];
        proof {
            assert(row_idx * row_len + row_len == (row_idx + 1) * row_len && (row_idx + 1) * row_len
                <= scales@.len() * row_len) by (nonlinear_arith)
                requires
                    row_idx + 1 <= scales@.len(),
            ;
            assert(row_idx * row_len >= 0) by (nonlinear_arith);
        }
        let start: usize = row_idx * row_len;
        let end: usize = if start + row_len < trits.len() {
            start + row_len
        } else {
            trits.len()
        };
        let mut i: usize = start;
        while i < end
            invariant
                start == row_idx * row_len,
                start <= i,
                end <= start + row_len,
                end <= trits@.len(),
                i <= end || i == start,
                row_idx < scales@.len(),
                scale == scales@[row_idx as int],
                result@.len() == if i < trits@.len() { i as nat } else { trits@.len() },
                forall|j: int|
                    #![trigger result@[j]]
                    0 <= j < result@.len() ==> result@[j] == trits@[j].number().times(
                        scales@[j / row_len as int],
                    ),
            decreases end - i,
        {
            proof {
                assert(i / row_len == row_idx) by (nonlinear_arith)
                    requires
                        row_idx * row_len <= i < row_idx * row_len + row_len,
                ;
            }
            result.push(trits[i].to_f32().mul(scale));
            i = i + 1;
        }
    }
    assert(result@ =~= matrix_dequantized(trits@, scales@, row_len as nat));
    result
}

/// The least scale is the number nearest to `1e-8`.
pub proof fn law_least_scale()
    ensures
        least_scale() == Binary32::of_parts(false, rounding::nearest(pow2(149), 100_000_000)),
{
    let v = pow2(99);
    lemma2_to64();
    lemma2_to64_rest();
    lemma_pow2_adds(50, 99);
    lemma_pow2_pos(99);
    rounding::lemma_nearest_in_binade(pow2(149), 100_000_000, 99);
    rounding::lemma_round_expanded(pow2(50), 100_000_000, v);
    assert(rounding::round_half_even(0x4_0000_0000_0000, 100_000_000) == 0xAB_CC77);
}

/// A row's scale is a number, and at least `1e-8`.
pub proof fn law_row_scale(row: Seq<Binary32>)
    ensures
        least_scale().at_most(row_scale(row)),
        Binary32::plus_zero().below(row_scale(row)),
{
    rounding::lemma_units_least();
    binary32::lemma_size(least_scale());
}

/// The scale of a row is the mean of its sizes wherever that is at least `1e-8`, and
/// `1e-8` wherever it is smaller or no number, and for an empty row.
pub proof fn law_row_mean(row: Seq<Binary32>)
    ensures
        ({
            let mean = metrics::mean(Seq::new(row.len(), |i: int| row[i].absolute()));
            &&& row.len() > 0 && least_scale().at_most(mean) ==> row_scale(row) == mean
            &&& row.len() > 0 && !least_scale().at_most(mean) ==> row_scale(row) == least_scale()
            &&& row.len() == 0 ==> row_scale(row) == least_scale()
        }),
{
    let all = Seq::new(row.len(), |i: int| row[i].absolute());
    assert(metrics::sizes(row) =~= all);
    metrics::law_mean(all);
    rounding::lemma_units_least();
    binary32::lemma_size(least_scale());
    exact::law_comparison(metrics::mean(all), least_scale());
}

/// The sizes of a row have the row's exact sum of sizes.
proof fn lemma_exact_sizes(row: Seq<Binary32>)
    ensures
        exact::exact_sum(metrics::sizes(row)) == exact::exact_sizes(row),
        exact::exact_sizes(metrics::sizes(row)) == exact::exact_sizes(row),
        exact::exact_sizes(row) >= 0,
    decreases row.len(),
{
    if row.len() > 0 {
        let all = metrics::sizes(row);
        let init = row.drop_last();
        exact::lemma_exact_push(row);
        exact::lemma_exact_push(all);
        lemma_exact_sizes(init);
        assert(all.drop_last() =~= metrics::sizes(init));
        binary32::lemma_reassembled(row.last());
    }
}

/// The scale of a row against the exact mean of its sizes. For up to `2^23` numbers,
/// scale times length does not fall short of the exact sum of the sizes by more than the
/// error of summing and dividing, nor exceeds it by more, unless it is the least scale.
pub proof fn law_row_scale_error(row: Seq<Binary32>)
    requires
        0 < row.len() <= 0x80_0000,
        forall|i: int| 0 <= i < row.len() ==> !(#[trigger] row[i]).nan(),
        metrics::sum(metrics::sizes(row)).finite(),
    ensures
        ({
            let n = row.len() as int;
            let error = n * row_scale(row).value() - exact::exact_sizes(row);
            let bound = (2 * n + 2) * exact::exact_sizes(row) + 0x80_0000 * n;
            &&& row_scale(row).finite()
            &&& -bound <= 0x100_0000 * error
            &&& 0x100_0000 * error <= bound || row_scale(row) == least_scale()
        }),
{
    let n = row.len() as int;
    let all = metrics::sizes(row);
    let x = metrics::sum(all);
    let m = metrics::mean(all);
    assert(all =~= Seq::new(row.len(), |i: int| row[i].absolute()));
    law_row_mean(row);
    metrics::law_mean(all);
    exact::law_share_finite(x, row.len());
    metrics::law_mean_error(all);
    lemma_exact_sizes(row);
    if !least_scale().at_most(m) {
        let (v, w) = (m.value(), least_scale().value());
        assert(n * v <= n * w) by (nonlinear_arith)
            requires
                n > 0,
                v < w,
        ;
    }
}

/// A row whose numbers all have one size, which is at least `1e-8`, has that size as its
/// scale, if the sizes add up exactly.
pub proof fn law_row_of_one_size(row: Seq<Binary32>, c: Binary32)
    requires
        0 < row.len() <= 0x100_0000,
        forall|i: int| 0 <= i < row.len() ==> (#[trigger] row[i]).absolute() == c,
        metrics::sum(metrics::sizes(row)).finite(),
        metrics::sum(metrics::sizes(row)).value() == row.len() * c.value(),
        least_scale().at_most(c),
    ensures
        row_scale(row) == c,
{
    let all = metrics::sizes(row);
    assert(all =~= Seq::new(row.len(), |i: int| row[i].absolute()));
    assert forall|i: int| 0 <= i < all.len() implies #[trigger] all[i] == c by {
        assert(row[i].absolute() == c);
    }
    law_row_mean(row);
    metrics::law_mean_of_copies(all, c);
    metrics::law_mean_nearest(all, c);
    rounding::lemma_units_least();
    binary32::lemma_size(least_scale());
    exact::law_comparison(metrics::mean(all), c);
}

/// A row of up to `n` numbers of one size of at least `1e-8` has that size as its scale,
/// wherever `n` times the size has no more than 24 digits.
pub proof fn law_row_of_short_size(row: Seq<Binary32>, c: Binary32, m: nat, k: nat)
    requires
        0 < row.len() <= 0x100_0000,
        forall|i: int| 0 <= i < row.len() ==> (#[trigger] row[i]).absolute() == c,
        least_scale().at_most(c),
        k <= 253,
        c.size() == m * pow2(k),
        row.len() * m < 0x100_0000,
    ensures
        row_scale(row) == c,
{
    let all = metrics::sizes(row);
    assert forall|i: int| 0 <= i < all.len() implies #[trigger] all[i] == c by {
        assert(row[i].absolute() == c);
    }
    metrics::law_copies_add_up(all, c, m, k);
    law_row_of_one_size(row, c);
}

/// The threshold of a row is the rounded product of the default threshold and the scale
/// of the row: of all numbers none lies nearer to the exact product.
pub proof fn law_row_threshold_nearest(row: Seq<Binary32>, b: Binary32)
    requires
        row_scale(row).finite(),
        !b.nan(),
    ensures
        ({
            let r = row_threshold(row);
            let e = quantize::one_twentieth().value() * row_scale(row).value();
            &&& r == quantize::one_twentieth().times(row_scale(row))
            &&& b.value() < r.value() ==> pow2(149) * (b.value() + r.value()) <= 2 * e
            &&& b.value() > r.value() ==> pow2(149) * (b.value() + r.value()) >= 2 * e
        }),
{
    lemma_twentieth();
    exact::law_product(quantize::one_twentieth(), row_scale(row), b);
}

/// The trits of a matrix of one row are those of the row by itself, quantized with the
/// row's threshold; a matrix without rows has none.
pub proof fn law_one_row(row: Seq<Binary32>)
    ensures
        matrix_trits(seq![row]) == quantize::quantized(row, row_threshold(row)),
        matrix_trits(Seq::empty()) == Seq::<Trit>::empty(),
{
    assert(seq![row].drop_last() =~= Seq::<Seq<Binary32>>::empty());
    assert(matrix_trits(Seq::<Seq<Binary32>>::empty()) =~= Seq::<Trit>::empty());
    assert(matrix_trits(seq![row]) =~= quantize::quantized(row, row_threshold(row)));
}

/// The rows of a matrix, in their order: each row of trits stands behind those of the rows
/// above it and before those of the rows below it.
pub proof fn law_row_order(matrix: Seq<&[Binary32]>, k: int)
    requires
        0 <= k < matrix.len(),
    ensures
        rows(matrix).len() == matrix.len(),
        rows(matrix)[k] == matrix[k]@,
        matrix_trits(rows(matrix)) == matrix_trits(rows(matrix.take(k))) + quantize::quantized(
            matrix[k]@,
            row_threshold(matrix[k]@),
        ) + matrix_trits(rows(matrix.skip(k + 1))),
{
    let (a, b) = (rows(matrix.take(k)), rows(matrix.skip(k + 1)));
    let row = matrix[k]@;
    assert(rows(matrix) =~= a + seq![row] + b);
    law_rows_independent(a + seq![row], b);
    law_rows_independent(a, seq![row]);
    law_one_row(row);
}

/// Dequantization per channel, row by row: each number of a row is what dequantization
/// with that row's scale makes of its trit, and there is a number for each trit up to the
/// last row that has a scale.
pub proof fn law_rows_dequantized(
    trits: Seq<Trit>,
    scales: Seq<Binary32>,
    row_len: nat,
    i: int,
    j: int,
)
    requires
        0 <= i < scales.len(),
        0 <= j < row_len,
        i * row_len + j < trits.len(),
    ensures
        ({
            let restored = matrix_dequantized(trits, scales, row_len);
            let at = i * row_len + j;
            &&& 0 <= at < restored.len()
            &&& restored.len() <= trits.len()
            &&& restored.len() <= scales.len() * row_len
            &&& restored.len() == trits.len() || restored.len() == scales.len() * row_len
            &&& restored[at] == quantize::dequantized(seq![trits[at]], scales[i])[0]
        }),
{
    let at = i * row_len + j;
    let n = scales.len();
    assert(0 <= at < n * row_len) by (nonlinear_arith)
        requires
            at == i * row_len + j,
            0 <= i < n,
            0 <= j < row_len,
    ;
    lemma_fundamental_div_mod_converse(at, row_len as int, i, j);
}

/// A twentieth lies between `2^-5` and `2^-4`.
proof fn lemma_twentieth()
    ensures
        pow2(144) <= quantize::one_twentieth().size() <= pow2(145),
        quantize::one_twentieth().finite(),
{
    lemma2_to64();
    lemma_pow2_adds(23, 121);
    lemma_pow2_adds(23, 122);
    rounding::lemma_units_ordered(0x3D00_0000, 0x3D4C_CCCD);
    rounding::lemma_units_ordered(0x3D4C_CCCD, 0x3D80_0000);
    rounding::lemma_units_split(121, 0x80_0000);
    rounding::lemma_units_split(122, 0x80_0000);
}

/// A row's threshold is above zero. It is at most a sixteenth of the row's scale,
/// wherever the scale is finite, and so below the scale.
pub proof fn law_row_threshold(row: Seq<Binary32>)
    ensures
        Binary32::plus_zero().below(row_threshold(row)),
        row_scale(row).finite() ==> row_threshold(row).finite(),
        row_scale(row).finite() ==> 16 * row_threshold(row).size() <= row_scale(row).size(),
        row_scale(row).finite() ==> row_threshold(row).below(row_scale(row)),
{
    let x = row_scale(row);
    let y = row_threshold(row);
    let m = x.magnitude();
    let u = x.size();
    let c = quantize::one_twentieth().size();
    let h = pow2(145);
    law_row_scale(row);
    lemma_twentieth();
    rounding::lemma_units_least();
    binary32::lemma_size_ordered(x, least_scale());
    binary32::lemma_size(y);
    if x.finite() {
        rounding::lemma_pattern(m);
        let k = rounding::exponent(m);
        let s = rounding::significand(m);
        let sixteenth = (m - 4 * 0x80_0000) as nat;
        let w = pow2((k - 4) as nat);
        lemma2_to64();
        lemma_pow2_adds((k - 4) as nat, 4);
        lemma_pow2_adds(145, 4);
        lemma_pow2_adds(144, 5);
        lemma_pow2_pos(145);
        rounding::lemma_units_split((k - 4) as nat, s);
        assert(s * w * 16 == s * (w * 16)) by (nonlinear_arith);
        rounding::lemma_nearest_exact(sixteenth, 16);
        rounding::lemma_nearest_expanded(u, 16, h);
        assert((c * u) * (16 * h) <= (u * h) * (16 * h)) by (nonlinear_arith)
            requires
                c <= h,
        ;
        rounding::lemma_nearest_monotone(c * u, 16 * h, u * h, 16 * h);
        assert(y.magnitude() <= sixteenth);
        if y.magnitude() < sixteenth {
            rounding::lemma_units_ordered(y.magnitude(), sixteenth);
        }
        // At least one unit is left.
        let g = pow2(144);
        assert(u >= 32) by {
            lemma_pow2_pos((k - 4) as nat);
            assert(s * (w * 16) >= 0x80_0000 * 16) by (nonlinear_arith)
                requires
                    s >= 0x80_0000,
                    w >= 1,
            ;
        }
        assert(1 * (32 * g) <= (c * u) * 1) by (nonlinear_arith)
            requires
                g <= c,
                32 <= u,
        ;
        rounding::lemma_nearest_monotone(1, 1, c * u, 32 * g);
        rounding::lemma_nearest_exact(1, 1);
    }
}

/// An empty row, and a row of zeros, has the least scale, and only zero trits.
pub proof fn law_row_of_zeros(row: Seq<Binary32>)
    requires
        forall|i: int| 0 <= i < row.len() ==> (#[trigger] row[i]).zero(),
    ensures
        row_scale(row) == least_scale(),
        forall|i: int| 0 <= i < row.len() ==> row_trits(row)[i] == Trit::Zero,
{
    let t = row_threshold(row);
    rounding::lemma_units_least();
    binary32::lemma_size(least_scale());
    law_row_threshold(row);
    binary32::lemma_reassembled(t);
    assert forall|i: int| 0 <= i < row.len() implies metrics::sizes(row)[i]
        == Binary32::plus_zero() by {
        assert(row[i].zero());
    }
    metrics::lemma_sum_of_zeros(metrics::sizes(row));
    if row.len() > 0 {
        binary32::lemma_zero_over_count(row.len());
    }
    assert forall|i: int| 0 <= i < row.len() implies row_trits(row)[i] == Trit::Zero by {
        assert(row[i].zero());
        binary32::lemma_size(row[i]);
    }
}

/// A mean size is at most eight times the largest size, unless the sum overflows.
proof fn lemma_mean_bounded(row: Seq<Binary32>, b: nat)
    requires
        0 < row.len() <= usize::MAX,
        forall|i: int| 0 <= i < row.len() ==> !(#[trigger] row[i]).nan() && row[i].size() <= b,
    ensures
        !mean_size(row).nan(),
        mean_size(row).infinite() || mean_size(row).size() <= 8 * b,
        2 * (row.len() * b) < pow2(277) && 8 * b < pow2(277) ==> mean_size(row).finite(),
{
    let all = metrics::sizes(row);
    let n = row.len();
    let x = metrics::sum(all);
    let y = Binary32::of_nat(n);
    let u = pow2(149);
    assert forall|i: int| 0 <= i < all.len() implies !(#[trigger] all[i]).nan()
        && !all[i].negative() && all[i].size() <= b by {
        assert(!row[i].nan());
        binary32::lemma_reassembled(row[i]);
    }
    metrics::lemma_sum_bounded(all, b);
    binary32::lemma_count_ordered(n, n);
    binary32::lemma_count_size(n);
    binary32::lemma_over_count(x, n);
    binary32::lemma_size(x);
    binary32::lemma_size(y);
    lemma2_to64();
    lemma_pow2_adds(23, 254);
    rounding::lemma_pattern(rounding::INFINITY as nat);
    if x.finite() {
        let p = x.size() * u;
        let q = y.size();
        lemma_pow2_pos(149);
        rounding::lemma_nearest_range(p, q);
        rounding::lemma_nearest_at_most_double(p, q);
        let r = rounding::units(rounding::nearest(p, q));
        assert(r <= 8 * b) by (nonlinear_arith)
            requires
                q * r <= 2 * p,
                p == x.size() * u,
                x.size() <= 2 * (n * b),
                n * u <= 2 * q,
                n > 0,
                u > 0,
        ;
        binary32::lemma_size(mean_size(row));
    }
}

/// A row keeps something: where its scale is finite and one of its numbers is larger
/// than a sixteenth of the least scale, some trit is not zero.
pub proof fn law_row_keeps_a_trit(row: Seq<Binary32>, i: int)
    requires
        row.len() <= usize::MAX,
        row_scale(row).finite(),
        0 <= i < row.len(),
        !row[i].nan(),
        16 * row[i].size() > least_scale().size(),
    ensures
        exists|j: int| 0 <= j < row.len() && #[trigger] row_trits(row)[j] != Trit::Zero,
{
    let t = row_threshold(row);
    law_row_threshold(row);
    binary32::lemma_size(t);
    if row_scale(row) == least_scale() {
        binary32::lemma_reassembled(row[i]);
        quantize::law_threshold_rule(row[i], t);
        assert(row_trits(row)[i] != Trit::Zero);
    } else {
        let all = metrics::sizes(row);
        let g = metrics::largest(all);
        assert(!metrics::sum(all).nan());
        assert forall|j: int| 0 <= j < row.len() implies !(#[trigger] row[j]).nan() && row[j].size()
            <= g.size() by {
            binary32::lemma_reassembled(row[j]);
            if row[j].nan() {
                metrics::lemma_sum_nan(all, j);
            }
            metrics::lemma_largest_bounds(all, j);
            metrics::lemma_largest_from_zero(all);
            rounding::lemma_units_least();
        }
        lemma_mean_bounded(row, g.size());
        metrics::lemma_largest_member(all);
        rounding::lemma_units_least();
        assert(row[i].size() <= g.size());
        let j = choose|j: int| 0 <= j < all.len() && all[j] == g;
        binary32::lemma_reassembled(row[j]);
        quantize::law_threshold_rule(row[j], t);
        assert(row_trits(row)[j] != Trit::Zero);
    }
}

/// What a row becomes when it is quantized and dequantized.
pub open spec fn row_restored(row: Seq<Binary32>) -> Seq<Binary32> {
    quantize::dequantized(row_trits(row), row_scale(row))
}

/// What a row is quantized to can be dequantized and quantized again with the same
/// threshold without a change.
pub proof fn law_row_requantized(row: Seq<Binary32>)
    requires
        row_scale(row).finite(),
    ensures
        quantize::quantized(row_restored(row), row_threshold(row)) == row_trits(row),
{
    law_row_threshold(row);
    quantize::law_requantized(row_trits(row), row_threshold(row), row_scale(row));
}

/// What a row is quantized to can be dequantized and quantized again, with a scale
/// and a threshold computed afresh, without a change: wherever the fresh scale is finite.
pub proof fn law_row_requantized_afresh(row: Seq<Binary32>)
    requires
        row.len() <= usize::MAX,
        row_scale(row_restored(row)).finite(),
    ensures
        row_trits(row_restored(row)) == row_trits(row),
{
    let s = row_scale(row);
    let trits = row_trits(row);
    let back = row_restored(row);
    law_row_scale(row);
    law_row_threshold(back);
    binary32::lemma_size(s);
    rounding::lemma_units_least();
    if s.finite() {
        lemma_restored_sizes(row);
        if row.len() > 0 {
            lemma_mean_bounded(back, s.size());
        }
        assert(row_scale(back).size() <= 8 * s.size());
        quantize::law_requantized(trits, row_threshold(back), s);
    } else {
        let t = row_threshold(row);
        assert(t == s);
        binary32::lemma_reassembled(t);
        assert forall|i: int| 0 <= i < row.len() implies row_trits(back)[i] == trits[i] by {
            binary32::lemma_size(row[i]);
            assert(trits[i] == Trit::Zero);
            trit::lemma_trit_times(Trit::Zero, s);
            quantize::law_nan_becomes_zero(back[i], row_threshold(back));
        }
        assert(row_trits(back) =~= trits);
    }
}

/// No number of a restored row is larger than the row's scale.
proof fn lemma_restored_sizes(row: Seq<Binary32>)
    requires
        row_scale(row).finite(),
    ensures
        forall|i: int|
            0 <= i < row.len() ==> !(#[trigger] row_restored(row)[i]).nan() && row_restored(
                row,
            )[i].size() <= row_scale(row).size(),
{
    let s = row_scale(row);
    rounding::lemma_units_least();
    binary32::lemma_reassembled(s);
    assert forall|i: int| 0 <= i < row.len() implies !(#[trigger] row_restored(row)[i]).nan()
        && row_restored(row)[i].size() <= s.size() by {
        trit::lemma_trit_times(row_trits(row)[i], s);
    }
}

/// Up to `2^20` numbers of up to `2^100`, more than a million of more than `1e30`, do
/// not overflow the scale of a row, nor that of the restored row.
pub proof fn law_bounded_row(row: Seq<Binary32>)
    requires
        row.len() <= 0x10_0000,
        forall|i: int|
            0 <= i < row.len() ==> !(#[trigger] row[i]).nan() && row[i].size() <= pow2(249),
    ensures
        row_scale(row).finite(),
        row_scale(row_restored(row)).finite(),
{
    let n = row.len();
    let b = pow2(249);
    let c = pow2(252);
    lemma2_to64();
    lemma_pow2_adds(249, 3);
    lemma_pow2_adds(252, 25);
    lemma_pow2_pos(249);
    assert(n * b <= 0x10_0000 * b && n * c <= 0x10_0000 * c) by (nonlinear_arith)
        requires
            n <= 0x10_0000,
    ;
    assert(least_scale().size() <= c) by {
        trit::lemma_one();
        rounding::lemma_units_ordered(0x322B_CC77, 0x3F80_0000);
        powers::lemma_pow2_le(149, 252);
    }
    if n > 0 {
        lemma_mean_bounded(row, b);
        assert(row_scale(row).size() <= c);
        lemma_restored_sizes(row);
        lemma_mean_bounded(row_restored(row), c);
    }
}

/// Rows do not influence each other: the trits of two matrices, one below the
/// other, are the trits of the first and then those of the second.
pub proof fn law_rows_independent(a: Seq<Seq<Binary32>>, b: Seq<Seq<Binary32>>)
    ensures
        matrix_trits(a + b) == matrix_trits(a) + matrix_trits(b),
    decreases b.len(),
{
    if b.len() == 0 {
        assert(a + b =~= a);
        assert(matrix_trits(a) + matrix_trits(b) =~= matrix_trits(a));
    } else {
        let init = b.drop_last();
        law_rows_independent(a, init);
        assert((a + b).drop_last() =~= a + init);
        assert(matrix_trits(a) + matrix_trits(init) + row_trits(b.last()) =~= matrix_trits(a) + (
        matrix_trits(init) + row_trits(b.last())));
    }
}

/// How many numbers the rows hold together.
pub open spec fn matrix_len(rows: Seq<Seq<Binary32>>) -> nat
    decreases rows.len(),
{
    if rows.len() == 0 {
        0
    } else {
        matrix_len(rows.drop_last()) + rows.last().len()
    }
}

/// There is one trit for each number of the matrix.
pub proof fn law_matrix_len(rows: Seq<Seq<Binary32>>)
    ensures
        matrix_trits(rows).len() == matrix_len(rows),
    decreases rows.len(),
{
    if rows.len() > 0 {
        law_matrix_len(rows.drop_last());
    }
}

/// In a matrix whose rows are equally long, the trits stand row by row.
pub proof fn law_row_major(rows: Seq<Seq<Binary32>>, row_len: nat)
    requires
        forall|i: int| 0 <= i < rows.len() ==> (#[trigger] rows[i]).len() == row_len,
    ensures
        matrix_trits(rows).len() == rows.len() * row_len,
        forall|i: int, j: int|
            #![trigger matrix_trits(rows)[i * row_len + j]]
            0 <= i < rows.len() && 0 <= j < row_len ==> matrix_trits(rows)[i * row_len + j]
                == row_trits(rows[i])[j],
    decreases rows.len(),
{
    if rows.len() == 0 {
        assert(0 * row_len == 0);
    } else {
        let init = rows.drop_last();
        let n = init.len();
        assert forall|i: int| 0 <= i < init.len() implies (#[trigger] init[i]).len() == row_len by {
            assert(init[i] == rows[i]);
        }
        law_row_major(init, row_len);
        assert(rows[n as int].len() == row_len);
        assert((n + 1) * row_len == n * row_len + row_len) by (nonlinear_arith);
        assert forall|i: int, j: int|
            #![trigger matrix_trits(rows)[i * row_len + j]]
            0 <= i < rows.len() && 0 <= j < row_len implies matrix_trits(rows)[i * row_len + j]
            == row_trits(rows[i])[j] by {
            if i < n {
                assert(i * row_len + row_len <= n * row_len && i * row_len >= 0)
                    by (nonlinear_arith)
                    requires
                        0 <= i < n,
                ;
                assert(matrix_trits(init)[i * row_len + j] == row_trits(init[i])[j]);
            }
        }
    }
}

/// Dequantization per channel undoes the layout of quantization per channel: in a
/// matrix whose rows are equally long, every number comes back as its row's own
/// scale times its trit.
pub proof fn law_channels_restored(rows: Seq<Seq<Binary32>>, row_len: nat, i: int, j: int)
    requires
        forall|i: int| 0 <= i < rows.len() ==> (#[trigger] rows[i]).len() == row_len,
        0 <= i < rows.len(),
        0 <= j < row_len,
    ensures
        ({
            let scales = Seq::new(rows.len(), |i: int| row_scale(rows[i]));
            let restored = matrix_dequantized(matrix_trits(rows), scales, row_len);
            &&& restored.len() == rows.len() * row_len
            &&& restored[i * row_len + j] == quantize::dequantized(
                row_trits(rows[i]),
                row_scale(rows[i]),
            )[j]
        }),
{
    let n = rows.len();
    law_row_major(rows, row_len);
    let at = i * row_len + j;
    assert(0 <= at < n * row_len) by (nonlinear_arith)
        requires
            at == i * row_len + j,
            0 <= i < n,
            0 <= j < row_len,
    ;
    assert(matrix_trits(rows)[i * row_len + j] == row_trits(rows[i])[j]);
    lemma_fundamental_div_mod_converse(at, row_len as int, i, j);
}

/// A sequence of numbers cut into rows.
pub open spec fn cut(values: Seq<Binary32>, row_count: nat, row_len: nat) -> Seq<Seq<Binary32>> {
    Seq::new(
        row_count,
        |i: int| values.subrange(i * row_len as int, i * row_len as int + row_len as int),
    )
}

/// Matrices whose rows have the same trits have the same trits.
proof fn lemma_same_row_trits(a: Seq<Seq<Binary32>>, b: Seq<Seq<Binary32>>)
    requires
        a.len() == b.len(),
        forall|i: int| 0 <= i < a.len() ==> row_trits(#[trigger] a[i]) == row_trits(b[i]),
    ensures
        matrix_trits(a) == matrix_trits(b),
    decreases a.len(),
{
    if a.len() > 0 {
        let x = a.drop_last();
        let y = b.drop_last();
        assert forall|i: int| 0 <= i < x.len() implies row_trits(#[trigger] x[i]) == row_trits(
            y[i],
        ) by {
            assert(x[i] == a[i]);
        }
        lemma_same_row_trits(x, y);
        assert(row_trits(a[a.len() - 1]) == row_trits(b[a.len() - 1]));
    }
}

/// Quantizing a matrix, dequantizing it and quantizing it again, with scales computed
/// afresh, gives the same trits, wherever the rows are equally long and the fresh
/// scales are finite.
pub proof fn law_matrix_requantized(rows: Seq<Seq<Binary32>>, row_len: nat)
    requires
        row_len <= usize::MAX,
        forall|i: int|
            0 <= i < rows.len() ==> (#[trigger] rows[i]).len() == row_len && row_scale(
                row_restored(rows[i]),
            ).finite(),
    ensures
        ({
            let scales = Seq::new(rows.len(), |i: int| row_scale(rows[i]));
            let restored = matrix_dequantized(matrix_trits(rows), scales, row_len);
            matrix_trits(cut(restored, rows.len(), row_len)) == matrix_trits(rows)
        }),
{
    let scales = Seq::new(rows.len(), |i: int| row_scale(rows[i]));
    let restored = matrix_dequantized(matrix_trits(rows), scales, row_len);
    let again = cut(restored, rows.len(), row_len);
    law_row_major(rows, row_len);
    assert forall|i: int| 0 <= i < again.len() implies row_trits(#[trigger] again[i]) == row_trits(
        rows[i],
    ) by {
        assert(0 <= i * row_len && i * row_len + row_len <= rows.len() * row_len)
            by (nonlinear_arith)
            requires
                0 <= i < rows.len(),
        ;
        let back = row_restored(rows[i]);
        assert forall|j: int| 0 <= j < row_len implies again[i][j] == back[j] by {
            law_channels_restored(rows, row_len, i, j);
        }
        assert(again[i] =~= back);
        law_row_requantized_afresh(rows[i]);
    }
    lemma_same_row_trits(again, rows);
}

/// Quantizing a matrix, dequantizing it and quantizing it again gives the same trits
/// for every matrix with up to `2^20` numbers to a row, none larger than `2^100`: there
/// no scale overflows.
pub proof fn law_bounded_matrix_requantized(rows: Seq<Seq<Binary32>>, row_len: nat)
    requires
        row_len <= 0x10_0000,
        forall|i: int| 0 <= i < rows.len() ==> (#[trigger] rows[i]).len() == row_len,
        forall|i: int, j: int|
            0 <= i < rows.len() && 0 <= j < row_len ==> !(#[trigger] rows[i][j]).nan()
                && rows[i][j].size() <= pow2(249),
    ensures
        ({
            let scales = Seq::new(rows.len(), |i: int| row_scale(rows[i]));
            let restored = matrix_dequantized(matrix_trits(rows), scales, row_len);
            matrix_trits(cut(restored, rows.len(), row_len)) == matrix_trits(rows)
        }),
{
    assert forall|i: int| 0 <= i < rows.len() implies (#[trigger] rows[i]).len() == row_len
        && row_scale(row_restored(rows[i])).finite() by {
        assert forall|j: int| 0 <= j < rows[i].len() implies !(#[trigger] rows[i][j]).nan()
            && rows[i][j].size() <= pow2(249) by {}
        law_bounded_row(rows[i]);
    }
    law_matrix_requantized(rows, row_len);
}

} // verus!
