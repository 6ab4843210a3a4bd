//! Error metrics.
use crate::binary32;
use crate::binary32::Binary32;
use crate::exact;
use crate::rounding;
use crate::trit::Trit;
use vstd::arithmetic::power2::*;
use vstd::prelude::*;
use vstd::seq_lib::*;

verus! {

/// The running sum of a sequence, each step rounded.
pub open spec fn sum(s: Seq<Binary32>) -> Binary32
    decreases s.len(),
{
    if s.len() == 0 {
        Binary32::minus_zero()
    } else {
        sum(s.drop_last()).plus(s.last())
    }
}

/// The greatest member of a sequence, or zero where none is greater. NaN is passed over.
pub open spec fn largest(s: Seq<Binary32>) -> Binary32
    decreases s.len(),
{
    if s.len() == 0 {
        Binary32::plus_zero()
    } else {
        largest(s.drop_last()).greater_of(s.last())
    }
}

/// The greatest member is a number and not below zero.
pub proof fn lemma_largest_from_zero(s: Seq<Binary32>)
    ensures
        Binary32::plus_zero().at_most(largest(s)),
    decreases s.len(),
{
    if s.len() > 0 {
        lemma_largest_from_zero(s.drop_last());
    }
}

/// The squares of the differences of two sequences.
pub open spec fn squared_errors(a: Seq<Binary32>, b: Seq<Binary32>) -> Seq<Binary32> {
    Seq::new(a.len(), |i: int| a[i].minus(b[i]).times(a[i].minus(b[i])))
}

/// The sizes of the differences of two sequences.
pub open spec fn absolute_errors(a: Seq<Binary32>, b: Seq<Binary32>) -> Seq<Binary32> {
    Seq::new(a.len(), |i: int| a[i].minus(b[i]).absolute())
}

/// The sizes of the members of a sequence.
pub open spec fn sizes(s: Seq<Binary32>) -> Seq<Binary32> {
    Seq::new(s.len(), |i: int| s[i].absolute())
}

/// The mean squared error of two sequences, zero where they are empty.
pub open spec fn mse(a: Seq<Binary32>, b: Seq<Binary32>) -> Binary32 {
    if a.len() == 0 {
        Binary32::plus_zero()
    } else {
        sum(squared_errors(a, b)).over(Binary32::of_nat(a.len()))
    }
}

/// The mean of a sequence; that of an empty one is its sum.
pub open spec fn mean(s: Seq<Binary32>) -> Binary32 {
    sum(s).over(
        Binary32::of_nat(
            if s.len() == 0 {
                1
            } else {
                s.len()
            },
        ),
    )
}

/// The sum of the numbers, added up in order.
fn total(values: &[Binary32]) -> (r: Binary32)
    ensures
        r == sum(values@),
{
    let mut acc = Binary32::minus_zero();
    for i in 0..values.len()
        invariant
            acc == sum(values@.take(i as int)),
    {
        assert(values@.take(i + 1).drop_last() =~= values@.take(i as int));
        acc = acc.add(values[i]);
    }
    assert(values@.take(values@.len() as int) =~= values@);
    acc
}

/// The sum of the sizes of the numbers, added up in order.
pub(crate) fn total_size(values: &[Binary32]) -> (r: Binary32)
    ensures
        r == sum(sizes(values@)),
{
    let mut acc = Binary32::minus_zero();
    for i in 0..values.len()
        invariant
            acc == sum(sizes(values@).take(i as int)),
    {
        assert(sizes(values@).take(i + 1).drop_last() =~= sizes(values@).take(i as int));
        acc = acc.add(values[i].abs());
    }
    assert(sizes(values@).take(values@.len() as int) =~= sizes(values@));
    acc
}

/// The size of the largest number, NaN passed over.
pub(crate) fn largest_size(values: &[Binary32]) -> (r: Binary32)
    ensures
        r == largest(sizes(values@)),
{
    let mut acc = Binary32::plus_zero();
    for i in 0..values.len()
        invariant
            acc == largest(sizes(values@).take(i as int)),
    {
        assert(sizes(values@).take(i + 1).drop_last() =~= sizes(values@).take(i as int));
        acc = acc.max(values[i].abs());
    }
    assert(sizes(values@).take(values@.len() as int) =~= sizes(values@));
    acc
}

/// Mean squared error between two slices.
pub fn mean_squared_error(a: &[Binary32], b: &[Binary32]) -> (r: Binary32)
    requires
        a@.len() == b@.len(),
    ensures
        r == mse(a@, b@),
        a@.len() == 0 ==> r.bits == 0,
        a@.len() > 0 ==> r == sum(
            Seq::new(a@.len(), |i: int| a@[i].minus(b@[i]).times(a@[i].minus(b@[i]))),
        ).over(Binary32::of_nat(a@.len())),
{
    if a.len() == 0 {
        return Binary32::plus_zero();
    }
    let ghost squares = squared_errors(a@, b@);
    let mut acc = Binary32::minus_zero();
    for i in 0..a.len()
        invariant
            a@.len() == b@.len(),
            squares == squared_errors(a@, b@),
            acc == sum(squares.take(i as int)),
    {
        assert(squares.take(i + 1).drop_last() =~= squares.take(i as int));
        let d = a[i].sub(b[i]);
        acc = acc.add(d.mul(d));
    }
    assert(squares.take(a@.len() as int) =~= squares);
    acc.div(Binary32::from_usize(a.len()))
}

/// Maximum absolute error between two slices.
pub fn max_error(a: &[Binary32], b: &[Binary32]) -> (r: Binary32)
    requires
        a@.len() == b@.len(),
    ensures
        r == largest(absolute_errors(a@, b@)),
        Binary32::plus_zero().at_most(r),
        forall|i: int|
            0 <= i < a@.len() && !(#[trigger] a@[i]).minus(b@[i]).nan() ==> a@[i].minus(
                b@[i],
            ).absolute().at_most(r),
        r.bits == 0 || exists|i: int|
            0 <= i < a@.len() && r == (#[trigger] a@[i]).minus(b@[i]).absolute(),
{
    let ghost errors = absolute_errors(a@, b@);
    let mut acc = Binary32::plus_zero();
    for i in 0..a.len()
        invariant
            a@.len() == b@.len(),
            errors == absolute_errors(a@, b@),
            acc == largest(errors.take(i as int)),
    {
        assert(errors.take(i + 1).drop_last() =~= errors.take(i as int));
        acc = acc.max(a[i].sub(b[i]).abs());
    }
    assert(errors.take(a@.len() as int) =~= errors);
    proof {
        law_max_error(a@, b@);
    }
    acc
}

/// `n`, but at least one.
pub(crate) fn at_least_one(n: usize) -> (r: usize)
    ensures
        r == if n == 0 {
            1
        } else {
            n
        },
{
    if n == 0 {
        1
    } else {
        n
    }
}

/// The distribution shift: mean of the original minus mean of the quantized.
///
/// A positive value means that quantization shifted the mean downward.
pub fn distribution_shift(original: &[Binary32], quantized: &[Binary32]) -> (r: Binary32)
    ensures
        r == mean(original@).minus(mean(quantized@)),
        original@.len() > 0 && quantized@.len() > 0 ==> r == sum(original@).over(
            Binary32::of_nat(original@.len()),
        ).minus(sum(quantized@).over(Binary32::of_nat(quantized@.len()))),
{
    let mean_orig = total(original).div(Binary32::from_usize(at_least_one(original.len())));
    let mean_quant = total(quantized).div(Binary32::from_usize(at_least_one(quantized.len())));
    mean_orig.sub(mean_quant)
}

/// How many members of a sequence are the trit `t`.
pub open spec fn occurrences(s: Seq<Trit>, t: Trit) -> nat {
    s.to_multiset().count(t)
}

/// Appending a trit adds to the count of that trit alone.
proof fn lemma_occurrences_push(s: Seq<Trit>, x: Trit, t: Trit)
    ensures
        occurrences(s.push(x), t) == occurrences(s, t) + if x == t {
            1int
        } else {
            0int
        },
{
    broadcast use group_to_multiset_ensures;
    broadcast use vstd::multiset::group_multiset_axioms;

}

/// Every member of a sequence is counted once.
pub proof fn lemma_occurrences_total(s: Seq<Trit>)
    ensures
        occurrences(s, Trit::Neg) + occurrences(s, Trit::Zero) + occurrences(s, Trit::Pos)
            == s.len(),
    decreases s.len(),
{
    if s.len() == 0 {
        broadcast use group_to_multiset_ensures;
        broadcast use vstd::multiset::group_multiset_axioms;

    } else {
        let init = s.drop_last();
        lemma_occurrences_total(init);
        assert(init.push(s.last()) =~= s);
        lemma_occurrences_push(init, s.last(), Trit::Neg);
        lemma_occurrences_push(init, s.last(), Trit::Zero);
        lemma_occurrences_push(init, s.last(), Trit::Pos);
    }
}

/// Ternary distribution: how many trits are negative, zero and positive.
pub fn trit_distribution(trits: &[Trit]) -> (r: (usize, usize, usize))
    ensures
        r.0 == occurrences(trits@, Trit::Neg),
        r.1 == occurrences(trits@, Trit::Zero),
        r.2 == occurrences(trits@, Trit::Pos),
        r.0 + r.1 + r.2 == trits@.len(),
{
    let mut neg: usize = 0;
    let mut zero: usize = 0;
    let mut pos: usize = 0;
    proof {
        lemma_occurrences_total(trits@.take(0));
    }
    for i in 0..trits.len()
        invariant
            neg == occurrences(trits@.take(i as int), Trit::Neg),
            zero == occurrences(trits@.take(i as int), Trit::Zero),
            pos == occurrences(trits@.take(i as int), Trit::Pos),
            neg + zero + pos == i,
    {
        proof {
            let before = trits@.take(i as int);
            let x = trits@[i as int];
            assert(trits@.take(i + 1) =~= before.push(x));
            lemma_occurrences_push(before, x, Trit::Neg);
            lemma_occurrences_push(before, x, Trit::Zero);
            lemma_occurrences_push(before, x, Trit::Pos);
        }
        match trits[i] {
            Trit::Neg => neg = neg + 1,
            Trit::Zero => zero = zero + 1,
            Trit::Pos => pos = pos + 1,
        }
    }
    assert(trits@.take(trits@.len() as int) =~= trits@);
    (neg, zero, pos)
}

/// The greatest member is not below any member that is a number.
pub proof fn lemma_largest_bounds(s: Seq<Binary32>, i: int)
    requires
        0 <= i < s.len(),
        !s[i].nan(),
    ensures
        s[i].at_most(largest(s)),
    decreases s.len(),
{
    lemma_largest_from_zero(s.drop_last());
    if i < s.len() - 1 {
        lemma_largest_bounds(s.drop_last(), i);
    }
}

/// The greatest member is a member, or `+0`.
pub proof fn lemma_largest_member(s: Seq<Binary32>)
    ensures
        largest(s) == Binary32::plus_zero() || s.contains(largest(s)),
    decreases s.len(),
{
    if s.len() > 0 {
        let init = s.drop_last();
        lemma_largest_from_zero(init);
        lemma_largest_member(init);
        if init.contains(largest(init)) {
            let i = choose|i: int| 0 <= i < init.len() && init[i] == largest(init);
            assert(s[i] == largest(init));
        }
        assert(s[s.len() - 1] == s.last());
    }
}

/// A sum of zeros is zero, and `+0` where there is a summand.
pub proof fn lemma_sum_of_zeros(s: Seq<Binary32>)
    requires
        forall|i: int| 0 <= i < s.len() ==> s[i] == Binary32::plus_zero(),
    ensures
        s.len() == 0 || sum(s) == Binary32::plus_zero(),
    decreases s.len(),
{
    rounding::lemma_units_least();
    if s.len() > 0 {
        let init = s.drop_last();
        lemma_sum_of_zeros(init);
        assert(s.last() == s[s.len() - 1]);
        assert(sum(init).zero());
        assert(sum(init).size() == 0);
    }
}

/// A sum of numbers without sign has no sign, unless it is NaN.
pub proof fn lemma_sum_unsigned(s: Seq<Binary32>)
    requires
        forall|i: int| 0 <= i < s.len() ==> (#[trigger] s[i]).nan() || !s[i].negative(),
    ensures
        s.len() == 0 || sum(s).nan() || !sum(s).negative(),
    decreases s.len(),
{
    if s.len() > 0 {
        let init = s.drop_last();
        lemma_sum_unsigned(init);
        binary32::lemma_plus_unsigned(sum(init), s.last());
    }
}

/// The mean squared error of finite numbers against themselves is zero.
pub proof fn law_mse_identical(a: Seq<Binary32>)
    requires
        forall|i: int| 0 <= i < a.len() ==> (#[trigger] a[i]).finite(),
    ensures
        mse(a, a) == Binary32::plus_zero(),
{
    let squares = squared_errors(a, a);
    rounding::lemma_units_least();
    lemma_pow2_pos(149);
    binary32::lemma_nearest_zero(pow2(149));
    assert forall|i: int| 0 <= i < squares.len() implies squares[i] == Binary32::plus_zero() by {
        binary32::lemma_minus_itself(a[i]);
        assert(0 * 0 == 0);
    }
    lemma_sum_of_zeros(squares);
    if a.len() > 0 {
        binary32::lemma_zero_over_count(a.len());
    }
}

/// The mean squared error is not negative, unless it is NaN.
pub proof fn law_mse_not_negative(a: Seq<Binary32>, b: Seq<Binary32>)
    ensures
        mse(a, b).nan() || Binary32::plus_zero().at_most(mse(a, b)),
{
    rounding::lemma_units_least();
    lemma_mse_unsigned(a, b);
}

/// The mean squared error has no sign, unless it is NaN.
pub proof fn lemma_mse_unsigned(a: Seq<Binary32>, b: Seq<Binary32>)
    ensures
        mse(a, b).nan() || !mse(a, b).negative(),
{
    let squares = squared_errors(a, b);
    assert forall|i: int| 0 <= i < squares.len() implies (#[trigger] squares[i]).nan()
        || !squares[i].negative() by {
        binary32::lemma_square(a[i].minus(b[i]));
    }
    lemma_sum_unsigned(squares);
    if a.len() > 0 {
        binary32::lemma_over_count(sum(squares), a.len());
    }
}

/// The error metrics do not care which sequence comes first.
pub proof fn law_errors_symmetric(a: Seq<Binary32>, b: Seq<Binary32>)
    requires
        a.len() == b.len(),
    ensures
        mse(a, b) == mse(b, a),
        largest(absolute_errors(a, b)) == largest(absolute_errors(b, a)),
{
    assert forall|i: int| 0 <= i < a.len() implies squared_errors(a, b)[i] == squared_errors(
        b,
        a,
    )[i] && absolute_errors(a, b)[i] == absolute_errors(b, a)[i] by {
        let d = a[i].minus(b[i]);
        let e = b[i].minus(a[i]);
        binary32::lemma_minus_swapped(a[i], b[i]);
        binary32::lemma_square(d);
        binary32::lemma_reassembled(d);
        binary32::lemma_reassembled(e);
        assert(d == e || d.negated() == e);
    }
    assert(squared_errors(a, b) =~= squared_errors(b, a));
    assert(absolute_errors(a, b) =~= absolute_errors(b, a));
}

/// The maximum error is the least bound: no error that is a number is above it, and
/// it is zero or one of the errors.
pub proof fn law_max_error(a: Seq<Binary32>, b: Seq<Binary32>)
    ensures
        ({
            let errors = absolute_errors(a, b);
            &&& Binary32::plus_zero().at_most(largest(errors))
            &&& forall|i: int|
                0 <= i < errors.len() && !(#[trigger] errors[i]).nan() ==> errors[i].at_most(
                    largest(errors),
                )
            &&& largest(errors) == Binary32::plus_zero() || errors.contains(largest(errors))
            &&& forall|i: int|
                0 <= i < a.len() && !(#[trigger] a[i]).minus(b[i]).nan() ==> a[i].minus(
                    b[i],
                ).absolute().at_most(largest(errors))
            &&& largest(errors).bits == 0 || exists|i: int|
                0 <= i < a.len() && largest(errors) == (#[trigger] a[i]).minus(b[i]).absolute()
        }),
{
    let errors = absolute_errors(a, b);
    assert forall|i: int| 0 <= i < a.len() && !(#[trigger] a[i]).minus(b[i]).nan() implies a[i]
        .minus(b[i]).absolute().at_most(largest(errors)) by {
        binary32::lemma_reassembled(a[i].minus(b[i]));
        assert(errors[i] == a[i].minus(b[i]).absolute());
        lemma_largest_bounds(errors, i);
    }
    lemma_largest_from_zero(errors);
    lemma_largest_member(errors);
    assert forall|i: int| 0 <= i < errors.len() && !(#[trigger] errors[i]).nan() implies
        errors[i].at_most(largest(errors)) by {
        lemma_largest_bounds(errors, i);
    }
    if errors.contains(largest(errors)) {
        let i = choose|i: int| 0 <= i < errors.len() && errors[i] == largest(errors);
        assert(largest(errors) == a[i].minus(b[i]).absolute());
    }
}

/// The maximum error of a sequence against itself is zero.
pub proof fn law_max_error_identical(a: Seq<Binary32>)
    ensures
        largest(absolute_errors(a, a)) == Binary32::plus_zero(),
{
    let errors = absolute_errors(a, a);
    lemma_largest_member(errors);
    lemma_largest_from_zero(errors);
    if errors.contains(largest(errors)) {
        let i = choose|i: int| 0 <= i < errors.len() && errors[i] == largest(errors);
        if a[i].finite() {
            binary32::lemma_minus_itself(a[i]);
        } else {
            binary32::lemma_reassembled(a[i]);
            assert(a[i].minus(a[i]).nan());
        }
    }
}

/// A sequence is not shifted against itself.
pub proof fn law_shift_identical(a: Seq<Binary32>)
    requires
        mean(a).finite(),
    ensures
        mean(a).minus(mean(a)) == Binary32::plus_zero(),
{
    binary32::lemma_minus_itself(mean(a));
}

/// A positive shift means that the mean moved down, a negative one that it moved
/// up, and the opposite shift is the shift the other way.
pub proof fn law_shift_direction(original: Seq<Binary32>, quantized: Seq<Binary32>)
    requires
        mean(original).finite(),
        mean(quantized).finite(),
    ensures
        ({
            let shift = mean(original).minus(mean(quantized));
            &&& Binary32::plus_zero().below(shift) <==> mean(quantized).below(mean(original))
            &&& shift.below(Binary32::plus_zero()) <==> mean(original).below(mean(quantized))
            &&& shift.value() == -mean(quantized).minus(mean(original)).value()
        }),
{
    binary32::lemma_minus_sign(mean(original), mean(quantized));
    binary32::lemma_minus_swapped(mean(original), mean(quantized));
}

/// The distribution of two batches is the sum of their distributions.
pub proof fn law_distribution_adds(a: Seq<Trit>, b: Seq<Trit>, t: Trit)
    ensures
        occurrences(a + b, t) == occurrences(a, t) + occurrences(b, t),
{
    lemma_multiset_commutative(a, b);
}

/// Where one sequence has zeros wherever another has them, it has as many or more.
pub proof fn lemma_zeros_ordered(a: Seq<Trit>, b: Seq<Trit>)
    requires
        a.len() == b.len(),
        forall|i: int|
            #![trigger a[i]]
            0 <= i < a.len() && a[i] == Trit::Zero ==> b[i] == Trit::Zero,
    ensures
        occurrences(a, Trit::Zero) <= occurrences(b, Trit::Zero),
    decreases a.len(),
{
    if a.len() == 0 {
        lemma_occurrences_total(a);
    } else {
        let x = a.drop_last();
        let y = b.drop_last();
        assert(a[a.len() - 1] == a.last());
        assert forall|i: int| #![trigger x[i]] 0 <= i < x.len() && x[i] == Trit::Zero implies y[i]
            == Trit::Zero by {
            assert(a[i] == x[i]);
        }
        lemma_zeros_ordered(x, y);
        assert(x.push(a.last()) =~= a);
        assert(y.push(b.last()) =~= b);
        lemma_occurrences_push(x, a.last(), Trit::Zero);
        lemma_occurrences_push(y, b.last(), Trit::Zero);
    }
}

/// A running sum of sizes at most doubles the exact sum, even where it overflows.
pub proof fn lemma_sum_bounded(s: Seq<Binary32>, b: nat)
    requires
        forall|i: int|
            0 <= i < s.len() ==> !(#[trigger] s[i]).nan() && !s[i].negative() && s[i].size() <= b,
    ensures
        !sum(s).nan(),
        sum(s).zero() || !sum(s).negative(),
        sum(s).size() <= 2 * (s.len() * b),
    decreases s.len(),
{
    rounding::lemma_units_least();
    if s.len() == 0 {
        assert(0 * b == 0);
    } else {
        let init = s.drop_last();
        let (x, y) = (sum(init), s.last());
        assert(y == s[s.len() - 1]);
        assert forall|i: int| 0 <= i < init.len() implies !(#[trigger] init[i]).nan()
            && !init[i].negative() && init[i].size() <= b by {
            assert(init[i] == s[i]);
        }
        lemma_sum_bounded(init, b);
        assert(s.len() * b == init.len() * b + b) by (nonlinear_arith)
            requires
                s.len() == init.len() + 1,
        ;
        binary32::lemma_size(x);
        binary32::lemma_size(y);
        if x.finite() && y.finite() {
            let n = x.size() + y.size();
            if n > 0 {
                rounding::law_nearest(n, 1, x.magnitude());
                binary32::lemma_nearest_positive(n);
            }
        }
    }
}

/// A sum with a summand that is NaN is NaN.
pub proof fn lemma_sum_nan(s: Seq<Binary32>, i: int)
    requires
        0 <= i < s.len(),
        s[i].nan(),
    ensures
        sum(s).nan(),
    decreases s.len(),
{
    if i < s.len() - 1 {
        lemma_sum_nan(s.drop_last(), i);
    }
}

/// A running sum takes up one number at a time, from `-0`.
pub proof fn law_running_sum(s: Seq<Binary32>, x: Binary32)
    ensures
        sum(Seq::empty()).bits == 0x8000_0000,
        sum(s.push(x)) == sum(s).plus(x),
{
    assert(s.push(x).drop_last() =~= s);
}

/// The running sum against the exact one: for up to `2^23` numbers the error is at most
/// a part in `2^23` of all their sizes for each number.
pub proof fn law_sum_error(s: Seq<Binary32>)
    requires
        s.len() <= 0x80_0000,
        sum(s).finite(),
    ensures
        0x80_0000 * (sum(s).value() - exact::exact_sum(s)) <= s.len() * exact::exact_sizes(s),
        0x80_0000 * (exact::exact_sum(s) - sum(s).value()) <= s.len() * exact::exact_sizes(s),
        -exact::exact_sizes(s) <= exact::exact_sum(s) <= exact::exact_sizes(s),
        forall|i: int| 0 <= i < s.len() ==> (#[trigger] s[i]).finite(),
    decreases s.len(),
{
    rounding::lemma_units_least();
    if s.len() == 0 {
        assert(0 * exact::exact_sizes(s) == 0);
    } else {
        let init = s.drop_last();
        let (p, x) = (sum(init), s.last());
        exact::law_sum_error(p, x);
        exact::lemma_exact_push(s);
        law_sum_error(init);
        let n = s.len() as int;
        let (a, b) = (exact::exact_sizes(init), exact::exact_sizes(s));
        let before = p.value() - exact::exact_sum(init);
        let rounded = sum(s).value() - (p.value() + x.value());
        assert((n - 1) * a == init.len() * a);
        lemma_error_grows(n, a, b, before, rounded);
        assert forall|i: int| 0 <= i < s.len() implies (#[trigger] s[i]).finite() by {
            if i < s.len() - 1 {
                assert(s[i] == init[i]);
            }
        }
    }
}

/// How the error of a running sum grows: `before` is the error so far, `rounded` that of
/// the next rounding, `a` and `b` are the sizes up to now and with the next number.
proof fn lemma_error_grows(n: int, a: int, b: int, before: int, rounded: int)
    requires
        1 <= n <= 0x80_0000,
        0 <= a <= b,
        0x80_0000 * before <= (n - 1) * a,
        -0x80_0000 * before <= (n - 1) * a,
        0x100_0000 * rounded <= b + before || 0x100_0000 * rounded <= b - before,
        -0x100_0000 * rounded <= b + before || -0x100_0000 * rounded <= b - before,
    ensures
        0x80_0000 * (before + rounded) <= n * b,
        -0x80_0000 * (before + rounded) <= n * b,
{
    assert((n - 1) * a <= (n - 1) * b && (n - 1) * b == n * b - b && (n - 1) * b <= 0x80_0000 * b)
        by (nonlinear_arith)
        requires
            1 <= n <= 0x80_0000,
            0 <= a <= b,
    ;
}

/// The mean is the running sum shared out over the length, or over one where the
/// sequence is empty.
pub proof fn law_mean(s: Seq<Binary32>)
    ensures
        s.len() > 0 ==> mean(s) == sum(s).over(Binary32::of_nat(s.len())),
        s.len() == 0 ==> mean(s) == Binary32::minus_zero(),
{
    if s.len() == 0 {
        let one = Binary32::of_nat(1);
        exact::lemma_small_count(1);
        rounding::lemma_units_least();
        lemma_pow2_pos(149);
        binary32::lemma_size(one);
        assert(0 * pow2(149) == 0);
        binary32::lemma_nearest_zero(one.size());
    }
}

/// The mean against the exact one, sign included: for up to `2^23` numbers, the mean
/// times the length differs from the exact sum by at most the error of the running sum
/// and that of the division.
pub proof fn law_mean_error(s: Seq<Binary32>)
    requires
        0 < s.len() <= 0x80_0000,
        mean(s).finite(),
    ensures
        ({
            let n = s.len() as int;
            let error = n * mean(s).value() - exact::exact_sum(s);
            let bound = (2 * n + 2) * exact::exact_sizes(s) + 0x80_0000 * n;
            -bound <= 0x100_0000 * error <= bound
        }),
{
    let n = s.len();
    let x = sum(s);
    let a = exact::exact_sizes(s);
    exact::law_share_error(x, n);
    law_sum_error(s);
    exact::law_patterns(x);
    assert(n * a <= 0x80_0000 * a && (2 * n + 2) * a == 2 * (n * a) + 2 * a) by (nonlinear_arith)
        requires
            n <= 0x80_0000,
            0 <= a,
    ;
}

/// Where the running sum is exact, the mean of up to `2^24` numbers is the exact mean,
/// correctly rounded: no number lies nearer to it.
pub proof fn law_mean_nearest(s: Seq<Binary32>, b: Binary32)
    requires
        0 < s.len() <= 0x100_0000,
        sum(s).finite(),
        sum(s).value() == exact::exact_sum(s),
        !b.nan(),
    ensures
        ({
            let n = s.len() as int;
            let m = mean(s);
            let e = exact::exact_sum(s);
            &&& !m.nan()
            &&& b.value() < m.value() ==> n * (b.value() + m.value()) <= 2 * e
            &&& b.value() > m.value() ==> n * (b.value() + m.value()) >= 2 * e
            &&& b.value() != m.value() && n * (b.value() + m.value()) == 2 * e ==> m.bits % 2 == 0
        }),
{
    let n = s.len();
    let y = Binary32::of_nat(n);
    let u = pow2(149) as int;
    let d = b.value() + mean(s).value();
    let e = sum(s).value();
    exact::lemma_small_count(n);
    exact::law_quotient(sum(s), y, b);
    lemma_pow2_pos(149);
    assert((n * u) * d == (n * d) * u) by (nonlinear_arith);
    assert(2 * (e * u) == (2 * e) * u) by (nonlinear_arith);
    let k = n * d;
    assert(k * u <= (2 * e) * u ==> k <= 2 * e) by (nonlinear_arith)
        requires
            u > 0,
    ;
    assert(k * u >= (2 * e) * u ==> k >= 2 * e) by (nonlinear_arith)
        requires
            u > 0,
    ;
}

/// Copies of one number, if their running sum is exact, have that number as their mean.
pub proof fn law_mean_of_copies(s: Seq<Binary32>, c: Binary32)
    requires
        0 < s.len() <= 0x100_0000,
        forall|i: int| 0 <= i < s.len() ==> #[trigger] s[i] == c,
        sum(s).finite(),
        sum(s).value() == s.len() * c.value(),
        !c.nan(),
    ensures
        mean(s).value() == c.value(),
        exact::exact_sum(s) == s.len() * c.value(),
{
    lemma_exact_copies(s, c);
    law_mean_nearest(s, c);
    let n = s.len() as int;
    let (v, m) = (c.value(), mean(s).value());
    assert(v == m) by (nonlinear_arith)
        requires
            n > 0,
            v < m ==> n * (v + m) <= 2 * (n * v),
            v > m ==> n * (v + m) >= 2 * (n * v),
    ;
}

/// The exact sum of copies.
pub proof fn lemma_exact_copies(s: Seq<Binary32>, c: Binary32)
    requires
        forall|i: int| 0 <= i < s.len() ==> #[trigger] s[i] == c,
    ensures
        exact::exact_sum(s) == s.len() * c.value(),
        exact::exact_sizes(s) == s.len() * c.size(),
    decreases s.len(),
{
    let (n, v, w) = (s.len() as int, c.value(), c.size() as int);
    if n == 0 {
        assert(0 * v == 0 && 0 * w == 0);
    } else {
        let init = s.drop_last();
        exact::lemma_exact_push(s);
        lemma_exact_copies(init, c);
        assert(s[n - 1] == c);
        assert(n * v == (n - 1) * v + v && n * w == (n - 1) * w + w) by (nonlinear_arith);
    }
}

/// The shift against the exact means, for sequences whose running sums are exact. It is
/// positive only where the exact mean of the original is the greater one, negative only
/// where it is the smaller one.
pub proof fn law_shift_sign(original: Seq<Binary32>, quantized: Seq<Binary32>)
    requires
        0 < original.len() <= 0x100_0000,
        0 < quantized.len() <= 0x100_0000,
        mean(original).finite(),
        mean(quantized).finite(),
        sum(original).finite(),
        sum(quantized).finite(),
        sum(original).value() == exact::exact_sum(original),
        sum(quantized).value() == exact::exact_sum(quantized),
    ensures
        ({
            let shift = mean(original).minus(mean(quantized));
            let above = exact::exact_sum(original) * quantized.len();
            let below = exact::exact_sum(quantized) * original.len();
            &&& shift.value() > 0 ==> above > below
            &&& shift.value() < 0 ==> above < below
            &&& above > below ==> shift.value() >= 0
            &&& above < below ==> shift.value() <= 0
        }),
{
    let (a, b) = (mean(original), mean(quantized));
    let (m, n) = (original.len() as int, quantized.len() as int);
    let (e, f) = (exact::exact_sum(original), exact::exact_sum(quantized));
    law_mean_nearest(original, b);
    law_mean_nearest(quantized, a);
    binary32::lemma_minus_sign(a, b);
    rounding::lemma_units_least();
    let (v, w) = (a.value(), b.value());
    assert(v > w ==> e * n >= f * m) by (nonlinear_arith)
        requires
            m > 0,
            n > 0,
            v > w ==> m * (w + v) <= 2 * e,
            v > w ==> n * (v + w) >= 2 * f,
    ;
    assert(v < w ==> e * n <= f * m) by (nonlinear_arith)
        requires
            m > 0,
            n > 0,
            v < w ==> m * (w + v) >= 2 * e,
            v < w ==> n * (v + w) <= 2 * f,
    ;
    if e * n == f * m {
        lemma_mean_pattern(original);
        lemma_mean_pattern(quantized);
        let (p, q) = (sum(original).size(), sum(quantized).size());
        let (i, j) = (original.len(), quantized.len());
        assert(p * j == q * i && (e > 0 ==> f > 0) && (e < 0 ==> f < 0)) by (nonlinear_arith)
            requires
                e * n == f * m,
                m > 0,
                n > 0,
                i == m,
                j == n,
                p == e || p == -e,
                q == f || q == -f,
                p >= 0,
                q >= 0,
        ;
        rounding::lemma_nearest_expanded(p, i, j);
        rounding::lemma_nearest_expanded(q, j, i);
        assert(i * j == j * i) by (nonlinear_arith);
        assert(a.magnitude() == b.magnitude());
        if p == 0 {
            binary32::lemma_nearest_zero(i);
        }
        assert(v == w);
    }
}

/// The pattern of a mean: the rounding of the running sum over the length.
proof fn lemma_mean_pattern(s: Seq<Binary32>)
    requires
        0 < s.len() <= 0x100_0000,
        sum(s).finite(),
    ensures
        mean(s).magnitude() == rounding::nearest(sum(s).size(), s.len()),
        mean(s).negative() == sum(s).negative(),
{
    let n = s.len();
    let x = sum(s);
    exact::lemma_small_count(n);
    lemma_pow2_pos(149);
    binary32::lemma_size(Binary32::of_nat(n));
    rounding::lemma_nearest_expanded(x.size(), n, pow2(149));
    rounding::lemma_nearest_range(x.size(), n);
}

/// Where the running sum is exact and the exact mean is a number, that number is the mean.
pub proof fn law_mean_representable(s: Seq<Binary32>, c: Binary32)
    requires
        0 < s.len() <= 0x100_0000,
        sum(s).finite(),
        sum(s).value() == exact::exact_sum(s),
        !c.nan(),
        s.len() * c.value() == exact::exact_sum(s),
    ensures
        mean(s).value() == c.value(),
{
    law_mean_nearest(s, c);
    let n = s.len() as int;
    let (v, m) = (c.value(), mean(s).value());
    assert(v == m) by (nonlinear_arith)
        requires
            n > 0,
            v < m ==> n * (v + m) <= 2 * (n * v),
            v > m ==> n * (v + m) >= 2 * (n * v),
    ;
}

/// The shift of sequences whose running sums are exact and whose exact means are the
/// numbers `a` and `b`: positive exactly where `a` is above `b`, and of all numbers none
/// lies nearer to the difference.
pub proof fn law_shift_nearest(
    original: Seq<Binary32>,
    quantized: Seq<Binary32>,
    a: Binary32,
    b: Binary32,
    c: Binary32,
)
    requires
        0 < original.len() <= 0x100_0000,
        0 < quantized.len() <= 0x100_0000,
        sum(original).finite(),
        sum(quantized).finite(),
        sum(original).value() == exact::exact_sum(original),
        sum(quantized).value() == exact::exact_sum(quantized),
        a.finite(),
        b.finite(),
        !c.nan(),
        original.len() * a.value() == exact::exact_sum(original),
        quantized.len() * b.value() == exact::exact_sum(quantized),
    ensures
        ({
            let shift = mean(original).minus(mean(quantized));
            let e = a.value() - b.value();
            &&& !shift.nan()
            &&& shift.value() > 0 <==> e > 0
            &&& shift.value() < 0 <==> e < 0
            &&& c.value() < shift.value() ==> c.value() + shift.value() <= 2 * e
            &&& c.value() > shift.value() ==> c.value() + shift.value() >= 2 * e
        }),
{
    let (x, y) = (mean(original), mean(quantized));
    law_mean_representable(original, a);
    law_mean_representable(quantized, b);
    law_mean_nearest(original, a);
    law_mean_nearest(quantized, b);
    exact::law_comparison(x, a);
    exact::law_comparison(y, b);
    exact::law_difference(x, y);
    exact::law_sum(x, y.negated(), c);
    binary32::lemma_minus_sign(x, y);
    binary32::lemma_reassembled(y);
    rounding::lemma_units_least();
}

/// The squared error of one number: the rounded product of the rounded difference with
/// itself.
pub proof fn law_mse_of_one(x: Binary32, y: Binary32)
    ensures
        mse(seq![x], seq![y]) == x.minus(y).times(x.minus(y)),
{
    let d = x.minus(y);
    let q = d.times(d);
    let squares = squared_errors(seq![x], seq![y]);
    let one = Binary32::of_nat(1);
    assert(squares =~= seq![q]);
    assert(squares.drop_last() =~= Seq::<Binary32>::empty());
    assert(sum(Seq::<Binary32>::empty()) == Binary32::minus_zero());
    assert(sum(squares) == Binary32::minus_zero().plus(q));
    exact::lemma_small_count(1);
    binary32::lemma_square(d);
    exact::law_special(d, d);
    binary32::lemma_reassembled(q);
    rounding::lemma_units_least();
    let u = pow2(149);
    lemma_pow2_pos(149);
    if q.finite() {
        rounding::lemma_nearest_exact(q.magnitude(), 1);
        assert(sum(squares) == q) by {
            binary32::lemma_size(q);
        }
        rounding::lemma_nearest_exact(q.magnitude(), u);
        assert(u * q.size() == q.size() * u) by (nonlinear_arith);
    }
}

/// The squared error of one number in exact terms: where the difference is the number
/// `d`, no number lies nearer to the exact square of it.
pub proof fn law_mse_nearest(x: Binary32, y: Binary32, d: Binary32, b: Binary32)
    requires
        x.finite(),
        y.finite(),
        d.finite(),
        d.value() == x.value() - y.value(),
        !b.nan(),
    ensures
        ({
            let r = mse(seq![x], seq![y]);
            let e = d.value() * d.value();
            &&& !r.nan()
            &&& r.value() >= 0
            &&& b.value() < r.value() ==> pow2(149) * (b.value() + r.value()) <= 2 * e
            &&& b.value() > r.value() ==> pow2(149) * (b.value() + r.value()) >= 2 * e
        }),
{
    let z = x.minus(y);
    law_mse_of_one(x, y);
    exact::law_difference(x, y);
    exact::law_exact_results(x, y.negated(), d);
    exact::law_sum(x, y.negated(), d);
    exact::law_comparison(z, d);
    exact::law_product(z, z, b);
}

/// The mean squared error of longer sequences is the mean of the squared errors of their
/// numbers, one by one.
pub proof fn law_mse_of_many(a: Seq<Binary32>, b: Seq<Binary32>)
    requires
        a.len() == b.len(),
    ensures
        a.len() == 0 ==> mse(a, b).bits == 0,
        a.len() > 0 ==> mse(a, b) == sum(
            Seq::new(a.len(), |i: int| mse(seq![a[i]], seq![b[i]])),
        ).over(Binary32::of_nat(a.len())),
{
    let each = Seq::new(a.len(), |i: int| mse(seq![a[i]], seq![b[i]]));
    assert forall|i: int| 0 <= i < a.len() implies squared_errors(a, b)[i] == each[i] by {
        law_mse_of_one(a[i], b[i]);
    }
    assert(squared_errors(a, b) =~= each);
}

/// The trits are counted one by one.
pub proof fn law_counting(s: Seq<Trit>, x: Trit, t: Trit)
    ensures
        occurrences(Seq::empty(), t) == 0,
        occurrences(s.push(x), t) == occurrences(s, t) + if x == t {
            1int
        } else {
            0int
        },
{
    lemma_occurrences_total(Seq::<Trit>::empty());
    lemma_occurrences_push(s, x, t);
}

/// The size of the largest number: no number is larger, and it is zero or the size of one
/// of the numbers.
pub proof fn law_largest_size(values: Seq<Binary32>)
    ensures
        ({
            let high = largest(sizes(values));
            &&& Binary32::plus_zero().at_most(high)
            &&& forall|i: int|
                0 <= i < values.len() && !(#[trigger] values[i]).nan() ==> values[i].size()
                    <= high.value()
            &&& high.bits == 0 || exists|i: int|
                0 <= i < values.len() && high == (#[trigger] values[i]).absolute()
        }),
{
    let all = sizes(values);
    let high = largest(all);
    lemma_largest_from_zero(all);
    lemma_largest_member(all);
    assert forall|i: int| 0 <= i < values.len() && !(#[trigger] values[i]).nan() implies values[i]
        .size() <= high.value() by {
        binary32::lemma_reassembled(values[i]);
        assert(all[i] == values[i].absolute());
        lemma_largest_bounds(all, i);
    }
    if all.contains(high) {
        let i = choose|i: int| 0 <= i < all.len() && all[i] == high;
        assert(high == values[i].absolute());
    }
}

/// Copies of one number add up exactly as long as their sum has no more than 24 digits.
pub proof fn law_copies_add_up(s: Seq<Binary32>, c: Binary32, m: nat, k: nat)
    requires
        forall|i: int| 0 <= i < s.len() ==> #[trigger] s[i] == c,
        !c.nan(),
        k <= 253,
        c.size() == m * pow2(k),
        s.len() * m < 0x100_0000,
    ensures
        sum(s).finite(),
        sum(s).value() == s.len() * c.value(),
    decreases s.len(),
{
    let n = s.len();
    rounding::lemma_units_least();
    if n == 0 {
        assert(0 * c.value() == 0);
    } else {
        let init = s.drop_last();
        let before = sum(init);
        let w = pow2(k);
        let whole = n * m;
        assert((n - 1) * m + m == whole && (n - 1) * m >= 0) by (nonlinear_arith)
            requires
                whole == n * m,
                n >= 1,
        ;
        assert(init.len() * m == (n - 1) * m);
        law_copies_add_up(init, c, m, k);
        assert(s[n - 1] == c);
        assert(m < 0x100_0000);
        rounding::lemma_nearest_short(m, k);
        rounding::lemma_nearest_short(whole, k);
        binary32::lemma_size_ordered(c, Binary32::of_parts(false, rounding::nearest(m * w, 1)));
        assert(c.finite());
        let v = c.value();
        assert((n - 1) * v + v == n * v) by (nonlinear_arith);
        assert(n * (m * w) == whole * w) by (nonlinear_arith)
            requires
                whole == n * m,
        ;
        assert(n * (-(m * w)) == -(n * (m * w))) by (nonlinear_arith);
        let b = Binary32::of_parts(c.negative(), rounding::nearest(whole * w, 1));
        assert(b.value() == n * v);
        exact::law_exact_results(before, c, b);
        exact::law_sum(before, c, b);
        exact::law_comparison(sum(s), b);
    }
}

} // verus!
