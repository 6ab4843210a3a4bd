//! What the arithmetic of [`Binary32`] means, in exact integers.
//!
//! The laws here speak of bit patterns and of whole numbers of units of `2^-149`, and
//! not of how a result is rounded: a result is the number that no other number beats.
use crate::binary32;
use crate::binary32::Binary32;
use crate::rounding;
use crate::trit;
use vstd::arithmetic::div_mod::*;
use vstd::arithmetic::power2::*;
use vstd::prelude::*;

verus! {

/// How a bit pattern is read: the highest bit is the sign, and the rest tells numbers,
/// infinity and NaN apart. Up to the pattern `2^24` the rest is the size itself.
pub proof fn law_patterns(x: Binary32)
    ensures
        x.negative() <==> x.bits >= 0x8000_0000,
        x.nan() <==> x.bits % 0x8000_0000 > 0x7F80_0000,
        x.infinite() <==> x.bits % 0x8000_0000 == 0x7F80_0000,
        x.finite() <==> x.bits % 0x8000_0000 < 0x7F80_0000,
        x.zero() <==> x.bits % 0x8000_0000 == 0,
        x.bits <= 0x100_0000 ==> x.value() == x.bits,
        0x8000_0000 <= x.bits <= 0x8100_0000 ==> x.value() == 0x8000_0000 - x.bits,
        x.negated().bits == (x.bits + 0x8000_0000) % 0x1_0000_0000,
        x.absolute().bits == x.bits % 0x8000_0000,
        x.size() == if x.negative() {
            -x.value()
        } else {
            x.value()
        },
{
    let m = x.magnitude();
    lemma2_to64();
    if m < 0x100_0000 {
        assert(rounding::exponent(m) == 0 && rounding::significand(m) == m);
        assert(m * pow2(0) == m);
        assert(x.size() == m);
    } else if m == 0x100_0000 {
        assert(rounding::exponent(m) == 1 && rounding::significand(m) == 0x80_0000);
        assert(x.size() == 0x80_0000 * pow2(1));
    }
}

/// From the pattern `2^23` on, adding one to the exponent field doubles the number. The
/// infinities stand at `2^277` and `-2^277`.
pub proof fn law_exponents(x: Binary32, y: Binary32)
    requires
        x.bits % 0x8000_0000 >= 0x80_0000,
        y.bits == x.bits + 0x80_0000,
        y.bits % 0x8000_0000 <= 0x7F80_0000,
        x.negative() == y.negative(),
    ensures
        y.value() == 2 * x.value(),
{
    let (m, n) = (x.magnitude(), y.magnitude());
    let k = rounding::exponent(m);
    let s = rounding::significand(m);
    if m < 0x100_0000 {
        assert(rounding::exponent(n) == 1);
        assert(rounding::significand(n) == m);
        lemma2_to64();
        assert(m * 2 == 2 * (m * 1));
    } else {
        assert(rounding::exponent(n) == k + 1);
        assert(rounding::significand(n) == s);
        lemma_pow2_unfold(k + 1);
        assert(s * (2 * pow2(k)) == 2 * (s * pow2(k))) by (nonlinear_arith);
    }
}

/// Comparison by value. NaN compares with nothing.
pub proof fn law_comparison(x: Binary32, y: Binary32)
    ensures
        x.nan() || y.nan() ==> !x.below(y) && !x.at_most(y),
        !x.nan() && !y.nan() ==> (x.below(y) <==> x.value() < y.value()),
        !x.nan() && !y.nan() ==> (x.at_most(y) <==> x.value() <= y.value()),
        !x.nan() && !y.nan() ==> (x.value() == y.value() <==> x == y || x.zero() && y.zero()),
{
    binary32::lemma_size(x);
    binary32::lemma_size(y);
    binary32::lemma_size_ordered(x, y);
    binary32::lemma_reassembled(x);
    binary32::lemma_reassembled(y);
}

/// The greater of two: one of them, not below either; NaN gives way. Clamping gives a
/// number within bounds, the number itself where it is, and otherwise the nearer bound.
pub proof fn law_selection(x: Binary32, y: Binary32, z: Binary32)
    ensures
        x.nan() ==> x.greater_of(y) == y,
        y.nan() && !x.nan() ==> x.greater_of(y) == x,
        !x.nan() && !y.nan() && x.value() >= y.value() ==> x.greater_of(y) == x,
        !x.nan() && !y.nan() && x.value() < y.value() ==> x.greater_of(y) == y,
        y.at_most(z) && x.nan() ==> x.clamped(y, z) == x,
        y.at_most(z) && !x.nan() && x.value() < y.value() ==> x.clamped(y, z) == y,
        y.at_most(z) && !x.nan() && x.value() > z.value() ==> x.clamped(y, z) == z,
        y.at_most(z) && !x.nan() && y.value() <= x.value() <= z.value() ==> x.clamped(y, z) == x,
{
}

/// No number lies nearer to a quotient than its rounding.
proof fn lemma_rounded(negative: bool, p: nat, q: nat, b: Binary32)
    requires
        q > 0,
        !b.nan(),
    ensures
        ({
            let r = Binary32::of_parts(negative, rounding::nearest(p, q));
            let e = if negative {
                -(p as int)
            } else {
                p as int
            };
            &&& !r.nan()
            &&& r.negative() == negative
            &&& b.value() < r.value() ==> q * (b.value() + r.value()) <= 2 * e
            &&& b.value() > r.value() ==> q * (b.value() + r.value()) >= 2 * e
            &&& b.value() != r.value() && q * (b.value() + r.value()) == 2 * e ==> r.bits % 2 == 0
        }),
{
    let m = rounding::nearest(p, q);
    let r = Binary32::of_parts(negative, m);
    rounding::lemma_nearest_range(p, q);
    assert(r.magnitude() == m);
    let u = r.size() as int;
    let v = b.size() as int;
    let (qq, pp) = (q as int, p as int);
    rounding::lemma_units_least();
    rounding::law_nearest(p, q, 0);
    rounding::law_nearest(p, q, b.magnitude());
    binary32::lemma_size(r);
    binary32::lemma_size(b);
    binary32::lemma_size_ordered(r, b);
    assert(qq * 0 == 0);
    assert(v < u ==> qq * v < qq * u) by (nonlinear_arith)
        requires
            qq > 0,
    ;
    assert(u < v ==> qq * u < qq * v) by (nonlinear_arith)
        requires
            qq > 0,
    ;
    assert(qq * u >= 0 && qq * v >= 0 && (u > 0 ==> qq * u > 0) && (v > 0 ==> qq * v > 0))
        by (nonlinear_arith)
        requires
            qq > 0,
            u >= 0,
            v >= 0,
    ;
    assert(qq * (u + v) == qq * u + qq * v && qq * (v + u) == qq * u + qq * v && qq * (u - v) == qq
        * u - qq * v && qq * (v - u) == qq * v - qq * u && qq * (-u - v) == -(qq * u + qq * v)
        && qq * (-v - u) == -(qq * u + qq * v)) by (nonlinear_arith);
    assert(r.bits % 2 == m % 2);
    if b.negative() == negative {
        assert(u != v ==> b.magnitude() != m);
        if negative {
            assert(b.value() + r.value() == -v - u);
        } else {
            assert(b.value() + r.value() == v + u);
        }
    } else {
        if negative {
            assert(b.value() + r.value() == v - u);
        } else {
            assert(b.value() + r.value() == u - v);
        }
    }
}

/// What a sum is: of all numbers none lies nearer to the exact sum, and where another
/// lies as near, the pattern of the sum is even. It has the sign of the exact sum; a sum
/// of zero is positive, unless both summands are negative.
pub proof fn law_sum(x: Binary32, y: Binary32, b: Binary32)
    requires
        x.finite(),
        y.finite(),
        !b.nan(),
    ensures
        ({
            let r = x.plus(y);
            let e = x.value() + y.value();
            &&& !r.nan()
            &&& b.value() < r.value() ==> b.value() + r.value() <= 2 * e
            &&& b.value() > r.value() ==> b.value() + r.value() >= 2 * e
            &&& b.value() != r.value() && b.value() + r.value() == 2 * e ==> r.bits % 2 == 0
            &&& e > 0 ==> !r.negative()
            &&& e < 0 ==> r.negative()
            &&& e == 0 ==> r.zero() && r.negative() == (x.negative() && y.negative())
        }),
{
    let e = x.value() + y.value();
    rounding::lemma_units_least();
    if e > 0 {
        lemma_rounded(false, e as nat, 1, b);
    } else if e < 0 {
        lemma_rounded(true, (-e) as nat, 1, b);
    }
}

/// A difference is the sum with the opposite number.
pub proof fn law_difference(x: Binary32, y: Binary32)
    ensures
        x.minus(y) == x.plus(y.negated()),
        y.negated().value() == -y.value(),
        y.negated().nan() == y.nan(),
        y.negated().infinite() == y.infinite(),
        y.negated().negative() != y.negative(),
{
    binary32::lemma_reassembled(y);
}

/// What a product is: of all numbers none lies nearer to the exact product, and where
/// another lies as near, the pattern of the product is even. It is negative where just
/// one factor is.
pub proof fn law_product(x: Binary32, y: Binary32, b: Binary32)
    requires
        x.finite(),
        y.finite(),
        !b.nan(),
    ensures
        ({
            let r = x.times(y);
            let e = x.value() * y.value();
            &&& !r.nan()
            &&& b.value() < r.value() ==> pow2(149) * (b.value() + r.value()) <= 2 * e
            &&& b.value() > r.value() ==> pow2(149) * (b.value() + r.value()) >= 2 * e
            &&& b.value() != r.value() && pow2(149) * (b.value() + r.value()) == 2 * e ==> r.bits
                % 2 == 0
            &&& r.negative() == (x.negative() != y.negative())
        }),
{
    let (s, t) = (x.size() as int, y.size() as int);
    lemma_pow2_pos(149);
    lemma_rounded(x.negative() != y.negative(), x.size() * y.size(), pow2(149), b);
    assert((-s) * t == -(s * t) && s * (-t) == -(s * t) && (-s) * (-t) == s * t)
        by (nonlinear_arith);
}

/// What a quotient is: of all numbers none lies nearer to the exact quotient, and where
/// another lies as near, the pattern of the quotient is even. It is negative where just
/// one operand is.
pub proof fn law_quotient(x: Binary32, y: Binary32, b: Binary32)
    requires
        x.finite(),
        y.finite(),
        !y.zero(),
        !b.nan(),
    ensures
        ({
            let r = x.over(y);
            let e = (if y.negative() {
                -x.value()
            } else {
                x.value()
            }) * pow2(149);
            &&& !r.nan()
            &&& b.value() < r.value() ==> y.size() * (b.value() + r.value()) <= 2 * e
            &&& b.value() > r.value() ==> y.size() * (b.value() + r.value()) >= 2 * e
            &&& b.value() != r.value() && y.size() * (b.value() + r.value()) == 2 * e ==> r.bits % 2
                == 0
            &&& r.negative() == (x.negative() != y.negative())
        }),
{
    let s = x.size() as int;
    let c = pow2(149) as int;
    lemma_pow2_pos(149);
    binary32::lemma_size(y);
    lemma_rounded(x.negative() != y.negative(), x.size() * pow2(149), y.size(), b);
    assert((-s) * c == -(s * c)) by (nonlinear_arith);
    assert(-(-s) == s);
}

/// What the number of a count is: of all numbers none lies nearer to the count.
pub proof fn law_count(n: nat, b: Binary32)
    requires
        !b.nan(),
    ensures
        ({
            let r = Binary32::of_nat(n);
            let e = n * pow2(149);
            &&& !r.nan()
            &&& !r.negative()
            &&& b.value() < r.value() ==> b.value() + r.value() <= 2 * e
            &&& b.value() > r.value() ==> b.value() + r.value() >= 2 * e
            &&& b.value() != r.value() && b.value() + r.value() == 2 * e ==> r.bits % 2 == 0
        }),
{
    lemma_rounded(false, n * pow2(149), 1, b);
}

/// Beyond the finite numbers. NaN stays NaN, and comes from opposite infinities added,
/// from zero times infinity, and from two zeros or two infinities divided. Otherwise
/// infinity absorbs what is added to it or multiplied with it, dividing by it gives zero,
/// and dividing by zero gives infinity.
pub proof fn law_special(x: Binary32, y: Binary32)
    ensures
        x.plus(y).nan() <==> x.nan() || y.nan() || (x.infinite() && y.infinite() && x.negative()
            != y.negative()),
        x.times(y).nan() <==> x.nan() || y.nan() || (x.infinite() && y.zero()) || (x.zero()
            && y.infinite()),
        x.over(y).nan() <==> x.nan() || y.nan() || (x.infinite() && y.infinite()) || (x.zero()
            && y.zero()),
        x.plus(y).nan() ==> x.plus(y).bits == 0x7FC0_0000,
        x.times(y).nan() ==> x.times(y).bits == 0x7FC0_0000,
        x.over(y).nan() ==> x.over(y).bits == 0x7FC0_0000,
        x.infinite() && !x.plus(y).nan() ==> x.plus(y) == x,
        y.infinite() && !x.plus(y).nan() ==> x.plus(y) == y,
        (x.infinite() || y.infinite()) && !x.times(y).nan() ==> x.times(y).infinite()
            && x.times(y).negative() == (x.negative() != y.negative()),
        (x.infinite() || y.zero()) && !x.over(y).nan() ==> x.over(y).infinite()
            && x.over(y).negative() == (x.negative() != y.negative()),
        y.infinite() && !x.over(y).nan() ==> x.over(y).zero() && x.over(y).negative() == (
        x.negative() != y.negative()),
{
    if x.finite() && y.finite() {
        law_sum(x, y, Binary32::plus_zero());
        law_product(x, y, Binary32::plus_zero());
        if !y.zero() {
            law_quotient(x, y, Binary32::plus_zero());
        }
    }
    binary32::lemma_reassembled(x);
    binary32::lemma_reassembled(y);
}

/// A sum, product or quotient that is itself a number is not rounded.
pub proof fn law_exact_results(x: Binary32, y: Binary32, b: Binary32)
    requires
        x.finite(),
        y.finite(),
        !b.nan(),
    ensures
        b.value() == x.value() + y.value() ==> x.plus(y).value() == b.value(),
        b.value() * pow2(149) == x.value() * y.value() ==> x.times(y).value() == b.value(),
        !y.zero() && b.value() * y.value() == x.value() * pow2(149) ==> x.over(y).value()
            == b.value(),
{
    let c = pow2(149) as int;
    law_sum(x, y, b);
    law_product(x, y, b);
    lemma_pow2_pos(149);
    if b.value() * pow2(149) == x.value() * y.value() {
        let (v, r) = (b.value(), x.times(y).value());
        assert(v == r) by (nonlinear_arith)
            requires
                c > 0,
                v < r ==> c * (v + r) <= 2 * (v * c),
                v > r ==> c * (v + r) >= 2 * (v * c),
        ;
    }
    if !y.zero() && b.value() * y.value() == x.value() * pow2(149) {
        law_quotient(x, y, b);
        binary32::lemma_size(y);
        let (v, r, s) = (b.value(), x.over(y).value(), y.size() as int);
        let z = x.value();
        assert(v * (-s) == -(v * s)) by (nonlinear_arith);
        assert((-z) * c == -(z * c)) by (nonlinear_arith);
        assert(v == r) by (nonlinear_arith)
            requires
                s > 0,
                v < r ==> s * (v + r) <= 2 * (v * s),
                v > r ==> s * (v + r) >= 2 * (v * s),
        ;
    }
}

/// One is `2^149` units, and the patterns of the constants.
pub proof fn law_constants()
    ensures
        Binary32::plus_zero().bits == 0,
        Binary32::minus_zero().bits == 0x8000_0000,
        Binary32::one().value() == pow2(149),
        Binary32::quiet_nan().nan(),
{
    trit::lemma_one();
}

/// The error of a rounding: a part in `2^24` of the quotient, or half a unit, whichever
/// is greater, and nothing for a whole number of units up to `2^24`.
proof fn lemma_rounding_error(p: nat, q: nat)
    requires
        q > 0,
        rounding::nearest(p, q) < rounding::INFINITY,
    ensures
        ({
            let r = q * rounding::units(rounding::nearest(p, q));
            &&& 0x100_0000 * (r - p) <= p + 0x80_0000 * q
            &&& 0x100_0000 * (p - r) <= p + 0x80_0000 * q
            &&& q == 1 ==> 0x100_0000 * (r - p) <= p && 0x100_0000 * (p - r) <= p
        }),
{
    rounding::lemma_nearest_unfold(p, q);
    let k = rounding::excess_digits(p / q);
    let w = pow2(k);
    let d = q * w;
    let f = p / d;
    let m = rounding::round_half_even(p, d);
    rounding::lemma_units_split(k, m);
    lemma_fundamental_div_mod(p as int, d as int);
    assert(q * (m * w) == m * d && q * (0x80_0000 * w) == 0x80_0000 * d) by (nonlinear_arith)
        requires
            d == q * w,
    ;
    assert(d * f == f * d && (f + 1) * d == f * d + d) by (nonlinear_arith);
    assert(2 * (m * d) <= 2 * p + d && 2 * p <= 2 * (m * d) + d);
    if k == 0 {
        lemma2_to64();
        assert(q * 1 == q);
        if q == 1 {
            assert(1 * w == 1);
            rounding::lemma_round_exact(p, 1);
        }
    }
}

/// The exact sum of a sequence of numbers, in units.
pub open spec fn exact_sum(s: Seq<Binary32>) -> int {
    s.fold_left(0int, |a: int, x: Binary32| a + x.value())
}

/// The exact sum of the sizes of a sequence of numbers, in units.
pub open spec fn exact_sizes(s: Seq<Binary32>) -> int {
    s.fold_left(0int, |a: int, x: Binary32| a + x.size())
}

/// Exact sums grow by one number at a time.
pub proof fn lemma_exact_push(s: Seq<Binary32>)
    requires
        s.len() > 0,
    ensures
        exact_sum(s) == exact_sum(s.drop_last()) + s.last().value(),
        exact_sizes(s) == exact_sizes(s.drop_last()) + s.last().size(),
{
}

/// The error of a sum of two numbers is at most a part in `2^24` of the exact sum.
pub proof fn law_sum_error(x: Binary32, y: Binary32)
    requires
        x.plus(y).finite(),
    ensures
        ({
            let r = x.plus(y).value();
            let e = x.value() + y.value();
            let size = if e < 0 {
                -e
            } else {
                e
            };
            &&& x.finite()
            &&& y.finite()
            &&& 0x100_0000 * (r - e) <= size
            &&& 0x100_0000 * (e - r) <= size
        }),
{
    let e = x.value() + y.value();
    rounding::lemma_units_least();
    if e > 0 {
        rounding::lemma_nearest_range(e as nat, 1);
        lemma_rounding_error(e as nat, 1);
    } else if e < 0 {
        rounding::lemma_nearest_range((-e) as nat, 1);
        lemma_rounding_error((-e) as nat, 1);
    }
}

/// The error of a quotient by a count: a part in `2^24` of the dividend, or half a unit
/// for each of the count.
pub proof fn law_share_error(x: Binary32, n: nat)
    requires
        0 < n <= 0x100_0000,
        x.over(Binary32::of_nat(n)).finite(),
    ensures
        ({
            let r = n * x.over(Binary32::of_nat(n)).value();
            &&& x.finite()
            &&& 0x100_0000 * (r - x.value()) <= x.size() + 0x80_0000 * n
            &&& 0x100_0000 * (x.value() - r) <= x.size() + 0x80_0000 * n
        }),
{
    let y = Binary32::of_nat(n);
    let u = pow2(149);
    let p = x.size() * u;
    let q = y.size();
    lemma_small_count(n);
    lemma_pow2_pos(149);
    binary32::lemma_size(y);
    rounding::lemma_nearest_range(p, q);
    assert(x.finite());
    // Both sides by `2^149`.
    rounding::lemma_nearest_expanded(x.size(), n, u);
    lemma_rounding_error(x.size(), n);
    let m = rounding::units(rounding::nearest(x.size(), n)) as int;
    assert(n * (-m) == -(n * m)) by (nonlinear_arith);
}

/// A share of a finite number is finite.
pub proof fn law_share_finite(x: Binary32, n: nat)
    requires
        0 < n <= 0x100_0000,
        x.finite(),
    ensures
        x.over(Binary32::of_nat(n)).finite(),
        x.over(Binary32::of_nat(n)).size() <= x.size(),
{
    let y = Binary32::of_nat(n);
    let u = pow2(149);
    let m = rounding::nearest(x.size(), n);
    lemma_small_count(n);
    lemma_pow2_pos(149);
    binary32::lemma_size(y);
    rounding::lemma_nearest_expanded(x.size(), n, u);
    rounding::lemma_nearest_exact(x.magnitude(), 1);
    assert(x.size() * 1 <= x.size() * n) by (nonlinear_arith)
        requires
            n >= 1,
    ;
    rounding::lemma_nearest_monotone(x.size(), n, x.size(), 1);
    rounding::lemma_nearest_range(x.size(), n);
    assert(m <= x.magnitude());
    binary32::lemma_size_ordered(x, x.over(y));
}

/// A count of at most 24 digits is not rounded.
pub proof fn lemma_small_count(n: nat)
    requires
        n <= 0x100_0000,
    ensures
        Binary32::of_nat(n).finite(),
        !Binary32::of_nat(n).negative(),
        Binary32::of_nat(n).size() == n * pow2(149),
        Binary32::of_nat(n).value() == n * pow2(149),
        n > 0 ==> !Binary32::of_nat(n).zero(),
{
    if n < 0x100_0000 {
        rounding::lemma_nearest_short(n, 149);
    } else {
        lemma_pow2_unfold(150);
        rounding::lemma_nearest_short(0x80_0000, 150);
    }
    if n > 0 {
        lemma_pow2_pos(149);
        assert(n * pow2(149) > 0) by (nonlinear_arith)
            requires
                n > 0,
                pow2(149) > 0,
        ;
        binary32::lemma_size(Binary32::of_nat(n));
    }
}

} // verus!
