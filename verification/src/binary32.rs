//! IEEE 754 single-precision numbers, computed with integers.
use crate::powers;
use crate::rounding;
use vstd::arithmetic::div_mod::*;
use vstd::arithmetic::power2::*;
use vstd::prelude::*;

verus! {

/// A single-precision number, held as its bit pattern: the sign in the highest
/// bit, then eight bits of exponent and 23 bits of fraction.
///
/// Arithmetic rounds to nearest, ties to even, as the standard prescribes. Every
/// operation that has no numerical result gives the one quiet NaN [`Binary32::quiet_nan`].
#[derive(Debug, Clone, Copy)]
pub struct Binary32 {
    pub bits: u32,
}

impl Binary32 {
    /// The number `+0`.
    #[verifier::allow_in_spec]
    pub fn plus_zero() -> Binary32
        returns
            (Binary32 { bits: 0 }),
    {
        Binary32 { bits: 0 }
    }

    /// The number `-0`.
    #[verifier::allow_in_spec]
    pub fn minus_zero() -> Binary32
        returns
            (Binary32 { bits: 0x8000_0000 }),
    {
        Binary32 { bits: 0x8000_0000 }
    }

    /// The number `1`.
    #[verifier::allow_in_spec]
    pub fn one() -> Binary32
        returns
            (Binary32 { bits: 0x3F80_0000 }),
    {
        Binary32 { bits: 0x3F80_0000 }
    }

    /// The NaN that arithmetic gives.
    #[verifier::allow_in_spec]
    pub fn quiet_nan() -> Binary32
        returns
            (Binary32 { bits: 0x7FC0_0000 }),
    {
        Binary32 { bits: 0x7FC0_0000 }
    }

    /// The sign bit.
    pub open spec fn negative(self) -> bool {
        self.bits >= 0x8000_0000
    }

    /// The pattern without its sign bit.
    pub open spec fn magnitude(self) -> nat {
        if self.negative() {
            (self.bits - 0x8000_0000) as nat
        } else {
            self.bits as nat
        }
    }

    /// Not a number.
    pub open spec fn nan(self) -> bool {
        self.magnitude() > rounding::INFINITY
    }

    /// One of the two infinities.
    pub open spec fn infinite(self) -> bool {
        self.magnitude() == rounding::INFINITY
    }

    /// Neither an infinity nor NaN.
    pub open spec fn finite(self) -> bool {
        self.magnitude() < rounding::INFINITY
    }

    /// One of the two zeros.
    pub open spec fn zero(self) -> bool {
        self.magnitude() == 0
    }

    /// The size of the number, in units of `2^-149`.
    pub open spec fn size(self) -> nat {
        rounding::units(self.magnitude())
    }

    /// The number, in units of `2^-149`. The infinities are at `2^277` and `-2^277`,
    /// beyond every finite number.
    pub open spec fn value(self) -> int {
        if self.negative() {
            -(self.size() as int)
        } else {
            self.size() as int
        }
    }

    /// The number with the given sign and magnitude pattern.
    pub open spec fn of_parts(negative: bool, magnitude: nat) -> Binary32 {
        Binary32 {
            bits: (if negative {
                magnitude + 0x8000_0000
            } else {
                magnitude
            }) as u32,
        }
    }

    /// The number nearest to `n`.
    pub open spec fn of_nat(n: nat) -> Binary32 {
        Binary32::of_parts(false, rounding::nearest(n * pow2(149), 1))
    }

    /// The number with the opposite sign.
    pub open spec fn negated(self) -> Binary32 {
        Binary32::of_parts(!self.negative(), self.magnitude())
    }

    /// The number without its sign.
    pub open spec fn absolute(self) -> Binary32 {
        Binary32::of_parts(false, self.magnitude())
    }

    /// The rounded sum. A sum of zero is `+0`, unless both summands are `-0`.
    pub open spec fn plus(self, other: Binary32) -> Binary32 {
        let sum = self.value() + other.value();
        if self.nan() || other.nan() {
            Binary32::quiet_nan()
        } else if self.infinite() && other.infinite() && self.negative() != other.negative() {
            Binary32::quiet_nan()
        } else if self.infinite() {
            self
        } else if other.infinite() {
            other
        } else if sum == 0 {
            Binary32::of_parts(self.negative() && other.negative(), 0)
        } else if sum < 0 {
            Binary32::of_parts(true, rounding::nearest((-sum) as nat, 1))
        } else {
            Binary32::of_parts(false, rounding::nearest(sum as nat, 1))
        }
    }

    /// The rounded difference.
    pub open spec fn minus(self, other: Binary32) -> Binary32 {
        self.plus(other.negated())
    }

    /// The rounded product.
    pub open spec fn times(self, other: Binary32) -> Binary32 {
        let negative = self.negative() != other.negative();
        if self.nan() || other.nan() {
            Binary32::quiet_nan()
        } else if (self.infinite() && other.zero()) || (self.zero() && other.infinite()) {
            Binary32::quiet_nan()
        } else if self.infinite() || other.infinite() {
            Binary32::of_parts(negative, rounding::INFINITY as nat)
        } else {
            Binary32::of_parts(negative, rounding::nearest(self.size() * other.size(), pow2(149)))
        }
    }

    /// The rounded quotient.
    pub open spec fn over(self, other: Binary32) -> Binary32 {
        let negative = self.negative() != other.negative();
        if self.nan() || other.nan() {
            Binary32::quiet_nan()
        } else if (self.infinite() && other.infinite()) || (self.zero() && other.zero()) {
            Binary32::quiet_nan()
        } else if self.infinite() || other.zero() {
            Binary32::of_parts(negative, rounding::INFINITY as nat)
        } else if other.infinite() {
            Binary32::of_parts(negative, 0)
        } else {
            Binary32::of_parts(negative, rounding::nearest(self.size() * pow2(149), other.size()))
        }
    }

    /// Ordered and strictly smaller. The two zeros are equal; NaN is not ordered.
    pub open spec fn below(self, other: Binary32) -> bool {
        !self.nan() && !other.nan() && self.value() < other.value()
    }

    /// Ordered and not greater.
    pub open spec fn at_most(self, other: Binary32) -> bool {
        !self.nan() && !other.nan() && self.value() <= other.value()
    }

    /// The greater of the two, `self` where they are equal; the other one where
    /// one of them is NaN.
    pub open spec fn greater_of(self, other: Binary32) -> Binary32 {
        if self.nan() || self.below(other) {
            other
        } else {
            self
        }
    }

    /// The number moved into the interval from `low` to `high`; NaN stays.
    pub open spec fn clamped(self, low: Binary32, high: Binary32) -> Binary32 {
        if self.below(low) {
            low
        } else if high.below(self) {
            high
        } else {
            self
        }
    }
}

/// Only the zero pattern stands for zero, and infinity is beyond every finite number.
pub proof fn lemma_size(x: Binary32)
    ensures
        (x.size() == 0) == x.zero(),
        x.finite() ==> x.size() < rounding::units(rounding::INFINITY as nat),
{
    lemma2_to64();
    if !x.zero() {
        rounding::lemma_units_ordered(0, x.magnitude());
    }
    if x.finite() {
        rounding::lemma_units_ordered(x.magnitude(), rounding::INFINITY as nat);
    }
}

/// Magnitude patterns compare as the sizes.
pub proof fn lemma_size_ordered(x: Binary32, y: Binary32)
    ensures
        (x.magnitude() < y.magnitude()) == (x.size() < y.size()),
        (x.magnitude() == y.magnitude()) == (x.size() == y.size()),
{
    if x.magnitude() < y.magnitude() {
        rounding::lemma_units_ordered(x.magnitude(), y.magnitude());
    } else if y.magnitude() < x.magnitude() {
        rounding::lemma_units_ordered(y.magnitude(), x.magnitude());
    }
}

/// Numbers compare as their patterns do: by sign first, then by magnitude, upwards
/// where both are positive and downwards where both are negative. Only the two
/// zeros differ in their patterns and not in their order.
pub proof fn law_ordered_by_pattern(x: Binary32, y: Binary32)
    requires
        !x.nan(),
        !y.nan(),
    ensures
        x.below(y) <==> !(x.zero() && y.zero()) && if x.negative() {
            !y.negative() || y.magnitude() < x.magnitude()
        } else {
            !y.negative() && x.magnitude() < y.magnitude()
        },
{
    lemma_size(x);
    lemma_size(y);
    lemma_size_ordered(x, y);
    lemma_size_ordered(y, x);
}

impl Binary32 {
    /// The number with the given bit pattern.
    pub fn from_bits(bits: u32) -> (r: Binary32)
        ensures
            r.bits == bits,
    {
        Binary32 { bits }
    }

    /// The bit pattern of the number.
    pub fn to_bits(self) -> (bits: u32)
        ensures
            bits == self.bits,
    {
        self.bits
    }

    /// Whether the sign bit is set.
    pub fn is_negative(self) -> (b: bool)
        ensures
            b == self.negative(),
    {
        self.bits >= 0x8000_0000
    }

    /// The pattern without its sign bit.
    fn pattern(self) -> (m: u32)
        ensures
            m == self.magnitude(),
            m < 0x8000_0000,
    {
        if self.bits >= 0x8000_0000 {
            self.bits - 0x8000_0000
        } else {
            self.bits
        }
    }

    /// The number with the given sign and magnitude pattern.
    fn assemble(negative: bool, m: u32) -> (r: Binary32)
        requires
            m < 0x8000_0000,
        ensures
            r == Binary32::of_parts(negative, m as nat),
    {
        if negative {
            Binary32 { bits: m + 0x8000_0000 }
        } else {
            Binary32 { bits: m }
        }
    }

    /// Exponent and significand of a magnitude pattern.
    fn split(m: u32) -> (r: (i32, u32))
        requires
            m <= rounding::INFINITY,
        ensures
            r.0 == rounding::exponent(m as nat),
            r.1 == rounding::significand(m as nat),
            0 <= r.0 <= 254,
            r.1 < 0x100_0000,
    {
        if m < 0x100_0000 {
            (0, m)
        } else {
            let k: u32 = m / 0x80_0000 - 1;
            (k as i32, m - k * 0x80_0000)
        }
    }

    /// Exponent and significand of a finite number.
    pub(crate) fn split_magnitude(self) -> (r: (i32, u32))
        requires
            self.finite(),
        ensures
            0 <= r.0 <= 253,
            r.1 < 0x100_0000,
            self.size() == r.1 * pow2(r.0 as nat),
    {
        let m = self.pattern();
        proof {
            rounding::lemma_pattern(m as nat);
        }
        Binary32::split(m)
    }

    /// Whether this is one of the two infinities.
    pub fn is_infinite(self) -> (b: bool)
        ensures
            b == self.infinite(),
    {
        self.pattern() == rounding::INFINITY
    }

    /// Whether this is not a number.
    pub fn is_nan(self) -> (b: bool)
        ensures
            b == self.nan(),
    {
        self.pattern() > rounding::INFINITY
    }

    /// The number with the opposite sign.
    pub fn neg(self) -> (r: Binary32)
        ensures
            r == self.negated(),
    {
        Binary32::assemble(!self.is_negative(), self.pattern())
    }

    /// The number without its sign.
    pub fn abs(self) -> (r: Binary32)
        ensures
            r == self.absolute(),
    {
        Binary32::assemble(false, self.pattern())
    }

    /// Whether `self < other`; false where one of them is NaN.
    pub fn lt(self, other: Binary32) -> (b: bool)
        ensures
            b == self.below(other),
    {
        let x = self.pattern();
        let y = other.pattern();
        if x > rounding::INFINITY || y > rounding::INFINITY {
            return false;
        }
        proof {
            law_ordered_by_pattern(self, other);
        }
        if x == 0 && y == 0 {
            false
        } else if self.is_negative() {
            if other.is_negative() {
                y < x
            } else {
                true
            }
        } else {
            !other.is_negative() && x < y
        }
    }

    /// Whether `self > other`; false where one of them is NaN.
    pub fn gt(self, other: Binary32) -> (b: bool)
        ensures
            b == other.below(self),
    {
        other.lt(self)
    }

    /// Whether `self <= other`; false where one of them is NaN.
    pub fn le(self, other: Binary32) -> (b: bool)
        ensures
            b == self.at_most(other),
    {
        !self.is_nan() && !other.is_nan() && !other.lt(self)
    }

    /// Whether `self >= other`; false where one of them is NaN.
    pub fn ge(self, other: Binary32) -> (b: bool)
        ensures
            b == other.at_most(self),
    {
        other.le(self)
    }

    /// The greater of the two; where one of them is NaN, the other one.
    pub fn max(self, other: Binary32) -> (r: Binary32)
        ensures
            r == self.greater_of(other),
    {
        if self.is_nan() || self.lt(other) {
            other
        } else {
            self
        }
    }

    /// The number moved into the interval from `low` to `high`; NaN stays.
    pub fn clamp(self, low: Binary32, high: Binary32) -> (r: Binary32)
        requires
            low.at_most(high),
        ensures
            r == self.clamped(low, high),
    {
        if self.lt(low) {
            low
        } else if self.gt(high) {
            high
        } else {
            self
        }
    }

    /// The number nearest to `n`.
    pub fn from_usize(n: usize) -> (r: Binary32)
        ensures
            r == Binary32::of_nat(n as nat),
    {
        if n == 0 {
            assert(0 * pow2(149) == 0);
            assert(rounding::nearest(0, 1) == 0) by {
                lemma2_to64();
            }
            return Binary32::plus_zero();
        }
        Binary32::assemble(false, rounding::nearest_scaled(n as u128, 1, 149))
    }
}

/// A summand that is far below the last digit of the other does not change it.
proof fn lemma_absorbed(big: nat, small: nat)
    requires
        big < rounding::INFINITY,
        small < rounding::INFINITY,
        rounding::exponent(big) > rounding::exponent(small) + 100,
    ensures
        rounding::nearest(rounding::units(big) + rounding::units(small), 1) == big,
        rounding::units(small) < rounding::units(big),
        rounding::nearest((rounding::units(big) - rounding::units(small)) as nat, 1) == big,
{
    rounding::lemma_pattern(big);
    rounding::lemma_pattern(small);
    let k = rounding::exponent(big);
    let s = rounding::significand(big);
    let x = rounding::units(small);
    let w = pow2(k);
    let h = pow2((k - 1) as nat);
    assert(8 * x < w) by {
        let j = rounding::exponent(small);
        let v = pow2(j);
        powers::lemma_pow2_table();
        lemma_pow2_adds(j, 24);
        lemma_pow2_adds(j + 24, 3);
        lemma2_to64();
        powers::lemma_pow2_le(j + 27, k);
        lemma_pow2_pos(j);
        let t = rounding::significand(small);
        assert(t * v < 0x100_0000 * v) by (nonlinear_arith)
            requires
                t < 0x100_0000,
                v > 0,
        ;
        assert(8 * (0x100_0000 * v) == pow2(j + 27));
    }
    lemma_pow2_unfold(k);
    lemma_pow2_pos((k - 1) as nat);
    assert(1 * w == w && 1 * h == h);
    assert(s * w >= 0x80_0000 * w && s * w + w <= 0x100_0000 * w) by (nonlinear_arith)
        requires
            0x80_0000 <= s < 0x100_0000,
            w > 0,
    ;
    let up = s * w + x;
    rounding::lemma_nearest_in_binade(up, 1, k);
    lemma_fundamental_div_mod_converse(up as int, w as int, s as int, x as int);
    let down = (s * w - x) as nat;
    if x == 0 {
        assert(down == up);
    } else if s > 0x80_0000 {
        assert(s * w - w >= 0x80_0000 * w && s * w - w == (s - 1) * w) by (nonlinear_arith)
            requires
                s > 0x80_0000,
                w > 0,
        ;
        rounding::lemma_nearest_in_binade(down, 1, k);
        lemma_fundamental_div_mod_converse(down as int, w as int, s - 1, w - x);
    } else {
        rounding::lemma_nearest_in_binade(down, 1, (k - 1) as nat);
        assert(s * w == 0x100_0000 * h);
        lemma_fundamental_div_mod_converse(down as int, h as int, 0xFF_FFFF, h - x);
    }
}

/// The product in units of `2^-149`, from the significands and exponents.
proof fn lemma_product(sa: nat, ka: nat, sb: nat, kb: nat)
    ensures
        rounding::nearest((sa * pow2(ka)) * (sb * pow2(kb)), pow2(149)) == rounding::nearest(
            rounding::scaled_numerator(sa * sb, ka + kb - 149),
            rounding::scaled_denominator(1, ka + kb - 149),
        ),
{
    let n = sa * sb;
    let e = ka + kb - 149;
    let va = pow2(ka);
    let vb = pow2(kb);
    lemma_pow2_adds(ka, kb);
    lemma_pow2_pos(149);
    lemma_pow2_pos(ka + kb);
    assert((sa * va) * (sb * vb) == (sa * sb) * (va * vb)) by (nonlinear_arith);
    if e >= 0 {
        let v = pow2(e as nat);
        lemma_pow2_adds(e as nat, 149);
        rounding::lemma_nearest_expanded(n * v, 1, pow2(149));
        assert(n * v * pow2(149) == n * (v * pow2(149))) by (nonlinear_arith);
        assert(1 * pow2(149) == pow2(149));
    } else {
        let v = pow2((-e) as nat);
        lemma_pow2_pos((-e) as nat);
        lemma_pow2_adds((-e) as nat, ka + kb);
        rounding::lemma_nearest_expanded(n, v, pow2(ka + kb));
        assert(1 * v == v);
    }
}

/// The quotient in units of `2^-149`, from the significands and exponents.
proof fn lemma_quotient(sa: nat, ka: nat, sb: nat, kb: nat)
    requires
        sb > 0,
    ensures
        rounding::nearest((sa * pow2(ka)) * pow2(149), sb * pow2(kb)) == rounding::nearest(
            rounding::scaled_numerator(sa, ka + 149 - kb),
            rounding::scaled_denominator(sb, ka + 149 - kb),
        ),
{
    let e = ka + 149 - kb;
    let va = pow2(ka);
    lemma_pow2_adds(ka, 149);
    assert((sa * va) * pow2(149) == sa * (va * pow2(149))) by (nonlinear_arith);
    if e >= 0 {
        let v = pow2(e as nat);
        let c = pow2(kb);
        lemma_pow2_pos(kb);
        lemma_pow2_adds(e as nat, kb);
        rounding::lemma_nearest_expanded(sa * v, sb, c);
        assert(sa * v * c == sa * (v * c)) by (nonlinear_arith);
    } else {
        let v = pow2((-e) as nat);
        let c = pow2(ka + 149);
        lemma_pow2_pos((-e) as nat);
        lemma_pow2_pos(ka + 149);
        lemma_pow2_adds((-e) as nat, ka + 149);
        assert(sb * v > 0) by (nonlinear_arith)
            requires
                sb > 0,
                v > 0,
        ;
        rounding::lemma_nearest_expanded(sa, sb * v, c);
        assert(sb * v * c == sb * (v * c)) by (nonlinear_arith);
    }
}

/// Zero units round to zero.
pub proof fn lemma_nearest_zero(q: nat)
    requires
        q > 0,
    ensures
        rounding::nearest(0, q) == 0,
{
    lemma2_to64();
    lemma_div_of0(q as int);
    lemma_small_mod(0, q);
    assert(q * 1 == q);
}

/// The sum of two patterns that share the exponent `k` of the smaller one.
proof fn lemma_aligned(sa: nat, d: nat, k: nat, sb: nat)
    requires
        sb <= sa * pow2(d),
    ensures
        sa * pow2(k + d) + sb * pow2(k) == (sa * pow2(d) + sb) * pow2(k),
        sa * pow2(k + d) >= sb * pow2(k),
        sa * pow2(k + d) - sb * pow2(k) == (sa * pow2(d) - sb) * pow2(k),
{
    let v = pow2(d);
    let w = pow2(k);
    lemma_pow2_adds(k, d);
    assert(sa * (w * v) + sb * w == (sa * v + sb) * w) by (nonlinear_arith);
    assert(sa * (w * v) - sb * w == (sa * v - sb) * w) by (nonlinear_arith);
    assert((sa * v - sb) * w >= 0) by (nonlinear_arith)
        requires
            sa * v >= sb,
            w >= 0,
    ;
}

/// The magnitude pattern of the sum (`subtract` false) or of the difference of two
/// sizes, the first of which is not the smaller one; `None` where it is zero.
fn combine(a: u32, b: u32, subtract: bool) -> (m: Option<u32>)
    requires
        b <= a < rounding::INFINITY,
    ensures
        ({
            let x = rounding::units(a as nat);
            let y = rounding::units(b as nat);
            let n = if subtract {
                x - y
            } else {
                x + y as int
            };
            &&& n >= 0
            &&& m is None <==> n == 0
            &&& m matches Some(r) ==> r == rounding::nearest(n as nat, 1) && r
                <= rounding::INFINITY
        }),
{
    let (ka, sa) = Binary32::split(a);
    let (kb, sb) = Binary32::split(b);
    let d: i32 = ka - kb;
    proof {
        rounding::lemma_pattern(a as nat);
        rounding::lemma_pattern(b as nat);
        if b < a {
            rounding::lemma_units_ordered(b as nat, a as nat);
        }
    }
    if d > 100 {
        proof {
            lemma_absorbed(a as nat, b as nat);
        }
        return Some(a);
    }
    let c = powers::power_of_two(d as u32);
    let ghost w = pow2(kb as nat);
    proof {
        powers::lemma_pow2_table();
        powers::lemma_pow2_le(d as nat, 101);
        lemma_pow2_adds(101, 25);
        lemma2_to64();
        lemma_pow2_pos(d as nat);
        lemma_pow2_pos(kb as nat);
        assert(sa * c <= 0x100_0000 * c && (sa >= sb ==> sa * c >= sb) && (c >= 2 && sa >= 0x80_0000
            ==> sa * c >= 0x100_0000)) by (nonlinear_arith)
            requires
                0 <= sa < 0x100_0000,
                c >= 1,
        ;
        if d > 0 {
            lemma_pow2_unfold(d as nat);
            lemma_pow2_pos((d - 1) as nat);
        }
        lemma_aligned(sa as nat, d as nat, kb as nat, sb as nat);
    }
    let high: u128 = (sa as u128) * c;
    let n: u128 = if subtract {
        high - (sb as u128)
    } else {
        high + (sb as u128)
    };
    proof {
        assert((n * w == 0) == (n == 0)) by (nonlinear_arith)
            requires
                w > 0,
        ;
    }
    if n == 0 {
        None
    } else {
        Some(rounding::nearest_scaled(n, 1, kb))
    }
}

impl Binary32 {
    /// The rounded sum.
    pub fn add(self, other: Binary32) -> (r: Binary32)
        ensures
            r == self.plus(other),
    {
        let x = self.pattern();
        let y = other.pattern();
        if x > rounding::INFINITY || y > rounding::INFINITY {
            return Binary32::quiet_nan();
        }
        if x == rounding::INFINITY || y == rounding::INFINITY {
            if x == y && self.is_negative() != other.is_negative() {
                return Binary32::quiet_nan();
            }
            return if x == rounding::INFINITY {
                self
            } else {
                other
            };
        }
        let subtract = self.is_negative() != other.is_negative();
        proof {
            lemma_size(self);
            lemma_size(other);
            lemma_size_ordered(self, other);
            lemma_size_ordered(other, self);
        }
        let (m, negative) = if x >= y {
            (combine(x, y, subtract), self.is_negative())
        } else {
            (combine(y, x, subtract), other.is_negative())
        };
        match m {
            Some(m) => Binary32::assemble(negative, m),
            None => Binary32::assemble(self.is_negative() && other.is_negative(), 0),
        }
    }

    /// The rounded difference.
    pub fn sub(self, other: Binary32) -> (r: Binary32)
        ensures
            r == self.minus(other),
    {
        self.add(other.neg())
    }

    /// The rounded product.
    pub fn mul(self, other: Binary32) -> (r: Binary32)
        ensures
            r == self.times(other),
    {
        let x = self.pattern();
        let y = other.pattern();
        let negative = self.is_negative() != other.is_negative();
        if x > rounding::INFINITY || y > rounding::INFINITY {
            return Binary32::quiet_nan();
        }
        if x == rounding::INFINITY || y == rounding::INFINITY {
            if x == 0 || y == 0 {
                return Binary32::quiet_nan();
            }
            return Binary32::assemble(negative, rounding::INFINITY);
        }
        proof {
            lemma_size(self);
            lemma_size(other);
            lemma_pow2_pos(149);
        }
        if x == 0 || y == 0 {
            proof {
                assert(self.size() * other.size() == 0) by (nonlinear_arith)
                    requires
                        self.size() == 0 || other.size() == 0,
                ;
                lemma_nearest_zero(pow2(149));
            }
            return Binary32::assemble(negative, 0);
        }
        let (ka, sa) = Binary32::split(x);
        let (kb, sb) = Binary32::split(y);
        proof {
            lemma_product(sa as nat, ka as nat, sb as nat, kb as nat);
            assert(0 < sa && 0 < sb) by {
                rounding::lemma_pattern(x as nat);
                rounding::lemma_pattern(y as nat);
            }
            assert(0 < sa * sb < 0x1_0000_0000_0000) by (nonlinear_arith)
                requires
                    0 < sa < 0x100_0000,
                    0 < sb < 0x100_0000,
            ;
        }
        let n: u128 = (sa as u128) * (sb as u128);
        Binary32::assemble(negative, rounding::nearest_scaled(n, 1, ka + kb - 149))
    }

    /// The rounded quotient.
    pub fn div(self, other: Binary32) -> (r: Binary32)
        ensures
            r == self.over(other),
    {
        let x = self.pattern();
        let y = other.pattern();
        let negative = self.is_negative() != other.is_negative();
        if x > rounding::INFINITY || y > rounding::INFINITY {
            return Binary32::quiet_nan();
        }
        if (x == rounding::INFINITY && y == rounding::INFINITY) || (x == 0 && y == 0) {
            return Binary32::quiet_nan();
        }
        if x == rounding::INFINITY || y == 0 {
            return Binary32::assemble(negative, rounding::INFINITY);
        }
        if y == rounding::INFINITY {
            return Binary32::assemble(negative, 0);
        }
        proof {
            lemma_size(self);
            lemma_size(other);
        }
        if x == 0 {
            proof {
                assert(0 * pow2(149) == 0);
                lemma_nearest_zero(other.size());
            }
            return Binary32::assemble(negative, 0);
        }
        let (ka, sa) = Binary32::split(x);
        let (kb, sb) = Binary32::split(y);
        proof {
            assert(0 < sa && 0 < sb) by {
                rounding::lemma_pattern(x as nat);
                rounding::lemma_pattern(y as nat);
            }
            lemma_quotient(sa as nat, ka as nat, sb as nat, kb as nat);
        }
        let m = rounding::nearest_scaled(sa as u128, sb as u128, ka + 149 - kb);
        Binary32::assemble(negative, m)
    }
}

/// A number is determined by its sign and its magnitude pattern.
pub proof fn lemma_reassembled(x: Binary32)
    ensures
        Binary32::of_parts(x.negative(), x.magnitude()) == x,
        x.negated().negated() == x,
        x.negated().magnitude() == x.magnitude(),
        x.negated().negative() != x.negative(),
        x.negated().value() == -x.value(),
        x.absolute().magnitude() == x.magnitude(),
        x.absolute().value() == x.size(),
        !x.absolute().negative(),
{
}

/// At least one unit never rounds to zero.
pub proof fn lemma_nearest_positive(n: nat)
    requires
        n > 0,
    ensures
        rounding::nearest(n, 1) > 0,
        rounding::nearest(n, 1) <= rounding::INFINITY,
{
    rounding::lemma_units_least();
    rounding::lemma_nearest_exact(1, 1);
    rounding::lemma_nearest_monotone(1, 1, n, 1);
    rounding::lemma_nearest_range(n, 1);
}

/// A finite number minus itself is `+0`.
pub proof fn lemma_minus_itself(x: Binary32)
    requires
        x.finite(),
    ensures
        x.minus(x) == Binary32::plus_zero(),
{
    lemma_reassembled(x);
}

/// Swapping the operands of a difference changes at most its sign.
pub proof fn lemma_minus_swapped(x: Binary32, y: Binary32)
    ensures
        x.minus(y).nan() == y.minus(x).nan(),
        x.minus(y).nan() ==> x.minus(y) == y.minus(x),
        x.minus(y).absolute() == y.minus(x).absolute(),
        x.minus(y).nan() || x.minus(y).value() == -y.minus(x).value(),
        x.minus(y).nan() || x.minus(y).zero() || x.minus(y) == y.minus(x).negated(),
        x.minus(y).zero() ==> y.minus(x).zero(),
{
    lemma_reassembled(x);
    lemma_reassembled(y);
    rounding::lemma_units_least();
    let d = x.value() - y.value();
    if d > 0 {
        lemma_nearest_positive(d as nat);
    } else if d < 0 {
        lemma_nearest_positive((-d) as nat);
    }
}

/// The sign of a difference tells which operand is greater.
pub proof fn lemma_minus_sign(x: Binary32, y: Binary32)
    requires
        x.finite(),
        y.finite(),
    ensures
        !x.minus(y).nan(),
        Binary32::plus_zero().below(x.minus(y)) <==> y.below(x),
        x.minus(y).below(Binary32::plus_zero()) <==> x.below(y),
{
    lemma_reassembled(y);
    rounding::lemma_units_least();
    let d = x.value() - y.value();
    if d > 0 {
        lemma_nearest_positive(d as nat);
        lemma_size(x.minus(y));
    } else if d < 0 {
        lemma_nearest_positive((-d) as nat);
        lemma_size(x.minus(y));
    }
}

/// The size of a difference of finite numbers is the rounded distance between them.
pub proof fn lemma_minus_size(x: Binary32, y: Binary32)
    requires
        x.finite(),
        y.finite(),
    ensures
        !x.minus(y).nan(),
        x.value() >= y.value() ==> x.minus(y).magnitude() == rounding::nearest(
            (x.value() - y.value()) as nat,
            1,
        ),
        x.value() <= y.value() ==> x.minus(y).magnitude() == rounding::nearest(
            (y.value() - x.value()) as nat,
            1,
        ),
        x.value() >= y.value() ==> x.minus(y).value() >= 0,
{
    lemma_reassembled(y);
    rounding::lemma_units_least();
    let d = x.value() - y.value();
    if d > 0 {
        lemma_nearest_positive(d as nat);
    } else if d < 0 {
        lemma_nearest_positive((-d) as nat);
    } else {
        lemma_nearest_zero(1);
    }
}

/// A square is not negative, unless it is NaN, which only NaN gives; swapping the sign
/// does not change it.
pub proof fn lemma_square(x: Binary32)
    ensures
        x.times(x).nan() || !x.times(x).negative(),
        x.times(x).nan() == x.nan(),
        x.negated().times(x.negated()) == x.times(x),
{
    lemma_reassembled(x);
    lemma_pow2_pos(149);
    rounding::lemma_nearest_range(x.size() * x.size(), pow2(149));
}

/// A sum of numbers without sign has no sign, unless it is NaN.
pub proof fn lemma_plus_unsigned(x: Binary32, y: Binary32)
    requires
        x.nan() || !x.negative() || x.zero(),
        y.nan() || !y.negative(),
    ensures
        x.plus(y).nan() || !x.plus(y).negative(),
{
    lemma_size(x);
    lemma_size(y);
    let s = x.value() + y.value();
    if s > 0 {
        lemma_nearest_positive(s as nat);
    }
}

/// Dividing by a positive integer keeps the sign.
pub proof fn lemma_over_count(x: Binary32, n: nat)
    requires
        n > 0,
    ensures
        !Binary32::of_nat(n).nan(),
        !Binary32::of_nat(n).negative(),
        !Binary32::of_nat(n).zero(),
        x.nan() || !x.negative() ==> x.over(Binary32::of_nat(n)).nan() || !x.over(
            Binary32::of_nat(n),
        ).negative(),
{
    lemma_pow2_pos(149);
    assert(n * pow2(149) > 0) by (nonlinear_arith)
        requires
            n > 0,
            pow2(149) > 0,
    ;
    lemma_nearest_positive(n * pow2(149));
    let y = Binary32::of_nat(n);
    lemma_size(y);
    rounding::lemma_nearest_range(x.size() * pow2(149), y.size());
}

/// Zero divided by a positive integer that is finite is zero.
pub proof fn lemma_zero_over_count(n: nat)
    requires
        n > 0,
    ensures
        Binary32::plus_zero().over(Binary32::of_nat(n)) == Binary32::plus_zero(),
{
    lemma_over_count(Binary32::plus_zero(), n);
    let y = Binary32::of_nat(n);
    lemma_size(y);
    rounding::lemma_units_least();
    assert(0 * pow2(149) == 0);
    lemma_nearest_zero(y.size());
}

/// The number of a count that fits a machine word is finite, and counts keep their order.
pub proof fn lemma_count_ordered(c: nat, n: nat)
    requires
        c <= n <= usize::MAX,
    ensures
        Binary32::of_nat(n).finite(),
        !Binary32::of_nat(n).negative(),
        Binary32::of_nat(c).finite(),
        !Binary32::of_nat(c).negative(),
        Binary32::of_nat(c).magnitude() <= Binary32::of_nat(n).magnitude(),
        Binary32::of_nat(c).size() <= Binary32::of_nat(n).size(),
{
    let u = pow2(149);
    lemma2_to64_rest();
    lemma_pow2_adds(64, 149);
    rounding::lemma_nearest_short(1, 213);
    assert(c * u <= n * u && n * u <= 0x1_0000_0000_0000_0000 * u) by (nonlinear_arith)
        requires
            c <= n <= 0x1_0000_0000_0000_0000,
            u >= 0,
    ;
    rounding::lemma_nearest_monotone(c * u, 1, n * u, 1);
    rounding::lemma_nearest_monotone(n * u, 1, pow2(213), 1);
    lemma_size_ordered(Binary32::of_nat(c), Binary32::of_nat(n));
    lemma_size_ordered(Binary32::of_nat(n), Binary32::of_nat(c));
}

/// The number of a count is at least half the count.
pub proof fn lemma_count_size(n: nat)
    requires
        n <= usize::MAX,
    ensures
        n * pow2(149) <= 2 * Binary32::of_nat(n).size(),
{
    lemma_count_ordered(n, n);
    rounding::lemma_nearest_range(n * pow2(149), 1);
    rounding::lemma_nearest_at_least_half(n * pow2(149));
}

} // verus!
