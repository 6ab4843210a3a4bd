//! Rounding of exact quotients to the nearest single-precision magnitude.
//!
//! A single-precision number without its sign is a 31-bit pattern. Read as a
//! number of *units* of `2^-149`, every pattern up to infinity stands for a
//! natural number: [`units`]. The patterns are ordered as the numbers they stand
//! for, and [`nearest`] picks the pattern whose number lies nearest to a quotient.
use crate::powers;
use vstd::arithmetic::div_mod::*;
use vstd::arithmetic::mul::*;
use vstd::arithmetic::power2::*;
use vstd::prelude::*;

verus! {

/// The pattern of infinity: the exponent field all ones, the fraction zero.
pub const INFINITY: u32 = 0x7F80_0000;

/// The natural number nearest to `p / q`; a tie goes to the even one.
pub open spec fn round_half_even(p: nat, q: nat) -> nat {
    let f = p / q;
    let r = p % q;
    if 2 * r < q || (2 * r == q && f % 2 == 0) {
        f
    } else {
        f + 1
    }
}

/// By how many binary digits `n` exceeds the 24 digits of a significand.
pub open spec fn excess_digits(n: nat) -> nat
    decreases n,
{
    if n < 0x100_0000 {
        0
    } else {
        1 + excess_digits(n / 2)
    }
}

/// The pattern nearest to `p / q` units: the quotient is cut to 24 significant
/// digits, the last one rounded half to even. What is too large becomes infinity.
pub open spec fn nearest(p: nat, q: nat) -> nat {
    let k = excess_digits(p / q);
    if k > 253 {
        INFINITY as nat
    } else {
        k * 0x80_0000 + round_half_even(p, q * pow2(k))
    }
}

/// The power of two by which the significand of pattern `m` is scaled.
pub open spec fn exponent(m: nat) -> nat {
    if m < 0x100_0000 {
        0
    } else {
        (m / 0x80_0000 - 1) as nat
    }
}

/// The significand of pattern `m`, its leading digit included.
pub open spec fn significand(m: nat) -> nat {
    (m - exponent(m) * 0x80_0000) as nat
}

/// The number of units of `2^-149` that pattern `m` stands for. Infinity stands
/// for `2^277`, which is above every finite number.
pub open spec fn units(m: nat) -> nat {
    significand(m) * pow2(exponent(m))
}

/// A number has `k` excess digits exactly when it lies in the `k`-th binade.
pub proof fn lemma_excess_digits(n: nat, k: nat)
    requires
        n < 0x100_0000 * pow2(k),
        k == 0 || n >= 0x80_0000 * pow2(k),
    ensures
        excess_digits(n) == k,
    decreases k,
{
    lemma2_to64();
    if k > 0 {
        let j = (k - 1) as nat;
        lemma_pow2_unfold(k);
        lemma_pow2_pos(j);
        lemma_excess_digits(n / 2, j);
    }
}

/// The binade that the excess digits name.
pub proof fn lemma_excess_digits_bounds(n: nat)
    ensures
        n < 0x100_0000 * pow2(excess_digits(n)),
        excess_digits(n) > 0 ==> n >= 0x80_0000 * pow2(excess_digits(n)),
    decreases n,
{
    lemma2_to64();
    if n >= 0x100_0000 {
        let h = n / 2;
        lemma_excess_digits_bounds(h);
        lemma_pow2_unfold(excess_digits(n));
    }
}

/// Rounding does not depend on how a fraction is expanded.
pub proof fn lemma_round_expanded(p: nat, q: nat, c: nat)
    requires
        q > 0,
        c > 0,
    ensures
        round_half_even(p * c, q * c) == round_half_even(p, q),
{
    powers::lemma_expand_fraction(p, q, c);
    let r = p % q;
    assert((2 * (c * r) < q * c) == (2 * r < q)) by (nonlinear_arith)
        requires
            c > 0,
    ;
    assert((2 * (c * r) == q * c) == (2 * r == q)) by (nonlinear_arith)
        requires
            c > 0,
    ;
}

/// The nearest pattern does not depend on how a fraction is expanded.
pub proof fn lemma_nearest_expanded(p: nat, q: nat, c: nat)
    requires
        q > 0,
        c > 0,
    ensures
        nearest(p * c, q * c) == nearest(p, q),
{
    powers::lemma_expand_fraction(p, q, c);
    let k = excess_digits(p / q);
    lemma_pow2_pos(k);
    assert(q * pow2(k) > 0) by (nonlinear_arith)
        requires
            q > 0,
            pow2(k) > 0,
    ;
    lemma_round_expanded(p, q * pow2(k), c);
    assert(q * pow2(k) * c == q * c * pow2(k)) by (nonlinear_arith);
}

/// A rounded quotient lies between the bounds that enclose the quotient.
pub proof fn lemma_round_bounds(p: nat, q: nat, lo: nat, hi: nat)
    requires
        q > 0,
        lo * q <= p <= hi * q,
    ensures
        lo <= round_half_even(p, q) <= hi,
{
    let f = p / q;
    let r = p % q;
    lemma_fundamental_div_mod(p as int, q as int);
    assert(lo <= f) by (nonlinear_arith)
        requires
            lo * q <= p,
            p == q * f + r,
            0 <= r < q,
    ;
    assert(f <= hi && (r > 0 ==> f < hi)) by (nonlinear_arith)
        requires
            p <= hi * q,
            p == q * f + r,
            0 <= r < q,
    ;
}

/// A quotient that is a natural number is its own rounding.
pub proof fn lemma_round_exact(f: nat, q: nat)
    requires
        q > 0,
    ensures
        round_half_even(f * q, q) == f,
{
    lemma_round_bounds(f * q, q, f, f);
}

/// Rounding to a natural number is monotone.
pub proof fn lemma_round_monotone(p1: nat, q1: nat, p2: nat, q2: nat)
    requires
        q1 > 0,
        q2 > 0,
        p1 * q2 <= p2 * q1,
    ensures
        round_half_even(p1, q1) <= round_half_even(p2, q2),
{
    // Over the common denominator the two dividends are ordered.
    let q = q1 * q2;
    let a = p1 * q2;
    let b = p2 * q1;
    assert(q > 0) by (nonlinear_arith)
        requires
            q1 > 0,
            q2 > 0,
            q == q1 * q2,
    ;
    lemma_round_expanded(p1, q1, q2);
    lemma_round_expanded(p2, q2, q1);
    assert(q2 * q1 == q) by (nonlinear_arith)
        requires
            q == q1 * q2,
    ;
    lemma_fundamental_div_mod(a as int, q as int);
    lemma_fundamental_div_mod(b as int, q as int);
    lemma_div_is_ordered(a as int, b as int, q as int);
    if a / q < b / q {
    } else {
        assert(a / q == b / q);
        assert(a % q <= b % q);
    }
}

/// The pattern nearest to a quotient in the `k`-th binade.
pub proof fn lemma_nearest_in_binade(p: nat, q: nat, k: nat)
    requires
        q > 0,
        k <= 253,
        p < q * (0x100_0000 * pow2(k)),
        k == 0 || p >= q * (0x80_0000 * pow2(k)),
    ensures
        q * pow2(k) > 0,
        nearest(p, q) == k * 0x80_0000 + round_half_even(p, q * pow2(k)),
        round_half_even(p, q * pow2(k)) <= 0x100_0000,
        k == 0 || round_half_even(p, q * pow2(k)) >= 0x80_0000,
{
    powers::lemma_quotient_below(p, q, 0x100_0000 * pow2(k));
    powers::lemma_quotient_below(p, q, 0x80_0000 * pow2(k));
    lemma_excess_digits(p / q, k);
    lemma_pow2_pos(k);
    let d = q * pow2(k);
    assert(d > 0) by (nonlinear_arith)
        requires
            q > 0,
            pow2(k) > 0,
            d == q * pow2(k),
    ;
    assert(q * (0x100_0000 * pow2(k)) == 0x100_0000 * d) by (nonlinear_arith)
        requires
            d == q * pow2(k),
    ;
    assert(q * (0x80_0000 * pow2(k)) == 0x80_0000 * d) by (nonlinear_arith)
        requires
            d == q * pow2(k),
    ;
    lemma_round_bounds(p, d, if k == 0 { 0 } else { 0x80_0000 }, 0x100_0000);
}

/// A quotient beyond the last binade rounds to infinity.
pub proof fn lemma_nearest_beyond(p: nat, q: nat)
    requires
        q > 0,
        p >= q * (0x100_0000 * pow2(253)),
    ensures
        nearest(p, q) == INFINITY,
{
    powers::lemma_quotient_below(p, q, 0x100_0000 * pow2(253));
    let n = p / q;
    let k = excess_digits(n);
    lemma_excess_digits_bounds(n);
    if k <= 253 {
        powers::lemma_pow2_le(k, 253);
    }
}

/// The bounds of the binade of a quotient, and the pattern nearest to it.
pub proof fn lemma_nearest_unfold(p: nat, q: nat)
    requires
        q > 0,
    ensures
        ({
            let k = excess_digits(p / q);
            &&& p < q * (0x100_0000 * pow2(k))
            &&& k > 0 ==> p >= q * (0x80_0000 * pow2(k))
            &&& k <= 253 ==> {
                &&& q * pow2(k) > 0
                &&& nearest(p, q) == k * 0x80_0000 + round_half_even(p, q * pow2(k))
                &&& round_half_even(p, q * pow2(k)) <= 0x100_0000
                &&& k > 0 ==> round_half_even(p, q * pow2(k)) >= 0x80_0000
            }
            &&& k > 253 ==> nearest(p, q) == INFINITY
        }),
{
    let k = excess_digits(p / q);
    lemma_excess_digits_bounds(p / q);
    powers::lemma_quotient_below(p, q, 0x100_0000 * pow2(k));
    powers::lemma_quotient_below(p, q, 0x80_0000 * pow2(k));
    if k <= 253 {
        lemma_nearest_in_binade(p, q, k);
    }
}

/// Rounding never leaves the patterns up to infinity.
pub proof fn lemma_nearest_range(p: nat, q: nat)
    requires
        q > 0,
    ensures
        nearest(p, q) <= INFINITY,
{
    lemma_nearest_unfold(p, q);
}

/// Where a pattern's exponent and significand lie.
pub proof fn lemma_pattern(m: nat)
    ensures
        m == exponent(m) * 0x80_0000 + significand(m),
        significand(m) < 0x100_0000,
        exponent(m) > 0 ==> significand(m) >= 0x80_0000,
        m <= INFINITY ==> exponent(m) <= 254,
        m < INFINITY ==> exponent(m) <= 253,
        m == INFINITY ==> significand(m) == 0x80_0000 && exponent(m) == 254,
{
}

/// The two smallest patterns stand for zero and one.
pub proof fn lemma_units_least()
    ensures
        units(0) == 0,
        units(1) == 1,
{
    lemma2_to64();
    assert(significand(0) == 0 && significand(1) == 1);
    assert(0 * pow2(0) == 0);
    assert(1 * pow2(0) == 1);
}

/// A number that is a pattern rounds to that pattern.
pub proof fn lemma_nearest_exact(m: nat, c: nat)
    requires
        m <= INFINITY,
        c > 0,
    ensures
        nearest(units(m) * c, c) == m,
{
    lemma_pattern(m);
    let k = exponent(m);
    let s = significand(m);
    let w = pow2(k);
    lemma_pow2_pos(k);
    lemma_nearest_expanded(units(m), 1, c);
    assert(1 * c == c);
    assert(s * w < 0x100_0000 * w) by (nonlinear_arith)
        requires
            s < 0x100_0000,
            w > 0,
    ;
    assert(s >= 0x80_0000 ==> s * w >= 0x80_0000 * w) by (nonlinear_arith)
        requires
            w > 0,
    ;
    if k <= 253 {
        lemma_nearest_in_binade(units(m), 1, k);
        lemma_round_exact(s, w);
        assert(1 * pow2(k) == w);
    } else {
        lemma_pow2_unfold(254);
        lemma_nearest_beyond(units(m), 1);
    }
}

/// Patterns are ordered as the numbers that they stand for.
pub proof fn lemma_units_ordered(a: nat, b: nat)
    requires
        a < b,
    ensures
        units(a) < units(b),
{
    lemma_pattern(a);
    lemma_pattern(b);
    let j = exponent(a);
    let k = exponent(b);
    let s = significand(a);
    let t = significand(b);
    lemma_pow2_pos(j);
    if j == k {
        assert(s * pow2(j) < t * pow2(j)) by (nonlinear_arith)
            requires
                s < t,
                pow2(j) > 0,
        ;
    } else {
        assert(j < k);
        lemma_pow2_unfold(j + 1);
        powers::lemma_pow2_le(j + 1, k);
        assert(s * pow2(j) < t * pow2(k)) by (nonlinear_arith)
            requires
                s < 0x100_0000,
                t >= 0x80_0000,
                pow2(k) >= 2 * pow2(j),
                pow2(j) > 0,
        ;
    }
}

/// The number that a pattern stands for, from its exponent and significand. A
/// significand that rounding carried to 25 digits is that of the next binade.
pub proof fn lemma_units_split(k: nat, s: nat)
    requires
        s <= 0x100_0000,
        k == 0 || s >= 0x80_0000,
    ensures
        units(k * 0x80_0000 + s) == s * pow2(k),
{
    let m = k * 0x80_0000 + s;
    lemma_pattern(m);
    if s < 0x100_0000 {
        assert(exponent(m) == k);
    } else {
        assert(exponent(m) == k + 1);
        assert(significand(m) == 0x80_0000);
        lemma_pow2_unfold(k + 1);
    }
}

/// A number of at most 24 digits, scaled by a power of two, is a pattern.
pub proof fn lemma_nearest_short(s: nat, k: nat)
    requires
        s < 0x100_0000,
        k <= 253,
    ensures
        units(nearest(s * pow2(k), 1)) == s * pow2(k),
        nearest(s * pow2(k), 1) < INFINITY,
{
    let w = pow2(k);
    let n = s * w;
    lemma_pow2_pos(k);
    assert(n < 0x100_0000 * w) by (nonlinear_arith)
        requires
            n == s * w,
            s < 0x100_0000,
            w > 0,
    ;
    lemma_nearest_unfold(n, 1);
    let j = excess_digits(n);
    assert(n / 1 == n);
    assert(j <= k) by {
        if j > k {
            lemma_pow2_unfold(k + 1);
            powers::lemma_pow2_le(k + 1, j);
        }
    }
    let v = pow2((k - j) as nat);
    let u = pow2(j);
    lemma_pow2_adds((k - j) as nat, j);
    assert(s * (v * u) == (s * v) * u) by (nonlinear_arith);
    lemma_pow2_pos(j);
    assert(1 * u == u);
    lemma_round_exact(s * v, u);
    assert(s * v < 0x100_0000) by (nonlinear_arith)
        requires
            (s * v) * u < 0x100_0000 * u,
            u > 0,
    ;
    lemma_units_split(j, s * v);
}

/// More digits never make a smaller number.
proof fn lemma_excess_digits_ordered(a: nat, b: nat)
    requires
        a <= b,
    ensures
        excess_digits(a) <= excess_digits(b),
    decreases a,
{
    if a >= 0x100_0000 {
        lemma_excess_digits_ordered(a / 2, b / 2);
    }
}

/// Rounding is monotone: the smaller quotient never gets the larger pattern.
pub proof fn lemma_nearest_monotone(p1: nat, q1: nat, p2: nat, q2: nat)
    requires
        q1 > 0,
        q2 > 0,
        p1 * q2 <= p2 * q1,
    ensures
        nearest(p1, q1) <= nearest(p2, q2),
{
    lemma_nearest_unfold(p1, q1);
    lemma_nearest_unfold(p2, q2);
    lemma_nearest_range(p1, q1);
    let k1 = excess_digits(p1 / q1);
    let k2 = excess_digits(p2 / q2);
    assert(p1 / q1 <= p2 / q2) by {
        powers::lemma_expand_fraction(p1, q1, q2);
        powers::lemma_expand_fraction(p2, q2, q1);
        lemma_mul_is_commutative(q1 as int, q2 as int);
        lemma_div_is_ordered((p1 * q2) as int, (p2 * q1) as int, (q1 * q2) as int);
    }
    lemma_excess_digits_ordered(p1 / q1, p2 / q2);
    if k1 == k2 && k1 <= 253 {
        let w = pow2(k1);
        assert(p1 * (q2 * w) <= p2 * (q1 * w)) by (nonlinear_arith)
            requires
                p1 * q2 <= p2 * q1,
                w >= 0,
        ;
        lemma_round_monotone(p1, q1 * w, p2, q2 * w);
    }
}

/// The distance between two numbers.
pub open spec fn distance(a: nat, b: nat) -> nat {
    if a <= b {
        (b - a) as nat
    } else {
        (a - b) as nat
    }
}

/// What rounding means: no pattern lies nearer to the quotient than the one that
/// `nearest` picks, and where another lies as near, the one picked is even.
pub proof fn law_nearest(p: nat, q: nat, b: nat)
    requires
        q > 0,
        b <= INFINITY,
    ensures
        distance(p, q * units(nearest(p, q))) <= distance(p, q * units(b)),
        b != nearest(p, q) && distance(p, q * units(nearest(p, q))) == distance(p, q * units(b))
            ==> nearest(p, q) % 2 == 0,
{
    lemma_nearest_unfold(p, q);
    let m = nearest(p, q);
    let k = excess_digits(p / q);
    let u = units(b);
    if k <= 253 {
        let w = pow2(k);
        let d = q * w;
        let f = p / d;
        let r = p % d;
        lemma_fundamental_div_mod(p as int, d as int);
        assert(q * (0x100_0000 * w) == d * 0x100_0000 && q * (0x80_0000 * w) == d * 0x80_0000)
            by (nonlinear_arith)
            requires
                d == q * w,
        ;
        powers::lemma_quotient_below(p, d, 0x100_0000);
        powers::lemma_quotient_below(p, d, 0x80_0000);
        let low = k * 0x80_0000 + f;
        lemma_units_split(k, f);
        lemma_units_split(k, f + 1);
        assert(q * (f * w) == d * f && q * ((f + 1) * w) == d * f + d) by (nonlinear_arith)
            requires
                d == q * w,
        ;
        if b <= low {
            if b < low {
                lemma_units_ordered(b, low);
                assert(q * u < q * (f * w)) by (nonlinear_arith)
                    requires
                        u < f * w,
                        q > 0,
                ;
            }
        } else {
            if b > low + 1 {
                lemma_units_ordered(low + 1, b);
                assert(q * u > q * ((f + 1) * w)) by (nonlinear_arith)
                    requires
                        u > (f + 1) * w,
                        q > 0,
                ;
            }
        }
    } else {
        let top = units(INFINITY as nat);
        lemma_pattern(INFINITY as nat);
        assert(p >= q * top) by {
            lemma_pow2_unfold(254);
            powers::lemma_pow2_le(254, k);
            assert(q * (0x80_0000 * pow2(k)) >= q * (0x80_0000 * pow2(254))) by (nonlinear_arith)
                requires
                    pow2(k) >= pow2(254),
            ;
        }
        if b < INFINITY {
            lemma_units_ordered(b, INFINITY as nat);
            assert(q * u < q * top) by (nonlinear_arith)
                requires
                    u < top,
                    q > 0,
            ;
        }
    }
}

/// Rounding at most doubles a quotient.
pub proof fn lemma_nearest_at_most_double(p: nat, q: nat)
    requires
        q > 0,
    ensures
        q * units(nearest(p, q)) <= 2 * p,
{
    lemma_units_least();
    law_nearest(p, q, 0);
    assert(q * 0 == 0);
}

/// Rounding at most halves a number, unless it is too large.
pub proof fn lemma_nearest_at_least_half(p: nat)
    requires
        nearest(p, 1) < INFINITY,
    ensures
        p <= 2 * units(nearest(p, 1)),
{
    lemma_nearest_unfold(p, 1);
    let k = excess_digits(p / 1);
    let w = pow2(k);
    let f = p / w;
    lemma_pow2_pos(k);
    assert(1 * w == w);
    lemma_units_split(k, round_half_even(p, w));
    lemma_fundamental_div_mod(p as int, w as int);
    if k == 0 {
        lemma2_to64();
        lemma_round_exact(p, 1);
    } else {
        powers::lemma_quotient_below(p, w, 0x80_0000);
        assert(w * 0x80_0000 == 0x80_0000 * w) by (nonlinear_arith);
    }
    assert(p <= 2 * (round_half_even(p, w) * w)) by (nonlinear_arith)
        requires
            p == w * f + p % w,
            0 <= p % w < w,
            round_half_even(p, w) >= f,
            f >= 1 || p == round_half_even(p, w) * w,
    ;
}

/// The numerator and denominator of `n / d * 2^e`.
pub open spec fn scaled_numerator(n: nat, e: int) -> nat {
    if e >= 0 {
        n * pow2(e as nat)
    } else {
        n
    }
}

/// See [`scaled_numerator`].
pub open spec fn scaled_denominator(d: nat, e: int) -> nat {
    if e >= 0 {
        d
    } else {
        d * pow2((-e) as nat)
    }
}

/// Whether `n / d * 2^x` has at most 24 binary digits before the point.
spec fn fits(n: nat, d: nat, x: int) -> bool {
    scaled_numerator(n, x) < scaled_denominator(d, x) * 0x100_0000
}

/// `n / d * 2^e` has at most `k` excess digits exactly when `n / d * 2^(e - k)` fits.
proof fn lemma_fits(n: nat, d: nat, e: int, k: nat)
    requires
        d > 0,
    ensures
        scaled_denominator(d, e) > 0,
        fits(n, d, e - k) == (scaled_numerator(n, e) < scaled_denominator(d, e) * (0x100_0000
            * pow2(k))),
{
    let x = e - k;
    let w = pow2(k);
    lemma_pow2_pos(k);
    if x >= 0 {
        let v = pow2(x as nat);
        lemma_pow2_adds(x as nat, k);
        assert((n * v < d * 0x100_0000) == (n * (v * w) < d * (0x100_0000 * w)))
            by (nonlinear_arith)
            requires
                w > 0,
        ;
    } else if e >= 0 {
        let v = pow2(e as nat);
        let y = pow2((-x) as nat);
        lemma_pow2_pos(e as nat);
        lemma_pow2_adds(e as nat, (-x) as nat);
        assert((n < d * y * 0x100_0000) == (n * v < d * (0x100_0000 * (v * y))))
            by (nonlinear_arith)
            requires
                v > 0,
        ;
    } else {
        let v = pow2((-e) as nat);
        lemma_pow2_pos((-e) as nat);
        lemma_pow2_adds((-e) as nat, k);
        assert(d * (v * w) * 0x100_0000 == d * v * (0x100_0000 * w)) by (nonlinear_arith);
        assert(d * v > 0) by (nonlinear_arith)
            requires
                d > 0,
                v > 0,
        ;
    }
}

/// Rounding `n / d * 2^e` in units of `2^k` is rounding `n / d * 2^(e - k)`.
proof fn lemma_round_scaled(n: nat, d: nat, e: int, k: nat)
    requires
        d > 0,
    ensures
        scaled_denominator(d, e - k) > 0,
        round_half_even(scaled_numerator(n, e), scaled_denominator(d, e) * pow2(k))
            == round_half_even(scaled_numerator(n, e - k), scaled_denominator(d, e - k)),
{
    let x = e - k;
    let w = pow2(k);
    lemma_pow2_pos(k);
    if x >= 0 {
        let v = pow2(x as nat);
        lemma_pow2_adds(x as nat, k);
        lemma_round_expanded(n * v, d, w);
        assert(n * v * w == n * (v * w)) by (nonlinear_arith);
    } else if e >= 0 {
        let v = pow2(e as nat);
        let y = pow2((-x) as nat);
        lemma_pow2_pos(e as nat);
        lemma_pow2_pos((-x) as nat);
        lemma_pow2_adds(e as nat, (-x) as nat);
        assert(d * y > 0) by (nonlinear_arith)
            requires
                d > 0,
                y > 0,
        ;
        lemma_round_expanded(n, d * y, v);
        assert(d * y * v == d * (v * y)) by (nonlinear_arith);
    } else {
        let v = pow2((-e) as nat);
        lemma_pow2_pos((-e) as nat);
        lemma_pow2_adds((-e) as nat, k);
        assert(d * (v * w) == d * v * w && d * (v * w) > 0) by (nonlinear_arith)
            requires
                d > 0,
                v > 0,
                w > 0,
        ;
    }
}

/// Whether `n / d * 2^x` has at most 24 binary digits before the point.
fn has_24_digits(n: u128, d: u128, x: i32) -> (b: bool)
    requires
        0 < n,
        0 < d < 0x100_0000,
        -1000 <= x <= 1000,
    ensures
        b == fits(n as nat, d as nat, x as int),
{
    let limit: u128 = d * 0x100_0000;
    proof {
        powers::lemma_pow2_table();
    }
    if x >= 48 {
        proof {
            powers::lemma_pow2_le(48, x as nat);
            assert(n * pow2(x as nat) >= pow2(x as nat)) by (nonlinear_arith)
                requires
                    n >= 1,
            ;
        }
        false
    } else if x >= 0 {
        let p = power_of_two_below_48(x);
        if n >= limit {
            assert(n * p >= n) by (nonlinear_arith)
                requires
                    p >= 1,
            ;
            false
        } else {
            assert(n * p <= 0x1_0000_0000_0000 * 0x1_0000_0000_0000) by (nonlinear_arith)
                requires
                    0 <= n <= 0x1_0000_0000_0000,
                    0 <= p <= 0x1_0000_0000_0000,
            ;
            n * p < limit
        }
    } else {
        let y: u32 = (-x) as u32;
        if y >= 128 {
            proof {
                powers::lemma_pow2_le(128, y as nat);
                assert(d * pow2(y as nat) * 0x100_0000 > n) by (nonlinear_arith)
                    requires
                        d >= 1,
                        pow2(y as nat) > n,
                ;
            }
            true
        } else {
            let p = powers::power_of_two(y);
            proof {
                lemma_pow2_pos(y as nat);
                powers::lemma_quotient_below(n as nat, p as nat, limit as nat);
                assert(p * (d * 0x100_0000) == d * p * 0x100_0000) by (nonlinear_arith);
            }
            n / p < limit
        }
    }
}

/// The power of two with a small exponent.
fn power_of_two_below_48(x: i32) -> (p: u128)
    requires
        0 <= x < 48,
    ensures
        p == pow2(x as nat),
        1 <= p <= 0x1_0000_0000_0000,
{
    proof {
        powers::lemma_pow2_table();
        powers::lemma_pow2_le(0, x as nat);
        powers::lemma_pow2_le(x as nat, 48);
    }
    powers::power_of_two(x as u32)
}

/// The natural number nearest to `n / d`, ties to even.
pub(crate) fn divide_half_even(n: u128, d: u128) -> (m: u128)
    requires
        0 < d < 0x8000_0000_0000_0000_0000_0000_0000_0000,
        n < u128::MAX,
    ensures
        m == round_half_even(n as nat, d as nat),
{
    let f: u128 = n / d;
    let r: u128 = n % d;
    proof {
        assert(f <= n) by (nonlinear_arith)
            requires
                f == n / d,
                d > 0,
        ;
    }
    if 2 * r < d || (2 * r == d && f % 2 == 0) {
        f
    } else {
        f + 1
    }
}

/// The pattern nearest to `n / d * 2^e` units.
pub(crate) fn nearest_scaled(n: u128, d: u128, e: i32) -> (m: u32)
    requires
        0 < n < 0x4000_0000_0000_0000_0000_0000_0000_0000,
        0 < d < 0x100_0000,
        -500 <= e <= 500,
        e >= 0 || n < 0x1_0000_0000_0000_0000,
    ensures
        m == nearest(scaled_numerator(n as nat, e as int), scaled_denominator(d as nat, e as int)),
        m <= INFINITY,
{
    let ghost p = scaled_numerator(n as nat, e as int);
    let ghost q = scaled_denominator(d as nat, e as int);
    // The least number of excess digits at which the quotient fits lies from `k` to `top`.
    let mut k: i32 = 0;
    let mut top: i32 = 254;
    while k < top
        invariant
            0 <= k <= top <= 254,
            k == 0 || !fits(n as nat, d as nat, e - (k - 1)),
            top == 254 || fits(n as nat, d as nat, e - top),
            0 < n,
            0 < d < 0x100_0000,
            -500 <= e <= 500,
        decreases top - k,
    {
        let middle: i32 = k + (top - k) / 2;
        if has_24_digits(n, d, e - middle) {
            top = middle;
        } else {
            k = middle + 1;
        }
    }
    proof {
        lemma_fits(n as nat, d as nat, e as int, k as nat);
        lemma_nearest_range(p, q);
        if k > 0 {
            lemma_fits(n as nat, d as nat, e as int, (k - 1) as nat);
            lemma_pow2_unfold(k as nat);
        }
    }
    if k == 254 {
        proof {
            lemma_nearest_beyond(p, q);
        }
        return INFINITY;
    }
    proof {
        lemma_nearest_in_binade(p, q, k as nat);
        lemma_round_scaled(n as nat, d as nat, e as int, k as nat);
        powers::lemma_pow2_table();
    }
    let x: i32 = e - k;
    proof {
        if x >= 48 {
            powers::lemma_pow2_le(48, x as nat);
            assert(n * pow2(x as nat) >= pow2(x as nat)) by (nonlinear_arith)
                requires
                    n >= 1,
            ;
        }
    }
    let s: u128 = if x >= 0 {
        let c = power_of_two_below_48(x);
        assert(n <= n * c) by (nonlinear_arith)
            requires
                c >= 1,
        ;
        divide_half_even(n * c, d)
    } else if x >= -103 {
        let c = powers::power_of_two((-x) as u32);
        proof {
            powers::lemma_pow2_le((-x) as nat, 103);
            lemma_pow2_unfold(104);
            lemma_pow2_pos((-x) as nat);
            assert(0 < d * c < 0x8000_0000_0000_0000_0000_0000_0000_0000) by (nonlinear_arith)
                requires
                    0 < d < 0x100_0000,
                    0 < c <= 0x80_0000_0000_0000_0000_0000_0000,
            ;
        }
        divide_half_even(n, d * c)
    } else {
        proof {
            lemma_far_below_one(n as nat, d as nat, e as int, k as nat);
        }
        0
    };
    (k as u32) * 0x80_0000 + (s as u32)
}

/// A significand that is shifted out entirely rounds to zero.
proof fn lemma_far_below_one(n: nat, d: nat, e: int, k: nat)
    requires
        0 < n < pow2(126),
        d > 0,
        e >= 0 || n < pow2(64),
        e - k < -103,
        k == 0 || !fits(n, d, e - (k - 1)),
    ensures
        round_half_even(scaled_numerator(n, e - k), scaled_denominator(d, e - k)) == 0,
{
    let y = (k - e) as nat;
    powers::lemma_pow2_table();
    powers::lemma_pow2_le(104, y);
    let q = d * pow2(y);
    assert(q >= pow2(y)) by (nonlinear_arith)
        requires
            q == d * pow2(y),
            d >= 1,
    ;
    if k > 0 {
        let z = (y - 1) as nat;
        powers::lemma_pow2_le(103, z);
        lemma_pow2_unfold(104);
        assert(d * pow2(z) * 0x100_0000 >= pow2(103) * 0x100_0000) by (nonlinear_arith)
            requires
                d >= 1,
                pow2(z) >= pow2(103),
        ;
    }
    lemma_basic_div(n as int, q as int);
    lemma_small_mod(n, q);
}

} // verus!
