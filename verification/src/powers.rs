//! Arithmetic on powers of two and on quotients of natural numbers.
use vstd::arithmetic::div_mod::*;
use vstd::arithmetic::mul::*;
use vstd::arithmetic::power2::*;
use vstd::prelude::*;

verus! {

/// `pow2` is monotone.
pub proof fn lemma_pow2_le(a: nat, b: nat)
    requires
        a <= b,
    ensures
        pow2(a) <= pow2(b),
{
    if a < b {
        lemma_pow2_strictly_increases(a, b);
    }
}

/// The powers of two that the library compares against.
pub proof fn lemma_pow2_table()
    ensures
        pow2(0) == 1,
        pow2(1) == 2,
        pow2(23) == 0x80_0000,
        pow2(24) == 0x100_0000,
        pow2(48) == 0x1_0000_0000_0000,
        pow2(64) == 0x1_0000_0000_0000_0000,
        pow2(104) == 0x100_0000_0000_0000_0000_0000_0000,
        pow2(126) == 0x4000_0000_0000_0000_0000_0000_0000_0000,
        pow2(127) == 0x8000_0000_0000_0000_0000_0000_0000_0000,
        pow2(128) == 0x1_0000_0000_0000_0000_0000_0000_0000_0000,
{
    lemma2_to64();
    lemma2_to64_rest();
    lemma_pow2_adds(24, 24);
    lemma_pow2_adds(40, 64);
    lemma_pow2_adds(62, 64);
    lemma_pow2_adds(63, 64);
    lemma_pow2_adds(64, 64);
}

/// A single set bit at position `y` is the number `2^y`.
proof fn lemma_single_bit(y: u128)
    requires
        y < 128,
    ensures
        (1u128 << y) == pow2(y as nat),
    decreases y,
{
    if y == 0 {
        lemma2_to64();
        assert(1u128 << 0u128 == 1u128) by (bit_vector);
    } else {
        let z = (y - 1) as u128;
        lemma_single_bit(z);
        lemma_pow2_unfold(y as nat);
        assert(1u128 << y == 2 * (1u128 << z)) by (bit_vector)
            requires
                0 < y < 128,
                z == y - 1,
        ;
    }
}

/// The power of two with exponent `y`.
pub(crate) fn power_of_two(y: u32) -> (p: u128)
    requires
        y < 128,
    ensures
        p == pow2(y as nat),
{
    proof {
        lemma_single_bit(y as u128);
    }
    1u128 << (y as u128)
}

/// A quotient is below `c` exactly when the dividend is below `q * c`.
pub proof fn lemma_quotient_below(p: nat, q: nat, c: nat)
    requires
        q > 0,
    ensures
        (p / q < c) == (p < q * c),
{
    lemma_fundamental_div_mod(p as int, q as int);
    let f = (p / q) as int;
    let r = (p % q) as int;
    assert(p == q * f + r);
    if f < c {
        assert(q * f + q <= q * c) by (nonlinear_arith)
            requires
                f + 1 <= c,
                q > 0,
        ;
    } else {
        assert(q * c <= q * f) by (nonlinear_arith)
            requires
                c <= f,
                q > 0,
        ;
    }
}

/// Quotient and remainder of a fraction that was expanded by `c`.
pub proof fn lemma_expand_fraction(p: nat, q: nat, c: nat)
    requires
        q > 0,
        c > 0,
    ensures
        q * c > 0,
        (p * c) / (q * c) == p / q,
        (p * c) % (q * c) == c * (p % q),
{
    let f = (p / q) as int;
    let r = (p % q) as int;
    lemma_fundamental_div_mod(p as int, q as int);
    assert(q * c > 0) by (nonlinear_arith)
        requires
            q > 0,
            c > 0,
    ;
    assert(p * c == f * (q * c) + c * r) by (nonlinear_arith)
        requires
            p == q * f + r,
    ;
    assert(0 <= c * r < q * c) by (nonlinear_arith)
        requires
            0 <= r < q,
            c > 0,
    ;
    lemma_fundamental_div_mod_converse((p * c) as int, (q * c) as int, f, c * r);
}

} // verus!
