//! The generator of the draws for stochastic rounding.
use crate::binary32;
use crate::binary32::Binary32;
use crate::rounding;
use crate::trit;
use vstd::arithmetic::div_mod::*;
use vstd::arithmetic::power2::*;
use vstd::prelude::*;
use vstd::set_lib::*;

verus! {

/// The bits of `x` rotated left by `k` places.
pub open spec fn rotated(x: u32, k: u32) -> u32 {
    (x << k) | (x >> ((32 - k) as u32))
}

/// The state that a seed gives: its two halves, and each of them scrambled by an
/// odd multiplier. Seed zero, whose halves would give the state of all zeros, has
/// two fixed words in place of the scrambled halves.
pub open spec fn seeded(seed: u64) -> Seq<u32> {
    let low = (seed % 0x1_0000_0000) as u32;
    let high = (seed / 0x1_0000_0000) as u32;
    if seed == 0 {
        seq![0u32, 0u32, 0x9E37_79B9u32, 0x243F_6A88u32]
    } else {
        seq![low, high, low.wrapping_mul(0x5851_F42D), high.wrapping_mul(0x5851_F42D)]
    }
}

/// The output of xoshiro128** in state `s`.
pub open spec fn output(s: Seq<u32>) -> u32 {
    rotated(s[1].wrapping_mul(5), 7).wrapping_mul(9)
}

/// The state of xoshiro128** that follows state `s`.
pub open spec fn successor(s: Seq<u32>) -> Seq<u32> {
    seq![
        s[0] ^ (s[3] ^ s[1]),
        s[1] ^ (s[2] ^ s[0]),
        (s[2] ^ s[0]) ^ (s[1] << 9),
        rotated(s[3] ^ s[1], 11),
    ]
}

/// The draw from the unit interval that state `s` gives: the upper 24 bits of the
/// output, in units of `2^-24`.
pub open spec fn draw(s: Seq<u32>) -> Binary32 {
    Binary32::of_nat((output(s) >> 8) as nat).over(Binary32::of_nat(0x100_0000))
}

/// The bits of `x` rotated left by `k` places.
fn rotate_left(x: u32, k: u32) -> (r: u32)
    requires
        0 < k < 32,
    ensures
        r == rotated(x, k),
{
    (x << k) | (x >> (32 - k))
}

/// A pseudo-random number generator (xoshiro128**) for stochastic rounding. The
/// same seed always gives the same draws, and with every seed the draws vary.
#[derive(Debug)]
pub struct SimpleRng {
    s: [u32; 4],
}

impl View for SimpleRng {
    type V = Seq<u32>;

    closed spec fn view(&self) -> Seq<u32> {
        self.s@
    }
}

impl Clone for SimpleRng {
    fn clone(&self) -> (r: Self)
        ensures
            r@ == self@,
    {
        Self { s: self.s }
    }
}

impl SimpleRng {
    /// Create a generator from a seed.
    pub fn new(seed: u64) -> (r: Self)
        ensures
            r@ == seeded(seed),
    {
        let low: u32 = (seed & 0xFFFF_FFFF) as u32;
        let high: u32 = (seed >> 32) as u32;
        proof {
            assert(seed & 0xFFFF_FFFF == seed % 0x1_0000_0000) by (bit_vector);
            assert(seed >> 32 == seed / 0x1_0000_0000) by (bit_vector);
        }
        if seed == 0 {
            let s: [u32; 4] = [0, 0, 0x9E37_79B9, 0x243F_6A88];
            return Self { s };
        }
        let s: [u32; 4] = [
            low,
            high,
            low.wrapping_mul(0x5851_F42D),
            high.wrapping_mul(0x5851_F42D),
        ];
        Self { s }
    }

    /// Next uniform draw from `[0, 1)`.
    pub fn next_f32(&mut self) -> (r: Binary32)
        ensures
            r == draw(old(self)@),
            final(self)@ == successor(old(self)@),
            r.value() == (output(old(self)@) >> 8) * pow2(125),
            Binary32::plus_zero().at_most(r),
            r.below(Binary32::one()),
    {
        proof {
            law_draw_in_unit_interval(self@);
        }
        let x = self.next_u32();
        Binary32::from_usize((x >> 8) as usize).div(Binary32::from_usize(0x100_0000))
    }

    /// Next 32 bits.
    pub fn next_u32(&mut self) -> (r: u32)
        ensures
            r == output(old(self)@),
            final(self)@ == successor(old(self)@),
    {
        let result = rotate_left(self.s[1].wrapping_mul(5), 7).wrapping_mul(9);
        let t = self.s[1] << 9;
        self.s[2] = self.s[2] ^ self.s[0];
        self.s[3] = self.s[3] ^ self.s[1];
        self.s[1] = self.s[1] ^ self.s[2];
        self.s[0] = self.s[0] ^ self.s[3];
        self.s[2] = self.s[2] ^ t;
        self.s[3] = rotate_left(self.s[3], 11);
        result
    }
}

/// The state after `n` draws from state `s`.
pub open spec fn advanced(s: Seq<u32>, n: nat) -> Seq<u32>
    decreases n,
{
    if n == 0 {
        s
    } else {
        successor(advanced(s, (n - 1) as nat))
    }
}

/// A short integer is converted without rounding.
proof fn lemma_short_integer(n: nat)
    requires
        n <= 0x100_0000,
    ensures
        Binary32::of_nat(n).value() == n * pow2(149),
        Binary32::of_nat(n).size() == n * pow2(149),
        Binary32::of_nat(n).finite(),
        !Binary32::of_nat(n).negative(),
{
    if n < 0x100_0000 {
        rounding::lemma_nearest_short(n, 149);
    } else {
        lemma_pow2_unfold(150);
        rounding::lemma_nearest_short(0x80_0000, 150);
    }
}

/// Every draw lies in `[0, 1)`: it is the number of the upper 24 output bits, in
/// units of `2^-24`, without rounding.
pub proof fn law_draw_in_unit_interval(s: Seq<u32>)
    ensures
        !draw(s).nan(),
        !draw(s).negative(),
        draw(s).value() == (output(s) >> 8) * pow2(125),
        (output(s) >> 8) < 0x100_0000,
        Binary32::plus_zero().at_most(draw(s)),
        draw(s).below(Binary32::one()),
{
    let x = output(s);
    assert((x >> 8) < 0x100_0000) by (bit_vector);
    let n = (x >> 8) as nat;
    lemma_short_integer(n);
    lemma_short_integer(0x100_0000);
    trit::lemma_one();
    rounding::lemma_units_least();
    let b = Binary32::of_nat(0x100_0000);
    let c = b.size();
    let u = pow2(149);
    let v = pow2(125);
    lemma_pow2_pos(149);
    lemma_pow2_pos(125);
    lemma2_to64();
    lemma_pow2_adds(24, 125);
    assert((n * u) * u == (n * v) * c) by (nonlinear_arith)
        requires
            c == 0x100_0000 * u,
            u == 0x100_0000 * v,
    ;
    binary32::lemma_size(b);
    rounding::lemma_nearest_expanded(n * v, 1, c);
    assert(1 * c == c);
    rounding::lemma_nearest_short(n, 125);
    assert(n * v < u) by (nonlinear_arith)
        requires
            n < 0x100_0000,
            u == 0x100_0000 * v,
            v > 0,
    ;
}

/// How a seed is laid out: the first two words are its halves, and the other two these
/// halves times an odd constant, modulo `2^32`. Seed zero has two fixed words there.
pub proof fn law_seeded(seed: u64)
    ensures
        seeded(seed).len() == 4,
        seeded(seed)[0] + 0x1_0000_0000 * seeded(seed)[1] == seed,
        seed != 0 ==> seeded(seed)[2] == (seeded(seed)[0] * 0x5851_F42D) % 0x1_0000_0000,
        seed != 0 ==> seeded(seed)[3] == (seeded(seed)[1] * 0x5851_F42D) % 0x1_0000_0000,
        seed == 0 ==> seeded(seed)[2] == 0x9E37_79B9 && seeded(seed)[3] == 0x243F_6A88,
{
}

/// How a state follows another: the changes of the first two words are what the other
/// words say, the third word is the change of the second and the second shifted, the
/// fourth the change of the first, rotated by 11 places.
pub proof fn law_successor(s: Seq<u32>)
    ensures
        ({
            let t = successor(s);
            let (p, q) = (t[0] ^ s[0], t[1] ^ s[1]);
            &&& t.len() == 4
            &&& p == s[3] ^ s[1]
            &&& q == s[2] ^ s[0]
            &&& t[2] ^ q == (s[1] * 0x200) % 0x1_0000_0000
            &&& t[3] == (p % 0x20_0000) * 0x800 + p / 0x20_0000
        }),
{
    let t = successor(s);
    let (a0, a1, a2, a3) = (s[0], s[1], s[2], s[3]);
    let (b0, b1, b2, b3) = (t[0], t[1], t[2], t[3]);
    let (p, q) = (b0 ^ a0, b1 ^ a1);
    assert(p == a3 ^ a1 && q == a2 ^ a0 && b2 ^ q == a1 << 9) by (bit_vector)
        requires
            b0 == a0 ^ (a3 ^ a1),
            b1 == a1 ^ (a2 ^ a0),
            b2 == (a2 ^ a0) ^ (a1 << 9),
            p == b0 ^ a0,
            q == b1 ^ a1,
    ;
    assert(a1 << 9 == (a1 * 0x200) % 0x1_0000_0000) by (bit_vector);
    assert((p << 11) | (p >> 21) == (p % 0x20_0000) * 0x800 + p / 0x20_0000) by (bit_vector);
}

/// How an output comes about, told backwards: multiplied by the inverse of 9, rotated
/// right by 7 places and multiplied by the inverse of 5, all modulo `2^32`, it is the
/// second word of the state again.
pub proof fn law_output_undone(s: Seq<u32>)
    ensures
        ({
            let y = (output(s) * 0x38E3_8E39) % 0x1_0000_0000;
            let z = (y % 0x80) * 0x200_0000 + y / 0x80;
            (z * 0xCCCC_CCCD) % 0x1_0000_0000 == s[1]
        }),
{
    let x = s[1].wrapping_mul(5);
    let w = rotated(x, 7);
    let y = (output(s) * 0x38E3_8E39) % 0x1_0000_0000;
    lemma_product_undone(w as int, 9, 0x38E3_8E39, 2);
    assert(y == w);
    let v = w;
    assert((v % 0x80) * 0x200_0000 + v / 0x80 == (v << 25) | (v >> 7)) by (bit_vector);
    assert((((x << 7) | (x >> 25)) << 25) | (((x << 7) | (x >> 25)) >> 7) == x) by (bit_vector);
    lemma_product_undone(s[1] as int, 5, 0xCCCC_CCCD, 4);
}

/// Different seeds give different states.
pub proof fn law_seeds_differ(a: u64, b: u64)
    requires
        seeded(a) == seeded(b),
    ensures
        a == b,
{
    assert(seeded(a)[0] == seeded(b)[0]);
    assert(seeded(a)[1] == seeded(b)[1]);
}

/// The state of a generator is four words.
pub proof fn law_four_words(rng: &SimpleRng)
    ensures
        rng@.len() == 4,
{
}

/// No two states have the same successor: the generator never runs into a cycle
/// that does not contain its starting state.
pub proof fn law_successor_injective(s: Seq<u32>, t: Seq<u32>)
    requires
        s.len() == 4,
        t.len() == 4,
        successor(s) == successor(t),
    ensures
        s == t,
{
    let (a0, a1, a2, a3) = (s[0], s[1], s[2], s[3]);
    let (b0, b1, b2, b3) = (t[0], t[1], t[2], t[3]);
    assert(successor(s)[0] == successor(t)[0]);
    assert(successor(s)[1] == successor(t)[1]);
    assert(successor(s)[2] == successor(t)[2]);
    assert(successor(s)[3] == successor(t)[3]);
    assert(a0 == b0 && a1 == b1 && a2 == b2 && a3 == b3) by (bit_vector)
        requires
            a0 ^ (a3 ^ a1) == b0 ^ (b3 ^ b1),
            a1 ^ (a2 ^ a0) == b1 ^ (b2 ^ b0),
            (a2 ^ a0) ^ (a1 << 9) == (b2 ^ b0) ^ (b1 << 9),
            ((a3 ^ a1) << 11) | ((a3 ^ a1) >> 21) == ((b3 ^ b1) << 11) | ((b3 ^ b1) >> 21),
    ;
    assert(s =~= t);
}

/// The state of all zeros has no other predecessor than itself.
pub proof fn law_zero_state(s: Seq<u32>)
    requires
        s.len() == 4,
    ensures
        successor(s) == seq![0u32, 0u32, 0u32, 0u32] <==> s == seq![0u32, 0u32, 0u32, 0u32],
{
    let z = seq![0u32, 0u32, 0u32, 0u32];
    assert(successor(z) =~= z) by {
        assert(0u32 ^ (0u32 ^ 0u32) == 0) by (bit_vector);
        assert((0u32 ^ 0u32) ^ (0u32 << 9) == 0) by (bit_vector);
        assert(((0u32 ^ 0u32) << 11) | ((0u32 ^ 0u32) >> 21) == 0) by (bit_vector);
    }
    if successor(s) == z {
        law_successor_injective(s, z);
    }
}

/// No seed ever leads to the state of all zeros, in which the generator would stay.
pub proof fn law_never_zero(seed: u64, n: nat)
    ensures
        advanced(seeded(seed), n) != seq![0u32, 0u32, 0u32, 0u32],
        advanced(seeded(seed), n).len() == 4,
    decreases n,
{
    let z = seq![0u32, 0u32, 0u32, 0u32];
    if n == 0 {
        let s = seeded(seed);
        if seed == 0 {
            assert(s[2] != z[2]);
        } else {
            assert(s[0] != z[0] || s[1] != z[1]);
        }
    } else {
        law_never_zero(seed, (n - 1) as nat);
        law_zero_state(advanced(seeded(seed), (n - 1) as nat));
    }
}

/// An output comes from one second word only.
proof fn lemma_output_injective(s: Seq<u32>, t: Seq<u32>)
    requires
        output(s) == output(t),
    ensures
        s[1] == t[1],
{
    let (x, y) = (s[1], t[1]);
    let (x5, y5) = (x.wrapping_mul(5), y.wrapping_mul(5));
    let (xr, yr) = (rotated(x5, 7), rotated(y5, 7));
    let (x9, y9) = (xr.wrapping_mul(9), yr.wrapping_mul(9));
    assert(x5 == (x * 5) % 0x1_0000_0000 && y5 == (y * 5) % 0x1_0000_0000);
    assert(x9 == (xr * 9) % 0x1_0000_0000 && y9 == (yr * 9) % 0x1_0000_0000);
    assert(xr == yr) by (bit_vector)
        requires
            (xr * 9) % 0x1_0000_0000 == (yr * 9) % 0x1_0000_0000,
    ;
    assert(x5 == y5) by (bit_vector)
        requires
            (x5 << 7) | (x5 >> 25) == (y5 << 7) | (y5 >> 25),
    ;
    assert(x == y) by (bit_vector)
        requires
            (x * 5) % 0x1_0000_0000 == (y * 5) % 0x1_0000_0000,
    ;
}

/// The second word that gives the output `o`.
pub open spec fn source(o: u32) -> u32 {
    rotated(o.wrapping_mul(0x38E3_8E39), 25).wrapping_mul(0xCCCC_CCCD)
}

/// A product with `c` is undone by a product with its inverse `d`, modulo `2^32`.
proof fn lemma_product_undone(x: int, c: int, d: int, k: int)
    requires
        0 <= x < 0x1_0000_0000,
        c * d == k * 0x1_0000_0000 + 1,
    ensures
        (((x * c) % 0x1_0000_0000) * d) % 0x1_0000_0000 == x,
{
    let q = (x * c) / 0x1_0000_0000;
    let y = (x * c) % 0x1_0000_0000;
    assert(y == x * c - q * 0x1_0000_0000);
    assert(y * d == (x * k - q * d) * 0x1_0000_0000 + x) by (nonlinear_arith)
        requires
            y == x * c - q * 0x1_0000_0000,
            c * d == k * 0x1_0000_0000 + 1,
    ;
    lemma_fundamental_div_mod_converse(y * d, 0x1_0000_0000, x * k - q * d, x);
}

/// Outputs are uniform over the second words: each comes from exactly one. The draws are
/// uniform too, since each is given by the 256 outputs with its upper 24 bits.
pub proof fn law_uniform(s: Seq<u32>, o: u32)
    ensures
        output(s) == o <==> s[1] == source(o),
        draw(s).value() == (output(s) / 256) * pow2(125),
{
    let y = o.wrapping_mul(0x38E3_8E39);
    let z = rotated(y, 25);
    let t = seq![0u32, source(o), 0u32, 0u32];
    assert(source(o).wrapping_mul(5) == z) by {
        lemma_product_undone(z as int, 0xCCCC_CCCD, 5, 4);
    }
    assert(rotated(z, 7) == y) by {
        assert((((y << 25) | (y >> 7)) << 7) | (((y << 25) | (y >> 7)) >> 25) == y)
            by (bit_vector);
    }
    assert(y.wrapping_mul(9) == o) by {
        lemma_product_undone(o as int, 0x38E3_8E39, 9, 2);
    }
    assert(output(t) == o);
    if output(s) == o {
        lemma_output_injective(s, t);
    }
    law_draw_in_unit_interval(s);
    let x = output(s);
    assert(x >> 8 == x / 256) by (bit_vector);
}

/// Outputs vary: of five outputs in a row, from any state but that of all zeros, at
/// least two differ.
pub proof fn law_outputs_vary(s: Seq<u32>)
    requires
        s.len() == 4,
        s != seq![0u32, 0u32, 0u32, 0u32],
    ensures
        exists|i: nat|
            1 <= i <= 4 && #[trigger] output(advanced(s, i)) != output(s),
{
    reveal_with_fuel(advanced, 5);
    let t1 = successor(s);
    let t2 = successor(t1);
    let t3 = successor(t2);
    let t4 = successor(t3);
    assert(advanced(s, 1) == t1 && advanced(s, 2) == t2 && advanced(s, 3) == t3 && advanced(s, 4)
        == t4);
    if output(t1) == output(s) && output(t2) == output(s) && output(t3) == output(s) && output(t4)
        == output(s) {
        lemma_output_injective(s, t1);
        lemma_output_injective(s, t2);
        lemma_output_injective(s, t3);
        lemma_output_injective(s, t4);
        let (a0, a1, a2, a3) = (s[0], s[1], s[2], s[3]);
        let (b0, b2, b3) = (t1[0], t1[2], t1[3]);
        let (c0, c2, c3) = (t2[0], t2[2], t2[3]);
        let (d0, d2) = (t3[0], t3[2]);
        assert(a0 == 0 && a1 == 0 && a2 == 0 && a3 == 0) by (bit_vector)
            requires
                b0 == a0 ^ (a3 ^ a1),
                a1 == a1 ^ (a2 ^ a0),
                b2 == (a2 ^ a0) ^ (a1 << 9),
                b3 == ((a3 ^ a1) << 11) | ((a3 ^ a1) >> 21),
                c0 == b0 ^ (b3 ^ a1),
                a1 == a1 ^ (b2 ^ b0),
                c2 == (b2 ^ b0) ^ (a1 << 9),
                c3 == ((b3 ^ a1) << 11) | ((b3 ^ a1) >> 21),
                d0 == c0 ^ (c3 ^ a1),
                a1 == a1 ^ (c2 ^ c0),
                d2 == (c2 ^ c0) ^ (a1 << 9),
                a1 == a1 ^ (d2 ^ d0),
        ;
        assert(s =~= seq![0u32, 0u32, 0u32, 0u32]);
    }
    if output(t1) != output(s) {
        assert(output(advanced(s, 1)) != output(s));
    } else if output(t2) != output(s) {
        assert(output(advanced(s, 2)) != output(s));
    } else if output(t3) != output(s) {
        assert(output(advanced(s, 3)) != output(s));
    } else {
        assert(output(advanced(s, 4)) != output(s));
    }
}

/// Moving on by `m` states and then by `n` is moving on by both.
pub proof fn lemma_advanced_adds(s: Seq<u32>, m: nat, n: nat)
    ensures
        advanced(advanced(s, m), n) == advanced(s, m + n),
    decreases n,
{
    if n > 0 {
        lemma_advanced_adds(s, m, (n - 1) as nat);
    }
}

/// Whatever the seed, the outputs never stop varying: each is followed by a different
/// one within four.
pub proof fn law_every_seed_varies(seed: u64, n: nat)
    ensures
        exists|i: nat|
            1 <= i <= 4 && #[trigger] output(advanced(seeded(seed), n + i)) != output(
                advanced(seeded(seed), n),
            ),
{
    let s = seeded(seed);
    let t = advanced(s, n);
    law_never_zero(seed, n);
    law_outputs_vary(t);
    let i = choose|i: nat| 1 <= i <= 4 && #[trigger] output(advanced(t, i)) != output(t);
    lemma_advanced_adds(s, n, i);
    assert(output(advanced(s, n + i)) != output(advanced(s, n)));
}

/// Equal draws come from outputs with the same upper 24 bits.
proof fn lemma_draw_bits(s: Seq<u32>, t: Seq<u32>)
    requires
        draw(s) == draw(t),
    ensures
        output(s) >> 8 == output(t) >> 8,
{
    law_draw_in_unit_interval(s);
    law_draw_in_unit_interval(t);
    let (m, n) = ((output(s) >> 8) as int, (output(t) >> 8) as int);
    let u = pow2(125) as int;
    lemma_pow2_pos(125);
    assert(m == n) by (nonlinear_arith)
        requires
            m * u == n * u,
            u > 0,
    ;
}

/// The output in terms of the second word, with products reduced by division.
proof fn lemma_output_steps(s: Seq<u32>)
    ensures
        s[1].wrapping_mul(5) == (s[1] * 5) % 0x1_0000_0000,
        output(s) == (rotated(s[1].wrapping_mul(5), 7) * 9) % 0x1_0000_0000,
{
}

/// The first draws vary, whatever the seed: of the first five at least two differ.
pub proof fn law_first_draws_vary(seed: u64)
    ensures
        exists|i: nat|
            1 <= i <= 4 && #[trigger] draw(advanced(seeded(seed), i)) != draw(seeded(seed)),
{
    reveal_with_fuel(advanced, 5);
    let s = seeded(seed);
    let t1 = successor(s);
    let t2 = successor(t1);
    let t3 = successor(t2);
    let t4 = successor(t3);
    assert(advanced(s, 1) == t1 && advanced(s, 2) == t2 && advanced(s, 3) == t3 && advanced(s, 4)
        == t4);
    if draw(t1) == draw(s) && draw(t2) == draw(s) && draw(t3) == draw(s) && draw(t4) == draw(s) {
        lemma_draw_bits(s, t1);
        lemma_draw_bits(s, t2);
        lemma_draw_bits(s, t3);
        lemma_draw_bits(s, t4);
        let (o0, o1, o2, o3, o4) = (output(s), output(t1), output(t2), output(t3), output(t4));
        lemma_output_steps(s);
        lemma_output_steps(t1);
        lemma_output_steps(t2);
        lemma_output_steps(t3);
        lemma_output_steps(t4);
        let (x0, x1) = (s[1].wrapping_mul(5), t1[1].wrapping_mul(5));
        let (x2, x3) = (t2[1].wrapping_mul(5), t3[1].wrapping_mul(5));
        let x4 = t4[1].wrapping_mul(5);
        let (a0, a1, a2, a3) = (s[0], s[1], s[2], s[3]);
        let (b0, b1, b2, b3) = (t1[0], t1[1], t1[2], t1[3]);
        let (c0, c1, c2, c3) = (t2[0], t2[1], t2[2], t2[3]);
        let (d0, d1, d2) = (t3[0], t3[1], t3[2]);
        let e1 = t4[1];
        if seed == 0 {
            assert(o0 >> 8 != o1 >> 8) by (bit_vector)
                requires
                    a0 == 0,
                    a1 == 0,
                    a2 == 0x9E37_79B9,
                    b1 == a1 ^ (a2 ^ a0),
                    x0 == ((a1 * 5) % 0x1_0000_0000) as u32,
                    x1 == ((b1 * 5) % 0x1_0000_0000) as u32,
                    o0 == ((((x0 << 7) | (x0 >> 25)) * 9) % 0x1_0000_0000) as u32,
                    o1 == ((((x1 << 7) | (x1 >> 25)) * 9) % 0x1_0000_0000) as u32,
            ;
        } else {
            assert(a0 == 0 && a1 == 0) by (bit_vector)
                requires
                    a2 == ((a0 * 0x5851_F42D) % 0x1_0000_0000) as u32,
                    a3 == ((a1 * 0x5851_F42D) % 0x1_0000_0000) as u32,
                    b0 == a0 ^ (a3 ^ a1),
                    b1 == a1 ^ (a2 ^ a0),
                    b2 == (a2 ^ a0) ^ (a1 << 9),
                    b3 == ((a3 ^ a1) << 11) | ((a3 ^ a1) >> 21),
                    c0 == b0 ^ (b3 ^ b1),
                    c1 == b1 ^ (b2 ^ b0),
                    c2 == (b2 ^ b0) ^ (b1 << 9),
                    c3 == ((b3 ^ b1) << 11) | ((b3 ^ b1) >> 21),
                    d0 == c0 ^ (c3 ^ c1),
                    d1 == c1 ^ (c2 ^ c0),
                    d2 == (c2 ^ c0) ^ (c1 << 9),
                    e1 == d1 ^ (d2 ^ d0),
                    x0 == ((a1 * 5) % 0x1_0000_0000) as u32,
                    x1 == ((b1 * 5) % 0x1_0000_0000) as u32,
                    x2 == ((c1 * 5) % 0x1_0000_0000) as u32,
                    x3 == ((d1 * 5) % 0x1_0000_0000) as u32,
                    x4 == ((e1 * 5) % 0x1_0000_0000) as u32,
                    o0 == ((((x0 << 7) | (x0 >> 25)) * 9) % 0x1_0000_0000) as u32,
                    o1 == ((((x1 << 7) | (x1 >> 25)) * 9) % 0x1_0000_0000) as u32,
                    o2 == ((((x2 << 7) | (x2 >> 25)) * 9) % 0x1_0000_0000) as u32,
                    o3 == ((((x3 << 7) | (x3 >> 25)) * 9) % 0x1_0000_0000) as u32,
                    o4 == ((((x4 << 7) | (x4 >> 25)) * 9) % 0x1_0000_0000) as u32,
                    o0 >> 8 == o1 >> 8,
                    o0 >> 8 == o2 >> 8,
                    o0 >> 8 == o3 >> 8,
                    o0 >> 8 == o4 >> 8,
            ;
        }
    }
    if draw(t1) != draw(s) {
        assert(draw(advanced(s, 1)) != draw(s));
    } else if draw(t2) != draw(s) {
        assert(draw(advanced(s, 2)) != draw(s));
    } else if draw(t3) != draw(s) {
        assert(draw(advanced(s, 3)) != draw(s));
    } else {
        assert(draw(advanced(s, 4)) != draw(s));
    }
}

/// Distinct states make distinct numbers, of four digits to the base `2^32`.
spec fn numbered(s: Seq<u32>) -> int {
    s[0] + 0x1_0000_0000 * (s[1] + 0x1_0000_0000 * (s[2] + 0x1_0000_0000 * s[3]))
}

/// The state stays of four words.
proof fn lemma_advanced_length(s: Seq<u32>, n: nat)
    requires
        s.len() == 4,
    ensures
        advanced(s, n).len() == 4,
{
}

/// Moving on by the same number of states from distinct states leads to distinct states.
proof fn lemma_advanced_injective(s: Seq<u32>, t: Seq<u32>, n: nat)
    requires
        s.len() == 4,
        t.len() == 4,
        advanced(s, n) == advanced(t, n),
    ensures
        s == t,
    decreases n,
{
    if n > 0 {
        let (x, y) = (advanced(s, (n - 1) as nat), advanced(t, (n - 1) as nat));
        law_successor_injective(x, y);
        lemma_advanced_injective(s, t, (n - 1) as nat);
    }
}

/// The generator runs in a cycle: every state is reached again.
pub proof fn law_cycle(s: Seq<u32>) -> (p: nat)
    requires
        s.len() == 4,
    ensures
        p > 0,
        advanced(s, p) == s,
{
    let count = 0x1_0000_0000_0000_0000_0000_0000_0000_0000nat;
    let numbers = Seq::new(count + 1, |i: int| numbered(advanced(s, i as nat)));
    assert(!numbers.no_duplicates()) by {
        if numbers.no_duplicates() {
            let all = set_int_range(0, count as int);
            lemma_int_range(0, count as int);
            numbers.unique_seq_to_set();
            assert(numbers.to_set().subset_of(all)) by {
                assert forall|x: int| numbers.to_set().contains(x) implies all.contains(x) by {
                    let i = choose|i: int| 0 <= i < numbers.len() && numbers[i] == x;
                    let t = advanced(s, i as nat);
                    assert(numbers[i] == numbered(t));
                }
            }
            lemma_len_subset(numbers.to_set(), all);
        }
    }
    let (i, j) = choose|i: int, j: int|
        0 <= i < numbers.len() && 0 <= j < numbers.len() && i != j && numbers[i] == numbers[j];
    let (m, n) = if i < j {
        (i as nat, j as nat)
    } else {
        (j as nat, i as nat)
    };
    assert(numbers[m as int] == numbered(advanced(s, m)));
    assert(numbers[n as int] == numbered(advanced(s, n)));
    let (x, y) = (advanced(s, m), advanced(s, n));
    lemma_advanced_length(s, m);
    lemma_advanced_length(s, n);
    assert(x[0] == y[0] && x[1] == y[1] && x[2] == y[2] && x[3] == y[3]);
    assert(x =~= y);
    let p = (n - m) as nat;
    lemma_advanced_adds(s, p, m);
    lemma_advanced_length(s, p);
    lemma_advanced_injective(advanced(s, p), s, m);
    p
}

/// Going round the cycle any number of times leads back to the same state.
proof fn lemma_rounds(s: Seq<u32>, p: nat, k: nat)
    requires
        advanced(s, p) == s,
    ensures
        advanced(s, k * p) == s,
    decreases k,
{
    if k == 0 {
        assert(0 * p == 0);
    } else {
        let m = ((k - 1) * p) as nat;
        assert(k * p == m + p && m >= 0) by (nonlinear_arith)
            requires
                m == (k - 1) * p,
                k > 0,
                p >= 0,
        ;
        lemma_rounds(s, p, (k - 1) as nat);
        lemma_advanced_adds(s, m, p);
    }
}

/// The draws never stop varying, whatever the seed: after each there comes a different
/// one.
pub proof fn law_draws_vary(seed: u64, n: nat)
    ensures
        exists|i: nat|
            #[trigger] draw(advanced(seeded(seed), n + i)) != draw(advanced(seeded(seed), n)),
{
    let s = seeded(seed);
    let p = law_cycle(s);
    let m = n * p;
    assert(m >= n) by (nonlinear_arith)
        requires
            m == n * p,
            p > 0,
    ;
    lemma_rounds(s, p, n);
    law_first_draws_vary(seed);
    let i = choose|i: nat| 1 <= i <= 4 && #[trigger] draw(advanced(s, i)) != draw(s);
    lemma_advanced_adds(s, m, i);
    let (near, far) = ((m - n) as nat, (m - n + i) as nat);
    assert(advanced(s, n + near) == s);
    assert(advanced(s, n + far) == advanced(s, i));
    if draw(advanced(s, n + near)) == draw(advanced(s, n)) {
        assert(draw(advanced(s, n + far)) != draw(advanced(s, n)));
    }
}

} // verus!
