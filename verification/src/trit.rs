//! Ternary values.
use crate::binary32;
use crate::binary32::Binary32;
use crate::rounding;
use vstd::arithmetic::power2::*;
use vstd::prelude::*;
use vstd::string::*;

verus! {

/// A ternary value: negative, zero or positive.
#[derive(Debug, Clone, Copy, PartialEq, Eq, Hash, Structural)]
pub enum Trit {
    Neg,
    Zero,
    Pos,
}

impl Trit {
    /// The integer that the trit stands for.
    pub open spec fn sign(self) -> int {
        match self {
            Trit::Neg => -1,
            Trit::Zero => 0,
            Trit::Pos => 1,
        }
    }

    /// The trit as a single-precision number: `-1`, `+0` or `1`.
    pub open spec fn number(self) -> Binary32 {
        match self {
            Trit::Neg => Binary32::one().negated(),
            Trit::Zero => Binary32::plus_zero(),
            Trit::Pos => Binary32::one(),
        }
    }

    /// Convert to an integer.
    pub fn to_i8(self) -> (r: i8)
        ensures
            r == self.sign(),
    {
        match self {
            Trit::Neg => -1,
            Trit::Zero => 0,
            Trit::Pos => 1,
        }
    }

    /// Convert to a single-precision number.
    pub fn to_f32(self) -> (r: Binary32)
        ensures
            r == self.number(),
            r.value() == self.sign() * pow2(149),
    {
        proof {
            lemma_number(self);
        }
        match self {
            Trit::Neg => Binary32::one().neg(),
            Trit::Zero => Binary32::plus_zero(),
            Trit::Pos => Binary32::one(),
        }
    }

    /// The trit for `-1`, `0` or `1`; no other integer has one.
    pub fn from_i8(v: i8) -> (r: Option<Self>)
        ensures
            r is Some <==> -1 <= v <= 1,
            r matches Some(t) ==> t.sign() == v,
    {
        match v {
            -1 => Some(Trit::Neg),
            0 => Some(Trit::Zero),
            1 => Some(Trit::Pos),
            _ => None,
        }
    }

    /// The trit in decimal: `-1`, `0` or `1`.
    pub fn to_string(&self) -> (r: String)
        ensures
            r@ == match *self {
                Trit::Neg => seq!['-', '1'],
                Trit::Zero => seq!['0'],
                Trit::Pos => seq!['1'],
            },
    {
        proof {
            reveal_strlit("-1");
            reveal_strlit("0");
            reveal_strlit("1");
        }
        match *self {
            Trit::Neg => String::from_str("-1"),
            Trit::Zero => String::from_str("0"),
            Trit::Pos => String::from_str("1"),
        }
    }
}

/// One is `2^149` units.
pub proof fn lemma_one()
    ensures
        Binary32::one().size() == pow2(149),
        Binary32::one().value() == pow2(149),
        Binary32::one().finite(),
{
    lemma2_to64();
    lemma_pow2_adds(23, 126);
    assert(rounding::exponent(0x3F80_0000) == 126);
    assert(rounding::significand(0x3F80_0000) == 0x80_0000);
}

/// The number of a trit has the value of its integer.
pub proof fn lemma_number(t: Trit)
    ensures
        t.number().value() == t.sign() * pow2(149),
        t.number().finite(),
{
    lemma_one();
    rounding::lemma_units_least();
    assert(Binary32::one().negated().magnitude() == Binary32::one().magnitude());
    assert(-1 * pow2(149) == -(pow2(149) as int));
    assert(0 * pow2(149) == 0);
}

/// What a trit makes of a scale: the scale, its opposite, or nothing.
pub proof fn lemma_trit_times(t: Trit, scale: Binary32)
    requires
        !scale.nan(),
    ensures
        t == Trit::Pos ==> t.number().times(scale) == scale,
        t == Trit::Neg ==> t.number().times(scale) == scale.negated(),
        t == Trit::Zero && scale.finite() ==> t.number().times(scale) == Binary32::of_parts(
            scale.negative(),
            0,
        ),
        t == Trit::Zero && scale.infinite() ==> t.number().times(scale).nan(),
{
    lemma_one();
    binary32::lemma_reassembled(scale);
    let c = pow2(149);
    lemma_pow2_pos(149);
    rounding::lemma_nearest_exact(scale.magnitude(), c);
    assert(c * scale.size() == scale.size() * c) by (nonlinear_arith);
    rounding::lemma_units_least();
    assert(0 * scale.size() == 0);
    rounding::lemma_nearest_exact(0, c);
    assert(0 * c == 0);
}

/// Every trit has an integer of its own, and every integer from `-1` to `1` a trit. The
/// number of a trit has the value of its integer.
pub proof fn law_trit_integers(a: Trit, b: Trit)
    ensures
        -1 <= a.sign() <= 1,
        a.sign() == b.sign() <==> a == b,
        Trit::Neg.sign() < Trit::Zero.sign() < Trit::Pos.sign(),
        a.number().value() == a.sign() * pow2(149),
        a.number().negative() <==> a == Trit::Neg,
{
    lemma_number(a);
}

} // verus!
