//! Numbers in decimal notation.
use crate::binary32::Binary32;
use crate::powers;
use crate::rounding;
use vstd::arithmetic::div_mod::*;
use vstd::arithmetic::power::*;
use vstd::arithmetic::power2::*;
use vstd::prelude::*;
use vstd::string::*;

verus! {

/// The decimal digit for `d`.
pub open spec fn digit(d: nat) -> char {
    seq!['0', '1', '2', '3', '4', '5', '6', '7', '8', '9'][d as int]
}

/// The decimal digits of `n`, without leading zeros.
pub open spec fn natural_text(n: nat) -> Seq<char>
    decreases n,
{
    if n < 10 {
        seq![digit(n)]
    } else {
        natural_text(n / 10).push(digit(n % 10))
    }
}

/// The last `places` decimal digits of `n`.
pub open spec fn padded_text(n: nat, places: nat) -> Seq<char>
    decreases places,
{
    if places == 0 {
        Seq::empty()
    } else {
        padded_text(n / 10, (places - 1) as nat).push(digit(n % 10))
    }
}

/// Ten to the power of `places`.
pub open spec fn power_of_ten(places: nat) -> nat
    decreases places,
{
    if places == 0 {
        1
    } else {
        10 * power_of_ten((places - 1) as nat)
    }
}

/// The size of a finite number in units of the last decimal place, rounded half to even.
pub open spec fn decimal_units(x: Binary32, places: nat) -> nat {
    rounding::round_half_even(x.size() * power_of_ten(places), pow2(149))
}

/// A number in decimal notation with the given number of places after the point.
pub open spec fn fixed_text(x: Binary32, places: nat) -> Seq<char> {
    let sign = if x.negative() {
        seq!['-']
    } else {
        Seq::empty()
    };
    if x.nan() {
        seq!['N', 'a', 'N']
    } else if x.infinite() {
        sign + seq!['i', 'n', 'f']
    } else {
        let n = decimal_units(x, places);
        let w = power_of_ten(places);
        sign + natural_text(n / w) + seq!['.'] + padded_text(n % w, places)
    }
}

/// Append a decimal digit.
fn append_digit(out: &mut String, d: u8)
    requires
        d < 10,
    ensures
        final(out)@ == old(out)@.push(digit(d as nat)),
{
    proof {
        reveal_strlit("0");
        reveal_strlit("1");
        reveal_strlit("2");
        reveal_strlit("3");
        reveal_strlit("4");
        reveal_strlit("5");
        reveal_strlit("6");
        reveal_strlit("7");
        reveal_strlit("8");
        reveal_strlit("9");
    }
    let text = match d {
        0 => "0",
        1 => "1",
        2 => "2",
        3 => "3",
        4 => "4",
        5 => "5",
        6 => "6",
        7 => "7",
        8 => "8",
        _ => "9",
    };
    out.append(text);
    assert(out@ =~= old(out)@.push(digit(d as nat)));
}

/// Append a natural number in decimal notation.
pub(crate) fn append_natural(out: &mut String, n: u128)
    ensures
        final(out)@ == old(out)@ + natural_text(n as nat),
    decreases n,
{
    if n >= 10 {
        append_natural(out, n / 10);
    }
    append_digit(out, (n % 10) as u8);
    assert(out@ =~= old(out)@ + natural_text(n as nat));
}

/// Append the last decimal digits of a natural number.
fn append_padded(out: &mut String, n: u128, places: u32)
    ensures
        final(out)@ == old(out)@ + padded_text(n as nat, places as nat),
    decreases places,
{
    if places > 0 {
        append_padded(out, n / 10, places - 1);
        append_digit(out, (n % 10) as u8);
    }
    assert(out@ =~= old(out)@ + padded_text(n as nat, places as nat));
}

/// Ten to the power of `places`.
fn ten_to_the(places: u32) -> (w: u128)
    requires
        places <= 6,
    ensures
        w == power_of_ten(places as nat),
        1 <= w <= 1_000_000,
{
    let mut w: u128 = 1;
    let mut i: u32 = 0;
    proof {
        reveal_with_fuel(power_of_ten, 7);
    }
    while i < places
        invariant
            i <= places <= 6,
            w == power_of_ten(i as nat),
        decreases places - i,
    {
        proof {
            reveal_with_fuel(power_of_ten, 7);
        }
        w = w * 10;
        i = i + 1;
    }
    proof {
        reveal_with_fuel(power_of_ten, 7);
    }
    w
}

/// A finite number whose last digit is at or above the point is a whole number.
proof fn lemma_whole(s: nat, k: nat, w: nat)
    requires
        k >= 149,
        w > 0,
    ensures
        ({
            let n = rounding::round_half_even((s * pow2(k)) * w, pow2(149));
            n / w == s * pow2((k - 149) as nat) && n % w == 0
        }),
{
    let v = pow2((k - 149) as nat);
    let u = pow2(149);
    lemma_pow2_adds((k - 149) as nat, 149);
    lemma_pow2_pos(149);
    assert((s * (v * u)) * w == (s * v * w) * u) by (nonlinear_arith);
    rounding::lemma_round_exact(s * v * w, u);
    lemma_fundamental_div_mod_converse((s * v * w) as int, w as int, (s * v) as int, 0);
}

/// The decimal units of a number whose last digit is below the point.
proof fn lemma_fraction(s: nat, k: nat, w: nat)
    requires
        k <= 149,
    ensures
        rounding::round_half_even((s * pow2(k)) * w, pow2(149)) == rounding::round_half_even(
            s * w,
            pow2((149 - k) as nat),
        ),
{
    let v = pow2((149 - k) as nat);
    lemma_pow2_adds((149 - k) as nat, k);
    lemma_pow2_pos(k);
    lemma_pow2_pos((149 - k) as nat);
    rounding::lemma_round_expanded(s * w, v, pow2(k));
    assert((s * pow2(k)) * w == (s * w) * pow2(k)) by (nonlinear_arith);
}

/// What is below half of the last place rounds to zero.
proof fn lemma_tiny(n: nat, q: nat)
    requires
        2 * n < q,
    ensures
        rounding::round_half_even(n, q) == 0,
{
    lemma_basic_div(n as int, q as int);
    lemma_small_mod(n, q);
}

/// The whole part of a finite number, and its fraction in units of the last place.
fn decimal_parts(x: Binary32, places: u32) -> (r: (u128, u128))
    requires
        x.finite(),
        places <= 6,
    ensures
        r.0 == decimal_units(x, places as nat) / power_of_ten(places as nat),
        r.1 == decimal_units(x, places as nat) % power_of_ten(places as nat),
{
    let w = ten_to_the(places);
    let (k, s) = x.split_magnitude();
    proof {
        powers::lemma_pow2_table();
    }
    if k >= 149 {
        let e: u32 = (k - 149) as u32;
        let c = powers::power_of_two(e);
        proof {
            lemma_whole(s as nat, k as nat, w as nat);
            powers::lemma_pow2_le(e as nat, 104);
            assert(s * c < 0x1_0000_0000_0000_0000_0000_0000_0000_0000) by (nonlinear_arith)
                requires
                    0 <= s < 0x100_0000,
                    0 <= c <= 0x100_0000_0000_0000_0000_0000_0000,
            ;
        }
        ((s as u128) * c, 0)
    } else {
        let y: u32 = (149 - k) as u32;
        proof {
            lemma_fraction(s as nat, k as nat, w as nat);
            assert(s * w < 0x1_0000_0000_0000) by (nonlinear_arith)
                requires
                    0 <= s < 0x100_0000,
                    0 <= w <= 1_000_000,
            ;
            lemma_pow2_pos(y as nat);
        }
        let scaled: u128 = (s as u128) * w;
        let n: u128 = if y >= 104 {
            proof {
                powers::lemma_pow2_le(104, y as nat);
                lemma_tiny(scaled as nat, pow2(y as nat));
            }
            0
        } else {
            proof {
                lemma_pow2_strictly_increases(y as nat, 104);
            }
            rounding::divide_half_even(scaled, powers::power_of_two(y))
        };
        (n / w, n % w)
    }
}

/// Append a number in decimal notation with the given number of places after the
/// point, the last one rounded half to even.
pub(crate) fn append_fixed(out: &mut String, x: Binary32, places: u32)
    requires
        places <= 6,
    ensures
        final(out)@ == old(out)@ + fixed_text(x, places as nat),
{
    proof {
        reveal_strlit("NaN");
        reveal_strlit("-");
        reveal_strlit("inf");
        reveal_strlit(".");
    }
    if x.is_nan() {
        out.append("NaN");
        assert("NaN"@ =~= seq!['N', 'a', 'N']);
        return;
    }
    let ghost sign = if x.negative() {
        seq!['-']
    } else {
        Seq::empty()
    };
    if x.is_negative() {
        out.append("-");
        assert("-"@ =~= sign);
    }
    assert(out@ =~= old(out)@ + sign);
    if x.is_infinite() {
        out.append("inf");
        assert("inf"@ =~= seq!['i', 'n', 'f']);
        assert(out@ =~= old(out)@ + (sign + seq!['i', 'n', 'f']));
        return;
    }
    let (whole, fraction) = decimal_parts(x, places);
    append_natural(out, whole);
    out.append(".");
    append_padded(out, fraction, places);
    assert("."@ =~= seq!['.']);
    assert(out@ =~= old(out)@ + fixed_text(x, places as nat));
}

/// The number that a text of decimal digits reads as.
pub open spec fn reading(text: Seq<char>) -> int {
    text.fold_left(0int, |a: int, c: char| 10 * a + (c as u32 - 48))
}

/// Whether a text consists of decimal digits.
pub open spec fn all_digits(text: Seq<char>) -> bool {
    forall|i: int| 0 <= i < text.len() ==> '0' <= #[trigger] text[i] <= '9'
}

/// The digits are the characters from `0` to `9`.
proof fn lemma_digit(d: nat)
    requires
        d < 10,
    ensures
        digit(d) as u32 == 48 + d,
        '0' <= digit(d) <= '9',
        digit(d) == '0' <==> d == 0,
{
}

/// One more digit multiplies the reading by ten and adds the digit.
proof fn lemma_reading_push(text: Seq<char>, c: char)
    ensures
        reading(text.push(c)) == 10 * reading(text) + (c as u32 - 48),
{
    assert(text.push(c).drop_last() =~= text);
}

/// A natural number reads back as itself, in digits without leading zeros.
pub proof fn law_natural_text(n: nat)
    ensures
        reading(natural_text(n)) == n,
        all_digits(natural_text(n)),
        natural_text(n).len() > 0,
        natural_text(n)[0] == '0' ==> n == 0 && natural_text(n).len() == 1,
    decreases n,
{
    if n < 10 {
        lemma_digit(n);
        assert(natural_text(n) =~= Seq::<char>::empty().push(digit(n)));
        lemma_reading_push(Seq::empty(), digit(n));
    } else {
        law_natural_text(n / 10);
        lemma_digit(n % 10);
        lemma_reading_push(natural_text(n / 10), digit(n % 10));
    }
}

/// Padded digits are as many as asked for, and read as the number up to that many digits.
pub proof fn law_padded_text(n: nat, places: nat)
    ensures
        padded_text(n, places).len() == places,
        all_digits(padded_text(n, places)),
        reading(padded_text(n, places)) == n as int % pow(10, places),
    decreases places,
{
    reveal(pow);
    if places > 0 {
        let p = (places - 1) as nat;
        law_padded_text(n / 10, p);
        lemma_digit(n % 10);
        lemma_reading_push(padded_text(n / 10, p), digit(n % 10));
        lemma_pow_positive(10, p);
        lemma_breakdown(n as int, 10, pow(10, p));
    } else {
        assert(padded_text(n, places).len() == 0);
    }
}

/// The powers of ten.
pub proof fn law_power_of_ten(places: nat)
    ensures
        power_of_ten(places) == pow(10, places),
        power_of_ten(places) > 0,
    decreases places,
{
    reveal(pow);
    if places > 0 {
        law_power_of_ten((places - 1) as nat);
    }
}

/// The reading of two texts one after the other.
proof fn lemma_reading_joined(a: Seq<char>, b: Seq<char>)
    ensures
        reading(a + b) == reading(a) * pow(10, b.len()) + reading(b),
    decreases b.len(),
{
    reveal(pow);
    if b.len() == 0 {
        assert(a + b =~= a);
        assert(reading(a) * 1 == reading(a));
    } else {
        let init = b.drop_last();
        assert((a + b).drop_last() =~= a + init);
        lemma_reading_joined(a, init);
        let (x, w) = (reading(a), pow(10, init.len()));
        assert(10 * (x * w) == x * (10 * w)) by (nonlinear_arith);
    }
}

/// What a number in decimal notation says. NaN and the infinities have their names. A
/// finite number has a minus sign where it is negative, digits without leading zeros, a
/// point and as many digits as there are places; and without sign and point these digits
/// read as the integer nearest to the size times the power of ten, the even one of two
/// that are as near.
pub proof fn law_fixed_text(x: Binary32, places: nat)
    ensures
        ({
            let text = fixed_text(x, places);
            let start: int = if x.negative() {
                1
            } else {
                0
            };
            let point = text.len() - places - 1;
            let whole = text.subrange(start, point);
            let fraction = text.subrange(point + 1, text.len() as int);
            let units = reading(whole + fraction);
            let exact = x.size() * pow(10, places);
            &&& x.nan() ==> text == "NaN"@
            &&& x.infinite() && !x.negative() ==> text == "inf"@
            &&& x.infinite() && x.negative() ==> text == "-inf"@
            &&& x.finite() ==> {
                &&& x.negative() ==> text[0] == '-'
                &&& start < point < text.len()
                &&& text[point] == '.'
                &&& all_digits(whole)
                &&& all_digits(fraction)
                &&& whole[0] == '0' ==> whole.len() == 1
                &&& units >= 0
                &&& 2 * (units * pow2(149) - exact) <= pow2(149)
                &&& 2 * (exact - units * pow2(149)) <= pow2(149)
                &&& 2 * (units * pow2(149) - exact) == pow2(149) ==> units % 2 == 0
                &&& 2 * (exact - units * pow2(149)) == pow2(149) ==> units % 2 == 0
            }
        }),
{
    let text = fixed_text(x, places);
    let start: int = if x.negative() {
        1
    } else {
        0
    };
    reveal_strlit("NaN");
    reveal_strlit("inf");
    reveal_strlit("-inf");
    if x.nan() {
        assert(text =~= "NaN"@);
    } else if x.infinite() {
        assert(text =~= if x.negative() {
            "-inf"@
        } else {
            "inf"@
        });
    } else {
        let n = decimal_units(x, places);
        let w = power_of_ten(places);
        let (a, b) = (natural_text(n / w), padded_text(n % w, places));
        law_power_of_ten(places);
        law_natural_text(n / w);
        law_padded_text(n % w, places);
        lemma_small_mod((n % w) as nat, w);
        let point = text.len() - places - 1;
        assert(point == start + a.len());
        assert(text.subrange(start, point) =~= a);
        assert(text.subrange(point + 1, text.len() as int) =~= b);
        lemma_reading_joined(a, b);
        lemma_fundamental_div_mod(n as int, w as int);
        assert((n / w) * w == w * (n / w)) by (nonlinear_arith);
        assert(reading(a + b) == n);
        lemma_pow2_pos(149);
        let (p, q) = (x.size() * w, pow2(149));
        lemma_fundamental_div_mod(p as int, q as int);
        let f = p / q;
        assert((f + 1) * q == f * q + q && q * f == f * q) by (nonlinear_arith);
    }
}

} // verus!
