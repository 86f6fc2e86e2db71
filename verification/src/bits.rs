//! Binary floating-point numbers as bit patterns.
//!
//! The library computes with integers only. Numbers that the host computes in floating point
//! reach it as IEEE 754 bit patterns; here they are ordered and compared exactly. A comparison
//! with a NaN does not hold, and a roll is never below one. Where numbers are sorted, no NaN
//! is meant to come in; one would be ordered beyond the infinities.
use vstd::arithmetic::power2;
use vstd::prelude::*;

verus! {

/// Bits of 1.0 in 64-bit precision.
pub const ONE_64: u64 = 0x3ff0_0000_0000_0000;

/// An integer that orders 64-bit patterns as the numbers they stand for.
pub open spec fn key64(b: u64) -> int {
    if b < 0x8000_0000_0000_0000 {
        b as int
    } else {
        -(b - 0x8000_0000_0000_0000)
    }
}

/// An integer that orders 32-bit patterns as the numbers they stand for.
pub open spec fn key32(b: u32) -> int {
    if b < 0x8000_0000 {
        b as int
    } else {
        -(b - 0x8000_0000)
    }
}

/// The order of a 64-bit pattern.
pub fn order64(b: u64) -> (r: i64)
    ensures
        r == key64(b),
{
    if b < 0x8000_0000_0000_0000 {
        b as i64
    } else {
        -((b - 0x8000_0000_0000_0000) as i64)
    }
}

/// The order of a 32-bit pattern.
pub fn order32(b: u32) -> (r: i64)
    ensures
        r == key32(b),
{
    if b < 0x8000_0000 {
        b as i64
    } else {
        -((b - 0x8000_0000) as i64)
    }
}

/// A 64-bit pattern that stands for no number.
pub open spec fn nan64(b: u64) -> bool {
    b % 0x8000_0000_0000_0000 > 0x7ff0_0000_0000_0000
}

/// A 32-bit pattern that stands for no number.
pub open spec fn nan32(b: u32) -> bool {
    b % 0x8000_0000 > 0x7f80_0000
}

pub fn is_nan64(b: u64) -> (r: bool)
    ensures
        r == nan64(b),
{
    b % 0x8000_0000_0000_0000 > 0x7ff0_0000_0000_0000
}

pub fn is_nan32(b: u32) -> (r: bool)
    ensures
        r == nan32(b),
{
    b % 0x8000_0000 > 0x7f80_0000
}

/// Two numbers, and the first is below the second.
pub open spec fn less32(a: u32, b: u32) -> bool {
    !nan32(a) && !nan32(b) && key32(a) < key32(b)
}

/// Two numbers, and the first is not above the second.
pub open spec fn at_most32(a: u32, b: u32) -> bool {
    !nan32(a) && !nan32(b) && key32(a) <= key32(b)
}

/// A number above zero.
pub open spec fn positive64(b: u64) -> bool {
    !nan64(b) && key64(b) > 0
}

/// A number above zero.
pub open spec fn positive32(b: u32) -> bool {
    !nan32(b) && key32(b) > 0
}

pub fn is_less32(a: u32, b: u32) -> (r: bool)
    ensures
        r == less32(a, b),
{
    !is_nan32(a) && !is_nan32(b) && order32(a) < order32(b)
}

pub fn is_at_most32(a: u32, b: u32) -> (r: bool)
    ensures
        r == at_most32(a, b),
{
    !is_nan32(a) && !is_nan32(b) && order32(a) <= order32(b)
}

pub fn is_positive64(b: u64) -> (r: bool)
    ensures
        r == positive64(b),
{
    !is_nan64(b) && order64(b) > 0
}

pub fn is_positive32(b: u32) -> (r: bool)
    ensures
        r == positive32(b),
{
    !is_nan32(b) && order32(b) > 0
}

/// The nearest number in [0, 1], as a roll is compared with it: nothing is below a NaN, so one
/// counts as zero.
pub open spec fn clamped(b: u64) -> u64 {
    if nan64(b) || key64(b) <= 0 {
        0
    } else if key64(b) > key64(ONE_64) {
        ONE_64
    } else {
        b
    }
}

/// The nearest number in [0, 1], as a roll is compared with it.
pub fn clamp_unit(b: u64) -> (r: u64)
    ensures
        r == clamped(b),
{
    if is_nan64(b) || order64(b) <= 0 {
        0
    } else if order64(b) > order64(ONE_64) {
        ONE_64
    } else {
        b
    }
}

/// The significand of a pattern, as an integer.
pub open spec fn significand(b: u64) -> int {
    let e = (b / 0x10_0000_0000_0000) % 2048;
    let f = b as int % 0x10_0000_0000_0000;
    if e == 0 {
        f
    } else {
        f + 0x10_0000_0000_0000
    }
}

/// The exponent of a pattern: the number is its significand times two to this less 1075.
pub open spec fn exponent(b: u64) -> nat {
    let e = (b / 0x10_0000_0000_0000) % 2048;
    if e == 0 {
        1
    } else {
        e as nat
    }
}

/// `roll / 2^53` is below the number that a non-negative pattern stands for.
pub open spec fn roll_below(roll: int, b: u64) -> bool {
    roll * power2::pow2(1022) < significand(b) * power2::pow2(exponent(b))
}

/// Whether a 53-bit roll is below a probability.
pub fn roll_is_below(roll: u64, p: u64) -> (r: bool)
    requires
        roll < 0x20_0000_0000_0000,
        key64(p) <= key64(ONE_64),
        p < 0x8000_0000_0000_0000,
    ensures
        r == roll_below(roll as int, p),
{
    let e: u64 = (p / 0x10_0000_0000_0000) % 2048;
    let f: u64 = p % 0x10_0000_0000_0000;
    let (sig, ex): (u64, u64) = if e == 0 {
        (f, 1)
    } else {
        (f + 0x10_0000_0000_0000, e)
    };
    proof {
        assert(e <= 1023);
    }
    if ex == 1023 {
        proof {
            lemma_pow_step(1022, 1);
            assert(roll * power2::pow2(1022) < sig * power2::pow2(1023) <==> roll < 2 * sig) by (nonlinear_arith)
                requires
                    power2::pow2(1023) == 2 * power2::pow2(1022),
                    power2::pow2(1022) > 0,
            ;
        }
        return roll < 2 * sig;
    }
    let k: u64 = 1022 - ex;
    proof {
        lemma_pow_step(ex as nat, k as nat);
        assert(roll * power2::pow2(1022) < sig * power2::pow2(ex as nat) <==> roll * power2::pow2(k as nat) < sig)
            by (nonlinear_arith)
            requires
                power2::pow2(1022) == power2::pow2(k as nat) * power2::pow2(ex as nat),
                power2::pow2(ex as nat) > 0,
        ;
    }
    if k >= 64 {
        proof {
            lemma_pow_step(64, (k - 64) as nat);
            power2::lemma2_to64();
            if roll > 0 {
                assert(roll * power2::pow2(k as nat) >= 0x1_0000_0000_0000_0000) by (nonlinear_arith)
                    requires
                        roll > 0,
                        power2::pow2(k as nat) == power2::pow2((k - 64) as nat) * 0x1_0000_0000_0000_0000,
                        power2::pow2((k - 64) as nat) > 0,
                ;
            } else {
                assert(roll * power2::pow2(k as nat) == 0) by (nonlinear_arith)
                    requires
                        roll == 0,
                ;
            }
        }
        return roll == 0 && sig > 0;
    }
    proof {
        power2::lemma2_to64();
        power2::lemma_pow2_strictly_increases(k as nat, 64);
        assert(roll * power2::pow2(k as nat) < 0x20_0000_0000_0000 * 0x1_0000_0000_0000_0000)
            by (nonlinear_arith)
            requires
                roll < 0x20_0000_0000_0000,
                power2::pow2(k as nat) < 0x1_0000_0000_0000_0000,
        ;
    }
    let scale: u128 = power_of_two(k);
    (roll as u128) * scale < sig as u128
}

/// Two to the power of `k`.
fn power_of_two(k: u64) -> (r: u128)
    requires
        k < 64,
    ensures
        r == power2::pow2(k as nat),
    decreases k,
{
    if k == 0 {
        proof {
            power2::lemma2_to64();
        }
        return 1;
    }
    let half: u128 = power_of_two(k - 1);
    proof {
        lemma_pow_step((k - 1) as nat, 1);
        power2::lemma2_to64();
        power2::lemma_pow2_strictly_increases((k - 1) as nat, 64);
    }
    half * 2
}

proof fn lemma_pow_step(a: nat, b: nat)
    ensures
        power2::pow2(a + b) == power2::pow2(b) * power2::pow2(a),
        power2::pow2(a) > 0,
        power2::pow2(b) > 0,
        b == 1 ==> power2::pow2(b) == 2,
{
    power2::lemma_pow2_adds(a, b);
    power2::lemma_pow2_pos(a);
    power2::lemma_pow2_pos(b);
    power2::lemma2_to64();
    assert(power2::pow2(a) * power2::pow2(b) == power2::pow2(b) * power2::pow2(a)) by (nonlinear_arith);
}

/// The keys order 64-bit patterns as the numbers they stand for: larger patterns of one sign
/// are farther from zero, whatever is negative comes before whatever is not, and the two zeros
/// are one.
pub proof fn law_keys_order_64(a: u64, b: u64)
    ensures
        a < 0x8000_0000_0000_0000 && b < 0x8000_0000_0000_0000 ==> (key64(a) < key64(b) <==> a < b),
        a >= 0x8000_0000_0000_0000 && b >= 0x8000_0000_0000_0000 ==> (key64(a) < key64(b) <==> a
            > b),
        a > 0x8000_0000_0000_0000 && b < 0x8000_0000_0000_0000 ==> key64(a) < key64(b),
        key64(0) == 0 && key64(0x8000_0000_0000_0000) == 0,
{
}

/// The keys order 32-bit patterns as the numbers they stand for.
pub proof fn law_keys_order_32(a: u32, b: u32)
    ensures
        a < 0x8000_0000 && b < 0x8000_0000 ==> (key32(a) < key32(b) <==> a < b),
        a >= 0x8000_0000 && b >= 0x8000_0000 ==> (key32(a) < key32(b) <==> a > b),
        a > 0x8000_0000 && b < 0x8000_0000 ==> key32(a) < key32(b),
        key32(0) == 0 && key32(0x8000_0000) == 0,
{
}

/// Of two numbers one is below the other or they are equal, and only one of the three holds;
/// nothing holds of a NaN. The infinities are numbers, and all others lie between them.
pub proof fn law_numbers_are_in_line(a: u32, b: u32)
    ensures
        nan32(a) || nan32(b) ==> !less32(a, b) && !at_most32(a, b),
        !nan32(a) && !nan32(b) ==> (less32(a, b) <==> !at_most32(b, a)),
        !nan32(a) && !nan32(b) ==> (at_most32(a, b) && at_most32(b, a) <==> key32(a) == key32(b)),
        !less32(a, a),
        !nan32(a) ==> at_most32(a, 0x7f80_0000) && at_most32(0xff80_0000, a),
        positive32(a) <==> less32(0, a),
{
}

/// A chance lies between zero and one, is what was given where that does, and grows with it;
/// what is no number is no chance.
pub proof fn law_chances_are_held(a: u64, b: u64)
    ensures
        0 <= key64(clamped(a)) <= key64(ONE_64),
        nan64(a) ==> clamped(a) == 0,
        !nan64(a) && 0 <= key64(a) <= key64(ONE_64) ==> key64(clamped(a)) == key64(a),
        !nan64(a) && key64(a) < 0 ==> clamped(a) == 0,
        !nan64(a) && key64(a) > key64(ONE_64) ==> clamped(a) == ONE_64,
        !nan64(a) && !nan64(b) && key64(a) <= key64(b) ==> key64(clamped(a)) <= key64(clamped(b)),
        positive64(a) <==> !nan64(a) && key64(a) > 0,
        key64(ONE_64) == 0x3ff0_0000_0000_0000,
{
}

/// No roll is below a chance of zero and every roll is below a chance of one; below a half are
/// just the lower half of the rolls. A roll below another that is below a chance is so too, and
/// a larger chance takes in more rolls.
pub proof fn law_rolls_follow_chances(roll: int, other: int, p: u64, q: u64)
    requires
        0 <= other <= roll < 0x20_0000_0000_0000,
        p <= q < 0x8000_0000_0000_0000,
    ensures
        !roll_below(roll, 0),
        roll_below(roll, 0x3ff0_0000_0000_0000),
        roll_below(roll, 0x3fe0_0000_0000_0000) <==> roll < 0x10_0000_0000_0000,
        roll_below(roll, p) ==> roll_below(other, p),
        roll_below(roll, p) ==> roll_below(roll, q),
{
    power2::lemma_pow2_pos(1022);
    assert(significand(0) == 0);
    assert(0 <= roll * power2::pow2(1022)) by (nonlinear_arith)
        requires
            0 <= roll,
            power2::pow2(1022) > 0,
    ;
    assert(0 * power2::pow2(exponent(0)) == 0);
    // one
    let one: u64 = 0x3ff0_0000_0000_0000;
    assert(one / 0x10_0000_0000_0000 == 1023);
    assert(exponent(one) == 1023 && significand(one) == 0x10_0000_0000_0000);
    lemma_pow_step(1022, 1);
    assert(roll * power2::pow2(1022) < 0x10_0000_0000_0000 * power2::pow2(1023)) by (nonlinear_arith)
        requires
            roll < 0x20_0000_0000_0000,
            power2::pow2(1023) == 2 * power2::pow2(1022),
            power2::pow2(1022) > 0,
    ;
    // half
    let half: u64 = 0x3fe0_0000_0000_0000;
    assert(half / 0x10_0000_0000_0000 == 1022);
    assert(exponent(half) == 1022 && significand(half) == 0x10_0000_0000_0000);
    assert(roll * power2::pow2(1022) < 0x10_0000_0000_0000 * power2::pow2(1022) <==> roll
        < 0x10_0000_0000_0000) by (nonlinear_arith)
        requires
            power2::pow2(1022) > 0,
    ;
    assert(other * power2::pow2(1022) <= roll * power2::pow2(1022)) by (nonlinear_arith)
        requires
            other <= roll,
            power2::pow2(1022) > 0,
    ;
    lemma_value_grows(p, q);
}

/// A larger pattern stands for a number that is no smaller.
proof fn lemma_value_grows(p: u64, q: u64)
    requires
        p <= q < 0x8000_0000_0000_0000,
    ensures
        significand(p) * power2::pow2(exponent(p)) <= significand(q) * power2::pow2(exponent(q)),
{
    let (a, b) = (exponent(p), exponent(q));
    assert(p / 0x10_0000_0000_0000 <= q / 0x10_0000_0000_0000 < 2048);
    assert(a <= b);
    power2::lemma_pow2_pos(a);
    let (s, t) = (significand(p), significand(q));
    if a == b {
        assert(s <= t);
        assert(s * power2::pow2(a) <= t * power2::pow2(a)) by (nonlinear_arith)
            requires
                s <= t,
                power2::pow2(a) > 0,
        ;
    } else {
        let d = (b - a) as nat;
        lemma_pow_step(a, d);
        lemma_pow_step((d - 1) as nat, 1);
        power2::lemma_pow2_pos((d - 1) as nat);
        assert(power2::pow2(d) >= 2) by (nonlinear_arith)
            requires
                power2::pow2(d) == 2 * power2::pow2((d - 1) as nat),
                power2::pow2((d - 1) as nat) > 0,
        ;
        assert(s < 0x20_0000_0000_0000 && t >= 0x10_0000_0000_0000);
        assert(s * power2::pow2(a) <= t * power2::pow2(b)) by (nonlinear_arith)
            requires
                0 <= s < 0x20_0000_0000_0000,
                t >= 0x10_0000_0000_0000,
                power2::pow2(b) == power2::pow2(d) * power2::pow2(a),
                power2::pow2(d) >= 2,
                power2::pow2(a) > 0,
        ;
    }
}

/// The double is the one closest to a fraction, for fractions of a common size.
pub open spec fn closest64(b: u64, num: int, den: int) -> bool {
    let e = b as int / 0x10_0000_0000_0000;
    let m = b as int % 0x10_0000_0000_0000 + 0x10_0000_0000_0000;
    &&& 1011 <= e <= 1075
    &&& -den <= 2 * (den * m - num * power2::pow2((1075 - e) as nat)) <= den
}

/// The single-precision number is the one closest to a fraction, for fractions of a common size.
pub open spec fn closest32(b: u32, num: int, den: int) -> bool {
    let e = b as int / 0x80_0000;
    let m = b as int % 0x80_0000 + 0x80_0000;
    &&& 86 <= e <= 150
    &&& -den <= 2 * (den * m - num * power2::pow2((150 - e) as nat)) <= den
}

} // verus!
