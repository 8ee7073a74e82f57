//! Double-precision arithmetic, stated on integers.
//!
//! The grid is laid out in IEEE 754 double precision, so that a rectangle
//! comes out the same to the pixel wherever it is computed. This module
//! says what that arithmetic gives for the few operations the grid needs:
//! the quotient of two coordinates, its product with an integer, the sum of
//! that and a coordinate, and the nearest coordinate. Every result is
//! rounded to 53 significant bits, a tie to the even neighbour.
//!
//! A coordinate has 32 bits, and the integer that a quotient is multiplied
//! by has no more than 53. Every finite number that the operations then
//! yield is a whole multiple of `2^-83` and far from the limits of the
//! format, so that a finite number is modelled by the integer that counts
//! those multiples, and neither overflow nor denormal numbers occur.

use vstd::prelude::*;
use vstd::arithmetic::div_mod::{
    lemma_div_denominator,
    lemma_div_multiples_vanish,
    lemma_div_multiples_vanish_fancy,
    lemma_div_multiples_vanish_quotient,
    lemma_fundamental_div_mod,
    lemma_mod_bound,
    lemma_truncate_middle,
};
use vstd::arithmetic::mul::lemma_mul_is_commutative;
use vstd::arithmetic::power2::{
    lemma2_to64,
    lemma2_to64_rest,
    lemma_pow2_pos,
    lemma_pow2_strictly_increases,
    lemma_pow2_unfold,
    pow2,
};

verus! {

/// The number of binary places behind the point that a finite number is
/// kept with.
pub const FRACTION_BITS: u32 = 83;

/// `2^53`: what a mantissa of 53 bits stays below.
pub const MANTISSA_LIMIT: u64 = 0x20_0000_0000_0000;

/// A double: not a number, an infinity, or a finite number, given as a
/// count of multiples of `2^-83`.
pub enum Number {
    Nan,
    Infinite { negative: bool },
    Finite { scaled: int },
}

/// The magnitude of an integer.
pub open spec fn magnitude(i: int) -> nat {
    if i < 0 {
        (-i) as nat
    } else {
        i as nat
    }
}

/// The number of magnitude `magnitude` with the sign given.
pub open spec fn signed(negative: bool, magnitude: nat) -> int {
    if negative {
        -(magnitude as int)
    } else {
        magnitude as int
    }
}

/// A coordinate, brought into the range of one.
pub open spec fn clamped(i: int) -> int {
    if i < i32::MIN {
        i32::MIN as int
    } else if i > i32::MAX {
        i32::MAX as int
    } else {
        i
    }
}

/// How many of its low bits `n` has to give up to fit in 53 bits.
pub open spec fn excess_bits(n: nat) -> nat
    decreases n,
{
    if n < MANTISSA_LIMIT {
        0
    } else {
        1 + excess_bits(n / 2)
    }
}

/// `a / b`, rounded to the nearest integer, a tie to the even one.
pub open spec fn div_round_even(a: nat, b: nat) -> nat
    recommends
        b > 0,
{
    let q = a / b;
    let r = a % b;
    if 2 * r < b || (2 * r == b && q % 2 == 0) {
        q
    } else {
        q + 1
    }
}

/// `a / b`, rounded to 53 significant bits, a tie to the even neighbour.
pub open spec fn round_significant(a: nat, b: nat) -> nat
    recommends
        b > 0,
{
    let k = excess_bits(a / b);
    div_round_even(a, b * pow2(k)) * pow2(k)
}

/// The double that equals the integer `i`, which has no more than 53 bits.
pub open spec fn whole(i: int) -> Number {
    Number::Finite { scaled: i * pow2(FRACTION_BITS as nat) }
}

/// The double nearest to `a / b`. Division by zero gives an infinity with
/// the sign of `a`, and no number if `a` is zero too.
pub open spec fn quotient(a: int, b: int) -> Number {
    if b != 0 {
        Number::Finite {
            scaled: signed(
                (a < 0) != (b < 0),
                round_significant(magnitude(a) * pow2(FRACTION_BITS as nat), magnitude(b)),
            ),
        }
    } else if a != 0 {
        Number::Infinite { negative: a < 0 }
    } else {
        Number::Nan
    }
}

/// The double nearest to `n * s`. An infinity times zero is no number.
pub open spec fn times(n: Number, s: int) -> Number {
    match n {
        Number::Nan => Number::Nan,
        Number::Infinite { negative } => if s == 0 {
            Number::Nan
        } else {
            Number::Infinite { negative: negative != (s < 0) }
        },
        Number::Finite { scaled } => Number::Finite {
            scaled: signed((scaled < 0) != (s < 0), round_significant(magnitude(scaled * s), 1)),
        },
    }
}

/// The double nearest to `x + n`.
pub open spec fn plus(x: int, n: Number) -> Number {
    match n {
        Number::Finite { scaled } => {
            let sum = x * pow2(FRACTION_BITS as nat) + scaled;
            Number::Finite { scaled: signed(sum < 0, round_significant(magnitude(sum), 1)) }
        },
        _ => n,
    }
}

/// A count of multiples of `2^-83`, rounded to the nearest integer, a tie
/// away from zero.
pub open spec fn round_half_away(scaled: int) -> int {
    signed(
        scaled < 0,
        (magnitude(scaled) + pow2((FRACTION_BITS - 1) as nat)) / pow2(FRACTION_BITS as nat),
    )
}

/// The pixel coordinate nearest to `n`: `n` rounded to an integer, a tie
/// away from zero, and brought into the range of a coordinate. What is no
/// number gives 0.
pub open spec fn nearest_pixel(n: Number) -> int {
    match n {
        Number::Nan => 0,
        Number::Infinite { negative } => if negative {
            i32::MIN as int
        } else {
            i32::MAX as int
        },
        Number::Finite { scaled } => clamped(round_half_away(scaled)),
    }
}

/// Rounding to 53 significant bits gives the nearest number that 53 bits
/// can hold: a multiple of the unit in the last place, no further than half
/// a unit from the quotient, and the even multiple where two are as near.
pub proof fn lemma_round_significant_is_nearest(a: nat, b: nat)
    requires
        b > 0,
    ensures
        ({
            let unit = pow2(excess_bits(a / b));
            let rounded = round_significant(a, b);
            let distance = if rounded * b < a {
                a - rounded * b
            } else {
                rounded * b - a
            };
            &&& rounded == (rounded / unit) * unit
            &&& rounded / unit <= MANTISSA_LIMIT
            &&& 2 * distance <= unit * b
            &&& 2 * distance == unit * b ==> (rounded / unit) % 2 == 0
        }),
{
    let unit = pow2(excess_bits(a / b));
    let d = b * unit;
    let q = a / d;
    let rest = a % d;
    let m = div_round_even(a, d);
    lemma_pow2_pos(excess_bits(a / b));
    assert(d > 0) by (nonlinear_arith)
        requires
            d == b * unit,
            b > 0,
            unit > 0,
    ;
    lemma_fundamental_div_mod(a as int, d as int);
    lemma_mod_bound(a as int, d as int);
    lemma_excess_bits_leave_53(a / b);
    lemma_div_denominator(a as int, b as int, unit as int);
    lemma_div_multiples_vanish(m as int, unit as int);
    assert(unit * m == m * unit) by (nonlinear_arith);
    assert((m * unit) * b - a == (m - q) * d - rest && unit * b == d) by (nonlinear_arith)
        requires
            a == d * q + rest,
            d == b * unit,
    ;
    if m == q {
        assert((m - q) * d == 0) by (nonlinear_arith)
            requires
                m == q,
        ;
    } else {
        assert((m - q) * d == d) by (nonlinear_arith)
            requires
                m == q + 1,
        ;
    }
}

/// An integer of no more than 53 bits is a double as it stands.
pub proof fn lemma_round_significant_keeps_53_bits(a: nat)
    requires
        a < MANTISSA_LIMIT,
    ensures
        round_significant(a, 1) == a,
{
    lemma2_to64();
    assert(a / 1 == a);
    assert(excess_bits(a) == 0);
    assert(1 * pow2(0) == 1);
    assert(div_round_even(a, 1) == a);
    assert(round_significant(a, 1) == div_round_even(a, 1) * 1);
}

/// What is left of `n` after it gave up its excess bits fits in 53 bits,
/// and fills them if any bit was given up.
pub proof fn lemma_excess_bits_leave_53(n: nat)
    ensures
        n / pow2(excess_bits(n)) < MANTISSA_LIMIT,
        excess_bits(n) > 0 ==> 2 * (n / pow2(excess_bits(n))) >= MANTISSA_LIMIT,
    decreases n,
{
    lemma2_to64();
    if n >= MANTISSA_LIMIT {
        let k = excess_bits(n / 2);
        lemma_excess_bits_leave_53(n / 2);
        lemma_pow2_unfold(k + 1);
        lemma_pow2_pos(k);
        lemma_div_denominator(n as int, 2, pow2(k) as int);
    }
}

/// A number below `2^(53 + j)` gives up `j` bits at most.
pub proof fn lemma_excess_bits_bound(n: nat, j: nat)
    requires
        n < pow2(53 + j),
    ensures
        excess_bits(n) <= j,
    decreases n,
{
    lemma2_to64_rest();
    if n >= MANTISSA_LIMIT {
        // `n` is not below `2^53`, so `j` is not 0.
        assert(j > 0);
        lemma_pow2_unfold(53 + j);
        lemma_excess_bits_bound(n / 2, (j - 1) as nat);
    }
}

/// Rounding a quotient does not depend on the scale of the fraction.
pub proof fn lemma_div_round_even_scales(a: nat, b: nat, c: nat)
    requires
        b > 0,
        c > 0,
    ensures
        div_round_even(a * c, b * c) == div_round_even(a, b),
{
    lemma_div_multiples_vanish_quotient(c as int, a as int, b as int);
    lemma_truncate_middle(a as int, c as int, b as int);
    lemma_mul_is_commutative(a as int, c as int);
    lemma_mul_is_commutative(b as int, c as int);
    let r = a % b;
    // Quotient and remainder of the scaled fraction.
    assert((a * c) / (b * c) == a / b);
    assert((a * c) % (b * c) == c * r);
    assert(2 * (c * r) < b * c <==> 2 * r < b) by (nonlinear_arith)
        requires
            c > 0,
    ;
    assert(2 * (c * r) == b * c <==> 2 * r == b) by (nonlinear_arith)
        requires
            c > 0,
    ;
}

/// Twice a number rounds to twice what the number rounds to.
proof fn lemma_round_significant_doubles(a: nat)
    ensures
        round_significant(2 * a, 1) == 2 * round_significant(a, 1),
{
    lemma2_to64();
    let k = excess_bits(a);
    lemma_pow2_pos(k);
    assert(a / 1 == a && (2 * a) / 1 == 2 * a && (2 * a) / 2 == a);
    if 2 * a < MANTISSA_LIMIT {
        lemma_round_significant_keeps_53_bits(a);
        lemma_round_significant_keeps_53_bits(2 * a);
    } else if a < MANTISSA_LIMIT {
        // One bit is given up, and it is zero.
        lemma_round_significant_keeps_53_bits(a);
        assert(excess_bits(2 * a) == 1);
        assert(1 * pow2(1) == 2);
        assert(div_round_even(2 * a, 2) == a);
        assert(round_significant(2 * a, 1) == div_round_even(2 * a, 2) * 2);
    } else {
        // One more bit is given up than before, out of twice as much.
        let m = div_round_even(a, pow2(k));
        assert(excess_bits(2 * a) == 1 + k);
        lemma_pow2_unfold(k + 1);
        lemma_div_round_even_scales(a, pow2(k), 2);
        assert(1 * pow2(k + 1) == pow2(k) * 2);
        assert(1 * pow2(k) == pow2(k));
        assert(2 * a == a * 2);
        assert(round_significant(2 * a, 1) == m * pow2(k + 1));
        assert(round_significant(a, 1) == m * pow2(k));
        assert(m * pow2(k + 1) == 2 * (m * pow2(k))) by (nonlinear_arith)
            requires
                pow2(k + 1) == 2 * pow2(k),
        ;
    }
}

/// Rounding to significant bits goes along with a shift to the left: the
/// low bits that the shift brings in are zero.
pub proof fn lemma_round_significant_shifts(a: nat, k: nat)
    ensures
        round_significant(a * pow2(k), 1) == round_significant(a, 1) * pow2(k),
    decreases k,
{
    if k == 0 {
        lemma2_to64();
    } else {
        let h = (k - 1) as nat;
        lemma_pow2_unfold(k);
        lemma_round_significant_shifts(a, h);
        lemma_round_significant_doubles(a * pow2(h));
        assert(a * pow2(k) == 2 * (a * pow2(h))) by (nonlinear_arith)
            requires
                pow2(k) == 2 * pow2(h),
        ;
        assert(2 * (round_significant(a, 1) * pow2(h)) == round_significant(a, 1) * pow2(k))
            by (nonlinear_arith)
            requires
                pow2(k) == 2 * pow2(h),
        ;
    }
}

/// A whole number is its own nearest integer.
pub proof fn lemma_nearest_pixel_of_whole(i: int)
    ensures
        nearest_pixel(whole(i)) == clamped(i),
{
    let unit = pow2(83);
    let size = magnitude(i);
    lemma_pow2_pos(83);
    lemma_pow2_strictly_increases(82, 83);
    assert(magnitude(i * unit) == unit * size && (i * unit < 0) == (i < 0)) by (nonlinear_arith)
        requires
            unit > 0,
            size == magnitude(i),
    ;
    lemma_div_multiples_vanish_fancy(size as int, pow2(82) as int, unit as int);
}

/// The product of two whole numbers is exact as long as it has no more
/// than 53 bits.
pub proof fn lemma_times_whole(i: int, s: int)
    requires
        magnitude(i * s) < MANTISSA_LIMIT,
    ensures
        times(whole(i), s) == whole(i * s),
{
    let unit = pow2(83);
    let size = magnitude(i * s);
    lemma_pow2_pos(83);
    assert(magnitude((i * unit) * s) == size * unit && (i * unit < 0) == (i < 0) && (i * unit) * s
        == (i * s) * unit) by (nonlinear_arith)
        requires
            unit > 0,
            size == magnitude(i * s),
    ;
    lemma_round_significant_shifts(size, 83);
    lemma_round_significant_keeps_53_bits(size);
    assert(signed((i < 0) != (s < 0), size) == i * s) by (nonlinear_arith)
        requires
            size == magnitude(i * s),
    ;
    assert(signed((i < 0) != (s < 0), (size * unit) as nat) == (i * s) * unit) by (nonlinear_arith)
        requires
            signed((i < 0) != (s < 0), size) == i * s,
            unit > 0,
    ;
}

/// The sum of two whole numbers is exact as long as it has no more than 53
/// bits.
pub proof fn lemma_plus_whole(x: int, i: int)
    requires
        magnitude(x + i) < MANTISSA_LIMIT,
    ensures
        plus(x, whole(i)) == whole(x + i),
{
    let unit = pow2(83);
    let size = magnitude(x + i);
    let sum = x * unit + i * unit;
    lemma_pow2_pos(83);
    assert(magnitude(sum) == size * unit && (sum < 0) == (x + i < 0) && sum == (x + i) * unit)
        by (nonlinear_arith)
        requires
            unit > 0,
            size == magnitude(x + i),
            sum == x * unit + i * unit,
    ;
    lemma_round_significant_shifts(size, 83);
    lemma_round_significant_keeps_53_bits(size);
    assert(signed(x + i < 0, (size * unit) as nat) == (x + i) * unit) by (nonlinear_arith)
        requires
            size == magnitude(x + i),
            unit > 0,
    ;
}

/// Where the divisor goes into the dividend without remainder, the
/// quotient is exact.
pub proof fn lemma_quotient_without_remainder(a: int, b: int)
    requires
        b != 0,
        magnitude(a) % magnitude(b) == 0,
        magnitude(a) / magnitude(b) < MANTISSA_LIMIT,
    ensures
        quotient(a, b) == whole(signed((a < 0) != (b < 0), magnitude(a) / magnitude(b))),
{
    let unit = pow2(83);
    let (n, d) = (magnitude(a), magnitude(b));
    let q = n / d;
    let top = q * unit;
    lemma_pow2_pos(83);
    lemma_fundamental_div_mod(n as int, d as int);
    assert(n * unit == d * top) by (nonlinear_arith)
        requires
            n == d * q,
            top == q * unit,
    ;
    lemma_div_multiples_vanish(top as int, d as int);
    assert((n * unit) / d == top);
    assert(top / 1 == top);
    let k = excess_bits(top);
    lemma_pow2_pos(k);
    lemma_div_round_even_scales(top, pow2(k), d);
    assert(n * unit == top * d && d * pow2(k) == pow2(k) * d && 1 * pow2(k) == pow2(k))
        by (nonlinear_arith)
        requires
            n * unit == d * top,
    ;
    assert(round_significant(n * unit, d) == round_significant(top, 1));
    lemma_round_significant_shifts(q, 83);
    lemma_round_significant_keeps_53_bits(q);
    let negative = (a < 0) != (b < 0);
    assert(signed(negative, top) == signed(negative, q) * unit) by (nonlinear_arith)
        requires
            top == q * unit,
    ;
}

/// How far a number is from what it rounds to: half a unit in the last
/// place at most, and that unit is small beside the number.
pub proof fn lemma_round_significant_error(a: nat, b: nat)
    requires
        b > 0,
    ensures
        ({
            let unit = pow2(excess_bits(a / b));
            let rounded = round_significant(a, b);
            &&& -(unit * b) <= 2 * (rounded * b - a) <= unit * b
            &&& unit == 1 || unit * b * 0x10_0000_0000_0000 <= a
        }),
{
    let k = excess_bits(a / b);
    let unit = pow2(k);
    lemma_round_significant_is_nearest(a, b);
    lemma_excess_bits_leave_53(a / b);
    lemma_pow2_pos(k);
    lemma2_to64();
    if k > 0 {
        let q = a / b;
        lemma_fundamental_div_mod(a as int, b as int);
        lemma_fundamental_div_mod(q as int, unit as int);
        lemma_mod_bound(a as int, b as int);
        lemma_mod_bound(q as int, unit as int);
        assert(unit * b * 0x10_0000_0000_0000 <= a) by (nonlinear_arith)
            requires
                q / unit >= 0x10_0000_0000_0000,
                q >= unit * (q / unit),
                a >= b * q,
                unit > 0,
                b > 0,
        ;
    }
}

/// A count of multiples of `2^-83` is no further than half of one from the
/// integer it rounds to.
pub proof fn lemma_round_half_away_error(scaled: int)
    ensures
        -pow2(82) <= round_half_away(scaled) * pow2(83) - scaled <= pow2(82),
{
    let half = pow2(82);
    let one = pow2(83);
    let size = magnitude(scaled);
    let m = (size + half) / one;
    lemma_pow2_unfold(83);
    lemma_pow2_pos(82);
    lemma_fundamental_div_mod((size + half) as int, one as int);
    lemma_mod_bound((size + half) as int, one as int);
    assert(one * m == m * one) by (nonlinear_arith);
    assert(signed(scaled < 0, m) * one == signed(scaled < 0, (m * one) as nat)) by (nonlinear_arith)
        requires
            m >= 0,
            one > 0,
    ;
}

} // verus!
