//! Double-precision arithmetic, carried out on integers.
//!
//! A finite number is held as a mantissa of no more than 53 bits and the
//! number of places it is shifted to the left, in multiples of `2^-83`.
//! The operations compute with 128-bit integers what
//! [`binary64`](crate::binary64) states.

use vstd::prelude::*;
use vstd::arithmetic::div_mod::{
    lemma_basic_div,
    lemma_div_denominator,
    lemma_div_is_ordered_by_denominator,
    lemma_div_multiples_vanish_fancy,
    lemma_div_multiples_vanish_quotient,
    lemma_fundamental_div_mod,
    lemma_mod_bound,
};
use vstd::arithmetic::power2::{
    lemma2_to64,
    lemma2_to64_rest,
    lemma_pow2_adds,
    lemma_pow2_pos,
    lemma_pow2_strictly_increases,
    lemma_pow2_unfold,
    pow2,
};
use crate::binary64::{
    div_round_even,
    excess_bits,
    lemma_excess_bits_bound,
    lemma_excess_bits_leave_53,
    lemma_round_significant_keeps_53_bits,
    lemma_round_significant_shifts,
    magnitude,
    nearest_pixel,
    plus,
    quotient,
    round_significant,
    signed,
    times,
    Number,
    FRACTION_BITS,
    MANTISSA_LIMIT,
};

verus! {

/// A double as the arithmetic holds it: a finite number is its mantissa,
/// shifted to the left, in multiples of `2^-83`.
#[derive(Debug, Clone, Copy)]
pub enum Double {
    Nan,
    Infinite { negative: bool },
    Finite { negative: bool, mantissa: u64, shift: u32 },
}

impl View for Double {
    type V = Number;

    open spec fn view(&self) -> Number {
        match *self {
            Double::Nan => Number::Nan,
            Double::Infinite { negative } => Number::Infinite { negative },
            Double::Finite { negative, mantissa, shift } => Number::Finite {
                scaled: signed(negative, mantissa as nat * pow2(shift as nat)),
            },
        }
    }
}

impl Double {
    /// The mantissa of a finite number has no more than 53 bits, but for
    /// `2^53` itself, and the shift is `limit` at most.
    pub open spec fn is_within(self, limit: nat) -> bool {
        match self {
            Double::Finite { mantissa, shift, .. } => mantissa <= MANTISSA_LIMIT && shift <= limit,
            _ => true,
        }
    }
}

/// The values of the powers of two that the bounds below rest on.
proof fn lemma_pow2_values()
    ensures
        pow2(0) == 1,
        pow2(32) == 0x1_0000_0000,
        pow2(33) == 0x2_0000_0000,
        pow2(52) == 0x10_0000_0000_0000,
        pow2(53) == 0x20_0000_0000_0000,
        pow2(54) == 0x40_0000_0000_0000,
        pow2(64) == 0x1_0000_0000_0000_0000,
        pow2(126) == 0x4000_0000_0000_0000_0000_0000_0000_0000,
        pow2(128) == 0x1_0000_0000_0000_0000_0000_0000_0000_0000,
{
    lemma2_to64();
    lemma2_to64_rest();
    lemma_pow2_adds(63, 63);
    lemma_pow2_adds(64, 64);
}

/// Powers of two grow with the exponent.
proof fn lemma_pow2_grows(a: nat, b: nat)
    requires
        a <= b,
    ensures
        pow2(a) <= pow2(b),
{
    if a < b {
        lemma_pow2_strictly_increases(a, b);
    }
}

/// Computes `2^k`.
fn two_to(k: u32) -> (p: u128)
    requires
        k <= 126,
    ensures
        p == pow2(k as nat),
{
    let mut p: u128 = 1;
    let mut i: u32 = 0;
    proof {
        lemma_pow2_values();
    }
    while i < k
        invariant
            i <= k <= 126,
            p == pow2(i as nat),
        decreases k - i,
    {
        proof {
            lemma_pow2_values();
            lemma_pow2_unfold((i + 1) as nat);
            lemma_pow2_grows((i + 1) as nat, 126);
        }
        p = p * 2;
        i = i + 1;
    }
    p
}

/// Counts the bits that `n` has beyond 53.
fn excess(n: u128) -> (k: u32)
    ensures
        k == excess_bits(n as nat),
        k <= 75,
{
    let mut k: u32 = 0;
    let mut rest: u128 = n;
    proof {
        lemma_pow2_values();
        lemma_excess_bits_bound(n as nat, 75);
    }
    while rest >= MANTISSA_LIMIT as u128
        invariant
            excess_bits(n as nat) == k + excess_bits(rest as nat),
            excess_bits(n as nat) <= 75,
        decreases rest,
    {
        rest = rest / 2;
        k = k + 1;
    }
    k
}

/// Rounds `n / d` to 53 significant bits: the mantissa, and the shift that
/// goes with it.
fn round_ratio(n: u128, d: u128) -> (r: (u64, u32))
    requires
        d > 0,
        n < 0x8000_0000_0000_0000_0000_0000_0000_0000,
        d < 0x8000_0000_0000_0000_0000_0000_0000_0000,
    ensures
        r.0 as nat * pow2(r.1 as nat) == round_significant(n as nat, d as nat),
        r.1 == excess_bits(n as nat / d as nat),
        r.0 <= MANTISSA_LIMIT,
{
    let k = excess(n / d);
    let p = two_to(k);
    proof {
        lemma_pow2_values();
        lemma_pow2_pos(k as nat);
        lemma_excess_bits_leave_53((n / d) as nat);
        lemma_div_denominator(n as int, d as int, p as int);
        if k > 0 {
            // The quotient fills 53 bits after the shift, so the shifted
            // divisor is far below the dividend.
            lemma_fundamental_div_mod(n as int, d as int);
            lemma_fundamental_div_mod((n / d) as int, p as int);
            lemma_mod_bound(n as int, d as int);
            lemma_mod_bound((n / d) as int, p as int);
            assert(d * p <= n) by (nonlinear_arith)
                requires
                    n / d >= p * (n / d / p),
                    n / d / p >= 1,
                    n >= d * (n / d),
                    d > 0,
                    p > 0,
            ;
        } else {
            assert(d * p == d) by (nonlinear_arith)
                requires
                    p == 1,
            ;
        }
    }
    let shifted = d * p;
    let q = n / shifted;
    let rest = n % shifted;
    let up = rest > shifted - rest || (rest == shifted - rest && q % 2 == 1);
    let m = if up {
        q + 1
    } else {
        q
    };
    assert(m == div_round_even(n as nat, d as nat * pow2(k as nat)));
    (m as u64, k)
}

/// The magnitude of a coordinate.
fn magnitude_of(i: i64) -> (m: u64)
    requires
        i > i64::MIN,
    ensures
        m == magnitude(i as int),
{
    if i < 0 {
        (-i) as u64
    } else {
        i as u64
    }
}

/// Divides two integers.
pub fn divide(a: i32, b: i32) -> (r: Double)
    ensures
        r@ == quotient(a as int, b as int),
        r.is_within(62),
{
    if b == 0 {
        return if a == 0 {
            Double::Nan
        } else {
            Double::Infinite { negative: a < 0 }
        };
    }
    let one = two_to(FRACTION_BITS);
    let n = magnitude_of(a as i64) as u128;
    let d = magnitude_of(b as i64) as u128;
    proof {
        lemma_pow2_values();
        lemma_pow2_adds(83, 32);
        lemma_pow2_grows(115, 126);
        lemma_pow2_pos(83);
        assert(n * one < pow2(83) * pow2(32)) by (nonlinear_arith)
            requires
                n <= 0x8000_0000,
                one == pow2(83),
                pow2(32) == 0x1_0000_0000,
                pow2(83) > 0,
        ;
    }
    let top = n * one;
    proof {
        lemma_div_is_ordered_by_denominator(top as int, 1, d as int);
        lemma_excess_bits_bound((top / d) as nat, 62);
    }
    let (mantissa, shift) = round_ratio(top, d);
    Double::Finite { negative: (a < 0) != (b < 0), mantissa, shift }
}

/// Multiplies a quotient by an integer of no more than 53 bits.
pub fn scale(v: Double, s: i64) -> (r: Double)
    requires
        v.is_within(62),
        -MANTISSA_LIMIT <= s <= MANTISSA_LIMIT,
    ensures
        r@ == times(v@, s as int),
        r.is_within(116),
{
    match v {
        Double::Nan => Double::Nan,
        Double::Infinite { negative } => if s == 0 {
            Double::Nan
        } else {
            Double::Infinite { negative: negative != (s < 0) }
        },
        Double::Finite { negative, mantissa, shift } => {
            let by = magnitude_of(s) as u128;
            proof {
                lemma_pow2_values();
                lemma_pow2_adds(53, 54);
                lemma_pow2_grows(107, 126);
                assert(mantissa * by < pow2(53) * pow2(54)) by (nonlinear_arith)
                    requires
                        mantissa <= 0x20_0000_0000_0000,
                        by <= 0x20_0000_0000_0000,
                        pow2(53) == 0x20_0000_0000_0000,
                        pow2(54) == 0x40_0000_0000_0000,
                ;
            }
            let product = mantissa as u128 * by;
            proof {
                lemma_excess_bits_bound(product as nat, 54);
            }
            let (m, j) = round_ratio(product, 1);
            proof {
                let k = shift as nat;
                let scaled = signed(negative, mantissa as nat * pow2(k));
                lemma_pow2_pos(k);
                lemma_round_significant_shifts(product as nat, k);
                lemma_pow2_adds(j as nat, k);
                assert(magnitude(scaled * s) == product * pow2(k)) by (nonlinear_arith)
                    requires
                        product == mantissa * by,
                        by == magnitude(s as int),
                        scaled == signed(negative, mantissa as nat * pow2(k)),
                ;
                assert(m * pow2(j as nat) * pow2(k) == m * pow2((shift + j) as nat))
                    by (nonlinear_arith)
                    requires
                        pow2((j + k) as nat) == pow2(j as nat) * pow2(k),
                        shift + j == j + k,
                ;
                if product > 0 {
                    assert(mantissa > 0) by (nonlinear_arith)
                        requires
                            mantissa * by > 0,
                            by >= 0,
                    ;
                    assert(mantissa as nat * pow2(k) > 0) by (nonlinear_arith)
                        requires
                            mantissa > 0,
                            pow2(k) > 0,
                    ;
                } else {
                    lemma_round_significant_keeps_53_bits(0);
                    assert(m * pow2(j as nat) == 0);
                }
            }
            Double::Finite { negative: negative != (s < 0), mantissa: m, shift: shift + j }
        },
    }
}

/// Adds a coordinate and a product.
pub fn offset(x: i32, v: Double) -> (r: Double)
    requires
        v.is_within(116),
    ensures
        r@ == plus(x as int, v@),
{
    match v {
        Double::Finite { negative, mantissa, shift } => {
            // Both terms are brought to the larger of their two units.
            let common = if shift < FRACTION_BITS {
                shift
            } else {
                FRACTION_BITS
            };
            let lift = two_to(FRACTION_BITS - common);
            let raise = two_to(shift - common);
            proof {
                lemma_pow2_values();
                lemma_pow2_grows((83 - common) as nat, 83);
                lemma_pow2_grows((shift - common) as nat, 33);
                lemma_pow2_adds(83, 32);
                lemma_pow2_adds(83, 3);
                lemma_pow2_adds(53, 33);
                lemma_pow2_pos((83 - common) as nat);
                lemma2_to64();
                assert(-pow2(83) * 0x8000_0000 <= x * lift <= pow2(83) * 0x8000_0000)
                    by (nonlinear_arith)
                    requires
                        -0x8000_0000 <= x <= 0x8000_0000,
                        0 < lift <= pow2(83),
                ;
                assert(mantissa * raise <= pow2(53) * pow2(33)) by (nonlinear_arith)
                    requires
                        mantissa <= pow2(53),
                        raise <= pow2(33),
                ;
                assert(pow2(83) * 0x8000_0000 + pow2(83) * 8 < pow2(83) * pow2(32))
                    by (nonlinear_arith)
                    requires
                        pow2(83) > 0,
                        pow2(32) == 0x1_0000_0000,
                ;
                lemma_pow2_grows(115, 126);
            }
            let whole_part: i128 = x as i128 * lift as i128;
            let part: i128 = (mantissa as u128 * raise) as i128;
            let sum: i128 = if negative {
                whole_part - part
            } else {
                whole_part + part
            };
            let size: u128 = if sum < 0 {
                (-sum) as u128
            } else {
                sum as u128
            };
            let (m, j) = round_ratio(size, 1);
            proof {
                let c = common as nat;
                let exact = x * pow2(83) + signed(negative, mantissa as nat * pow2(shift as nat));
                lemma_pow2_adds((83 - c) as nat, c);
                lemma_pow2_adds((shift - c) as nat, c);
                lemma_pow2_pos(c);
                assert(exact == sum * pow2(c)) by (nonlinear_arith)
                    requires
                        exact == x * pow2(83) + signed(
                            negative,
                            mantissa as nat * pow2(shift as nat),
                        ),
                        pow2(83) == lift * pow2(c),
                        pow2(shift as nat) == raise * pow2(c),
                        sum == x * lift + signed(negative, mantissa as nat * raise as nat),
                ;
                assert(magnitude(exact) == size * pow2(c) && (exact < 0) == (sum < 0))
                    by (nonlinear_arith)
                    requires
                        exact == sum * pow2(c),
                        pow2(c) > 0,
                        size == magnitude(sum as int),
                ;
                lemma_excess_bits_bound(size as nat, 62);
                lemma_round_significant_shifts(size as nat, c);
                lemma_pow2_adds(j as nat, c);
                assert(m * pow2(j as nat) * pow2(c) == m * pow2((common + j) as nat))
                    by (nonlinear_arith)
                    requires
                        pow2((j + c) as nat) == pow2(j as nat) * pow2(c),
                        common + j == j + c,
                ;
            }
            Double::Finite { negative: sum < 0, mantissa: m, shift: common + j }
        },
        _ => v,
    }
}

/// Rounds a double to the nearest pixel coordinate.
pub fn to_pixel(v: Double) -> (r: i32)
    ensures
        r == nearest_pixel(v@),
{
    match v {
        Double::Nan => 0,
        Double::Infinite { negative } => if negative {
            i32::MIN
        } else {
            i32::MAX
        },
        Double::Finite { negative, mantissa, shift } => {
            let ghost rounded = (mantissa as nat * pow2(shift as nat) + pow2(82)) / pow2(83);
            proof {
                lemma_pow2_values();
                lemma_pow2_pos(shift as nat);
                lemma_pow2_pos(83);
                lemma_pow2_strictly_increases(82, 83);
            }
            // The rounded magnitude, or 2^32 where it is larger than that.
            let size: u128 = if mantissa == 0 {
                proof {
                    assert(mantissa as nat * pow2(shift as nat) == 0) by (nonlinear_arith)
                        requires
                            mantissa == 0,
                    ;
                    lemma_basic_div(pow2(82) as int, pow2(83) as int);
                }
                0
            } else if shift >= FRACTION_BITS {
                let e = shift - FRACTION_BITS;
                proof {
                    lemma_pow2_adds(83, e as nat);
                    lemma_pow2_pos(e as nat);
                    assert(mantissa as nat * pow2(shift as nat) == pow2(83) * (mantissa * pow2(
                        e as nat,
                    ))) by (nonlinear_arith)
                        requires
                            pow2(shift as nat) == pow2(83) * pow2(e as nat),
                    ;
                    lemma_div_multiples_vanish_fancy(
                        mantissa * pow2(e as nat),
                        pow2(82) as int,
                        pow2(83) as int,
                    );
                    assert(rounded == mantissa * pow2(e as nat));
                }
                if e >= 32 {
                    proof {
                        lemma_pow2_grows(32, e as nat);
                        assert(mantissa * pow2(e as nat) >= 0x1_0000_0000) by (nonlinear_arith)
                            requires
                                mantissa >= 1,
                                pow2(e as nat) >= 0x1_0000_0000,
                        ;
                    }
                    0x1_0000_0000
                } else {
                    let factor = two_to(e);
                    proof {
                        lemma_pow2_grows(e as nat, 32);
                        assert(mantissa * factor <= 0x1_0000_0000_0000_0000 * 0x1_0000_0000)
                            by (nonlinear_arith)
                            requires
                                mantissa <= 0x1_0000_0000_0000_0000,
                                0 <= factor <= 0x1_0000_0000,
                        ;
                    }
                    let value = mantissa as u128 * factor;
                    if value > 0x1_0000_0000 {
                        0x1_0000_0000
                    } else {
                        value
                    }
                }
            } else {
                let h = FRACTION_BITS - shift;
                let half = two_to(h - 1);
                let unit = two_to(h);
                proof {
                    lemma_pow2_adds(shift as nat, (h - 1) as nat);
                    lemma_pow2_adds(shift as nat, h as nat);
                    lemma_pow2_pos(h as nat);
                    lemma_pow2_grows((h - 1) as nat, 126);
                    lemma_div_multiples_vanish_quotient(
                        pow2(shift as nat) as int,
                        mantissa + half,
                        unit as int,
                    );
                    assert(pow2(shift as nat) * (mantissa + half) == mantissa as nat * pow2(
                        shift as nat,
                    ) + pow2(82)) by (nonlinear_arith)
                        requires
                            pow2(82) == pow2(shift as nat) * half,
                    ;
                    assert(rounded == (mantissa + half) / unit as int);
                }
                let value = (mantissa as u128 + half) / unit;
                if value > 0x1_0000_0000 {
                    0x1_0000_0000
                } else {
                    value
                }
            };
            proof {
                if mantissa > 0 {
                    assert(mantissa as nat * pow2(shift as nat) > 0) by (nonlinear_arith)
                        requires
                            mantissa > 0,
                            pow2(shift as nat) > 0,
                    ;
                }
            }
            if negative {
                if size >= 0x8000_0000 {
                    i32::MIN
                } else {
                    -(size as i64) as i32
                }
            } else {
                if size >= 0x7fff_ffff {
                    i32::MAX
                } else {
                    size as i32
                }
            }
        },
    }
}

} // verus!
