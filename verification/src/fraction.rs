//! How wide a tile is, as a fraction of its monitor.
//!
//! Fractions are double-precision numbers, held as their bits. A quotient or a difference of doubles
//! is the double nearest to the exact result, a tie going to the one with even bits. What doubles are
//! worth is counted in the least positive double, 2 to the -1074th.
use vstd::arithmetic::power2::lemma2_to64;
use vstd::arithmetic::power2::lemma_pow2_adds;
use vstd::arithmetic::power2::lemma_pow2_pos;
use vstd::arithmetic::power2::lemma_pow2_strictly_increases;
use vstd::arithmetic::power2::lemma_pow2_unfold;
use vstd::arithmetic::power2::pow2;
use vstd::prelude::*;

verus! {

/// How many doubles share an exponent.
pub const BINADE: u64 = 0x10_0000_0000_0000;

/// Up to here the doubles lie one apart and are worth their bits.
pub const DENSE: u64 = 0x20_0000_0000_0000;

/// The bits of infinity. Beyond them lie those that are no number.
pub const INFINITE: u64 = 0x7ff0_0000_0000_0000;

/// The bits of a double that is no number.
pub const NOT_A_NUMBER: u64 = 0x7ff8_0000_0000_0000;

/// The bit that a negative double has on top of those of its magnitude.
pub const SIGN: u64 = 0x8000_0000_0000_0000;

/// A window is maximized when its fraction exceeds this one: the double 0.8.
pub const FULL_WIDTH_THRESHOLD: u64 = 0x3fe9_9999_9999_999a;

/// Fractions closer than this count as the same share: the double 0.04.
pub const WIDTH_TOLERANCE: u64 = 0x3fa4_7ae1_47ae_147b;

/// How far apart fractions may lie for their difference to be rounded to less than the tolerance:
/// half-way between the tolerance and the double before it. In units of 2 to the -117th.
pub const REACH: u128 = 0x1_47ae_147a_e147_a800_0000_0000_0000;

/// `num / den` rounded to the nearest whole number, a tie going to the even one.
pub open spec fn half_even(num: nat, den: nat) -> nat {
    let quotient = num / den;
    let rest = num % den;
    if 2 * rest > den || (2 * rest == den && quotient % 2 == 1) {
        quotient + 1
    } else {
        quotient
    }
}

/// What the double with the given bits is worth, if it is no less than 0 and finite. With every
/// binade the doubles are worth twice as much.
pub open spec fn value(bits: nat) -> nat
    decreases bits,
{
    if bits < DENSE {
        bits
    } else {
        2 * value((bits - BINADE) as nat)
    }
}

/// The bits of the double nearest to `num / den`, counting on beyond the largest finite double as if
/// there were more of them.
pub open spec fn rounded(num: nat, den: nat) -> nat
    decreases num - den,
{
    if den == 0 || num < DENSE * den {
        half_even(num, den)
    } else {
        BINADE as nat + rounded(num, 2 * den)
    }
}

/// The bits of a double without its sign.
pub open spec fn magnitude(bits: u64) -> u64 {
    if bits < SIGN {
        bits
    } else {
        (bits - SIGN) as u64
    }
}

/// What a finite double is worth.
pub open spec fn signed_value(bits: u64) -> int {
    if bits < SIGN {
        value(bits as nat) as int
    } else {
        -(value(magnitude(bits) as nat) as int)
    }
}

/// The bits of the quotient of a tile's width, given as the bits of a double, and a monitor's width.
pub open spec fn quotient_bits(tile: u64, monitor: u32) -> u64 {
    let width = magnitude(tile);
    if width > INFINITE || (width == 0 && monitor == 0) {
        NOT_A_NUMBER
    } else {
        let size = if width == INFINITE || monitor == 0 {
            INFINITE
        } else {
            rounded(value(width as nat), monitor as nat) as u64
        };
        if tile < SIGN {
            size
        } else {
            (SIGN + size) as u64
        }
    }
}

/// A whole number as the nearest one that a double can hold.
pub open spec fn whole_of(number: nat) -> nat {
    value(rounded(number, 1))
}

/// The bits of one `columns`th: the quotient of 1 and the number of columns.
pub open spec fn share_of(columns: nat) -> nat {
    rounded(pow2(1074), whole_of(columns))
}

/// How far a finite fraction lies from one `columns`th.
pub open spec fn distance(fraction: u64, columns: nat) -> nat {
    let share = value(share_of(columns)) as int;
    if signed_value(fraction) < share {
        (share - signed_value(fraction)) as nat
    } else {
        (signed_value(fraction) - share) as nat
    }
}

/// Whether a fraction counts as one `columns`th: the double nearest to how far they lie apart is
/// under the tolerance. What is infinite or no number counts as no share, and nothing counts as one
/// zeroth.
pub open spec fn near_share(fraction: u64, columns: nat) -> bool {
    &&& columns > 0
    &&& magnitude(fraction) < INFINITE
    &&& rounded(distance(fraction, columns), 1) < WIDTH_TOLERANCE
}

/// Whether a fraction counts as the full width. Doubles from 0 to infinity are ordered as their bits.
pub open spec fn full_width(fraction: u64) -> bool {
    FULL_WIDTH_THRESHOLD < fraction <= INFINITE
}

/// Rounding moves a quotient by at most one half.
proof fn lemma_half_even_near(num: nat, den: nat)
    requires
        den > 0,
    ensures
        2 * num <= 2 * (half_even(num, den) * den) + den,
        2 * (half_even(num, den) * den) <= 2 * num + den,
        2 * num == 2 * (half_even(num, den) * den) + den ==> half_even(num, den) % 2 == 0,
        2 * (half_even(num, den) * den) == 2 * num + den ==> half_even(num, den) % 2 == 0,
{
    let quotient = (num / den) as int;
    let rest = (num % den) as int;
    let d = den as int;
    assert(num == quotient * d + rest && 0 <= rest < d) by (nonlinear_arith)
        requires
            quotient == num as int / d,
            rest == num as int % d,
            d > 0,
    ;
    assert((quotient + 1) * d == quotient * d + d) by (nonlinear_arith);
}

/// No whole number is nearer to a quotient than the one it is rounded to; of two equally near ones it
/// is the even one.
proof fn lemma_half_even_nearest(num: nat, den: nat, other: nat)
    requires
        den > 0,
    ensures
        ({
            let chosen = half_even(num, den);
            let off = num - chosen * den;
            let other_off = num - other * den;
            &&& -other_off <= off <= other_off || other_off <= off <= -other_off
            &&& (off == other_off || off == -other_off) ==> chosen == other || chosen % 2 == 0
        }),
{
    let chosen = half_even(num, den) as int;
    let d = den as int;
    let c = other as int;
    lemma_half_even_near(num, den);
    if c > chosen {
        assert(c * d >= chosen * d + d) by (nonlinear_arith)
            requires
                c >= chosen + 1,
                d > 0,
        ;
    } else if c < chosen {
        assert(c * d + d <= chosen * d) by (nonlinear_arith)
            requires
                c + 1 <= chosen,
                d > 0,
        ;
    }
}

/// Rounding depends on the ratio alone.
proof fn lemma_half_even_scales(num: nat, den: nat, factor: nat)
    requires
        den > 0,
        factor > 0,
    ensures
        half_even(num * factor, den * factor) == half_even(num, den),
{
    let n = num as int;
    let d = den as int;
    let f = factor as int;
    let q = n / d;
    let r = n % d;
    assert(n == q * d + r && 0 <= r < d) by (nonlinear_arith)
        requires
            q == n / d,
            r == n % d,
            d > 0,
    ;
    assert(n * f == q * (d * f) + r * f) by (nonlinear_arith)
        requires
            n == q * d + r,
    ;
    assert(0 <= r * f < d * f) by (nonlinear_arith)
        requires
            0 <= r < d,
            f > 0,
    ;
    vstd::arithmetic::div_mod::lemma_fundamental_div_mod_converse(n * f, d * f, q, r * f);
    assert(2 * (r * f) > d * f <==> 2 * r > d) by (nonlinear_arith)
        requires
            f > 0,
    ;
    assert(2 * (r * f) == d * f <==> 2 * r == d) by (nonlinear_arith)
        requires
            f > 0,
    ;
}

/// Rounding stays between whole numbers.
pub proof fn lemma_half_even_between(num: nat, den: nat, low: nat, high: nat)
    requires
        den > 0,
        low * den <= num <= high * den,
    ensures
        low <= half_even(num, den) <= high,
{
    let n = num as int;
    let d = den as int;
    let l = low as int;
    let h = high as int;
    let q = n / d;
    assert(l <= q <= h) by (nonlinear_arith)
        requires
            q == n / d,
            l * d <= n <= h * d,
            d > 0,
    ;
    assert(q == h ==> n % d == 0) by (nonlinear_arith)
        requires
            q == n / d,
            n <= h * d,
            d > 0,
    ;
}

/// Rounding to a double, in the binade that the quotient lies in.
pub proof fn lemma_rounded_at(num: nat, den: nat, power: nat)
    requires
        den > 0,
        power == 0 || BINADE * (pow2(power) * den) <= num,
        num < DENSE * (pow2(power) * den),
    ensures
        rounded(num, den) == power * BINADE + half_even(num, den * pow2(power)),
    decreases power,
{
    lemma2_to64();
    if power == 0 {
        assert(pow2(0) * den == den && den * pow2(0) == den) by (nonlinear_arith)
            requires
                pow2(0) == 1,
        ;
    } else {
        let half = pow2((power - 1) as nat);
        lemma_pow2_unfold(power);
        lemma_pow2_pos((power - 1) as nat);
        assert(pow2(power) * den == half * (2 * den)) by (nonlinear_arith)
            requires
                pow2(power) == 2 * half,
        ;
        assert(half * (2 * den) >= 2 * den) by (nonlinear_arith)
            requires
                half >= 1,
        ;
        lemma_rounded_at(num, 2 * den, (power - 1) as nat);
        assert((2 * den) * half == den * pow2(power)) by (nonlinear_arith)
            requires
                pow2(power) == 2 * half,
        ;
    }
}

/// Rounding a quotient that was scaled by a power of two.
pub proof fn lemma_rounded_scaled(num: nat, den: nat, power: nat)
    requires
        den > 0,
        num < DENSE * den,
        power == 0 || BINADE * den <= num,
    ensures
        rounded(num * pow2(power), den) == power * BINADE + half_even(num, den),
{
    let p = pow2(power);
    lemma_pow2_pos(power);
    assert(num * p < DENSE * (p * den)) by (nonlinear_arith)
        requires
            num < DENSE * den,
            p > 0,
    ;
    if power > 0 {
        assert(BINADE * (p * den) <= num * p) by (nonlinear_arith)
            requires
                BINADE * den <= num,
                p > 0,
        ;
    }
    lemma_rounded_at(num * p, den, power);
    lemma_half_even_scales(num, den, p);
}

/// What lies below the end of a binade is rounded to no more than the end.
pub proof fn lemma_rounded_most(num: nat, den: nat, power: nat)
    requires
        den > 0,
        num < DENSE * (pow2(power) * den),
    ensures
        rounded(num, den) <= (power + 2) * BINADE,
    decreases power,
{
    lemma2_to64();
    if num < DENSE * den {
        lemma_half_even_between(num, den, 0, DENSE as nat);
    } else {
        if power == 0 {
            assert(pow2(0) * den == den) by (nonlinear_arith)
                requires
                    pow2(0) == 1,
            ;
        }
        let half = pow2((power - 1) as nat);
        lemma_pow2_unfold(power);
        assert(pow2(power) * den == half * (2 * den)) by (nonlinear_arith)
            requires
                pow2(power) == 2 * half,
        ;
        lemma_rounded_most(num, 2 * den, (power - 1) as nat);
    }
}

/// What lies at or above the start of a binade is rounded to no less than the start.
pub proof fn lemma_rounded_least(num: nat, den: nat, power: nat)
    requires
        den > 0,
        BINADE * (pow2(power) * den) <= num,
    ensures
        rounded(num, den) >= (power + 1) * BINADE,
    decreases power,
{
    lemma2_to64();
    if power == 0 {
        assert(pow2(0) * den == den) by (nonlinear_arith)
            requires
                pow2(0) == 1,
        ;
        if num < DENSE * den {
            lemma_half_even_between(num, den, BINADE as nat, DENSE as nat);
        }
    } else {
        let half = pow2((power - 1) as nat);
        lemma_pow2_unfold(power);
        lemma_pow2_pos((power - 1) as nat);
        assert(pow2(power) * den == half * (2 * den)) by (nonlinear_arith)
            requires
                pow2(power) == 2 * half,
        ;
        assert(half * (2 * den) >= 2 * den) by (nonlinear_arith)
            requires
                half >= 1,
        ;
        lemma_rounded_least(num, 2 * den, (power - 1) as nat);
    }
}

/// What a double is worth, by its exponent and its mantissa.
pub proof fn lemma_value_at(power: nat, mantissa: nat)
    requires
        BINADE <= mantissa <= DENSE,
    ensures
        value(power * BINADE as nat + mantissa) == mantissa * pow2(power),
    decreases power,
{
    lemma2_to64();
    if power == 0 {
        assert(mantissa * pow2(0) == mantissa) by (nonlinear_arith)
            requires
                pow2(0) == 1,
        ;
        if mantissa == DENSE {
            assert(value(BINADE as nat) == BINADE);
        }
    } else {
        lemma_pow2_unfold(power);
        lemma_value_at((power - 1) as nat, mantissa);
        let half = pow2((power - 1) as nat);
        assert(mantissa * (2 * half) == 2 * (mantissa * half)) by (nonlinear_arith);
        assert(power * BINADE + mantissa - BINADE == (power - 1) * BINADE + mantissa);
    }
}

/// Doubles are ordered as their bits.
pub proof fn lemma_value_grows(less: nat, more: nat)
    requires
        less < more,
    ensures
        value(less) < value(more),
    decreases more,
{
    if more >= DENSE {
        if less >= DENSE {
            lemma_value_grows((less - BINADE) as nat, (more - BINADE) as nat);
        } else {
            lemma_value_dense((more - BINADE) as nat);
        }
    }
}

/// From the first binade on doubles are worth at least as much as the first one in it.
proof fn lemma_value_dense(bits: nat)
    requires
        bits >= BINADE,
    ensures
        value(bits) >= BINADE,
    decreases bits,
{
    if bits >= DENSE {
        lemma_value_dense((bits - BINADE) as nat);
    }
}

/// No double lies nearer to a quotient than the one that it is rounded to; of two equally near ones it
/// is the one with even bits.
#[verifier::spinoff_prover]
pub proof fn law_nearest(num: nat, den: nat, other: nat)
    requires
        den > 0,
    ensures
        ({
            let chosen = rounded(num, den);
            let off = num - value(chosen) * den;
            let other_off = num - value(other) * den;
            &&& -other_off <= off <= other_off || other_off <= off <= -other_off
            &&& (off == other_off || off == -other_off) ==> chosen == other || chosen % 2 == 0
        }),
    decreases num - den,
{
    let chosen = rounded(num, den);
    if num < DENSE * den {
        lemma_half_even_between(num, den, 0, DENSE as nat);
        lemma_value_at(0, DENSE as nat);
        lemma2_to64();
        assert(DENSE * pow2(0) == DENSE) by (nonlinear_arith)
            requires
                pow2(0) == 1,
        ;
        assert(value(chosen) == chosen);
        lemma_half_even_nearest(num, den, value(other));
        if value(other) == value(chosen) {
            if chosen < other {
                lemma_value_grows(chosen, other);
            } else if other < chosen {
                lemma_value_grows(other, chosen);
            }
        }
    } else {
        let inner = rounded(num, 2 * den);
        lemma2_to64();
        assert(pow2(0) * (2 * den) == 2 * den) by (nonlinear_arith)
            requires
                pow2(0) == 1,
        ;
        lemma_rounded_least(num, 2 * den, 0);
        assert(value(chosen) == 2 * value(inner));
        assert(value(chosen) * den == value(inner) * (2 * den)) by (nonlinear_arith)
            requires
                value(chosen) == 2 * value(inner),
        ;
        if other >= DENSE {
            let less = (other - BINADE) as nat;
            law_nearest(num, 2 * den, less);
            assert(value(other) * den == value(less) * (2 * den)) by (nonlinear_arith)
                requires
                    value(other) == 2 * value(less),
            ;
        } else {
            law_nearest(num, 2 * den, BINADE as nat);
            let edge = value(BINADE as nat) * (2 * den);
            assert(edge == DENSE * den) by (nonlinear_arith)
                requires
                    edge == BINADE * (2 * den),
                    DENSE == 2 * BINADE,
            ;
            assert(value(other) * den < DENSE * den) by (nonlinear_arith)
                requires
                    value(other) < DENSE,
                    den > 0,
            ;
        }
    }
}

/// The quotient of a finite width and a monitor that is not 0 wide is finite: it is no more than the
/// width.
pub proof fn law_quotient_is_finite(width: u64, monitor: u32)
    requires
        width < INFINITE,
        monitor > 0,
    ensures
        rounded(value(width as nat), monitor as nat) <= width,
        quotient_bits(width, monitor) <= width,
{
    let num = value(width as nat);
    let chosen = rounded(num, monitor as nat);
    law_nearest(num, monitor as nat, width as nat);
    if chosen > width {
        lemma_value_grows(width as nat, chosen);
        let worth = value(chosen);
        assert(num <= num * monitor && num * monitor < worth * monitor) by (nonlinear_arith)
            requires
                num < worth,
                monitor >= 1,
                num >= 0,
        ;
    }
}

/// The difference of two fractions is rounded to less than the tolerance up to the reach.
#[verifier::spinoff_prover]
pub proof fn lemma_reach(apart: nat)
    ensures
        rounded(apart, 1) < WIDTH_TOLERANCE <==> apart <= REACH * pow2(957),
{
    let gap = pow2(1017);
    let unit = pow2(957);
    lemma2_to64();
    lemma_pow2_pos(957);
    lemma_pow2_pos(1017);
    lemma_pow2_adds(957, 60);
    lemma_pow2_adds(32, 28);
    assert(gap == 0x1000_0000_0000_0000 * unit) by (nonlinear_arith)
        requires
            gap == unit * pow2(60),
            pow2(60) == 0x1000_0000_0000_0000,
    ;
    lemma_pow2_unfold(1017);
    lemma_pow2_unfold(1018);
    let top: nat = 0x14_7ae1_47ae_147b;
    assert(2 * (REACH * unit) == (2 * top - 1) * gap) by (nonlinear_arith)
        requires
            gap == 0x1000_0000_0000_0000 * unit,
            top == 0x14_7ae1_47ae_147b,
            REACH == 0x1_47ae_147a_e147_a800_0000_0000_0000,
    ;
    assert(pow2(1016) * 1 == pow2(1016) && gap * 1 == gap && pow2(1018) * 1 == pow2(1018))
        by (nonlinear_arith);
    if apart < BINADE * gap {
        lemma_rounded_most(apart, 1, 1016);
    } else if apart >= DENSE * gap {
        lemma_rounded_least(apart, 1, 1018);
    } else {
        lemma_rounded_at(apart, 1, 1017);
        assert(1 * gap == gap);
        assert(WIDTH_TOLERANCE == 1017 * BINADE + top);
        let h = half_even(apart, gap);
        lemma_half_even_near(apart, gap);
        assert((2 * top - 1) * gap == 2 * (top * gap) - gap) by (nonlinear_arith);
        assert((top - 1) * gap == top * gap - gap) by (nonlinear_arith);
        assert((top + 1) * gap == top * gap + gap) by (nonlinear_arith);
        if h < top {
            assert(h * gap <= (top - 1) * gap) by (nonlinear_arith)
                requires
                    h <= top - 1,
                    gap >= 0,
            ;
        } else {
            assert(h * gap >= top * gap) by (nonlinear_arith)
                requires
                    h >= top,
                    gap >= 0,
            ;
            if h > top {
                assert(h * gap >= (top + 1) * gap) by (nonlinear_arith)
                    requires
                        h >= top + 1,
                        gap >= 0,
                ;
            }
        }
    }
}

/// The quotient of a finite width and a monitor that is not 0 wide: it has the sign of the width, is no
/// larger than it, and no other double lies nearer to the exact quotient; of two equally near ones it is
/// the one with even bits. Without a number to divide there is none, and what is infinite stays so.
pub proof fn law_quotient(tile: u64, monitor: u32, other: u64)
    ensures
        ({
            let width = magnitude(tile);
            let chosen = magnitude(quotient_bits(tile, monitor));
            &&& width < INFINITE && monitor > 0 ==> {
                let off = value(width as nat) - value(chosen as nat) * monitor;
                let other_off = value(width as nat) - value(other as nat) * monitor;
                &&& chosen <= width
                &&& quotient_bits(tile, monitor) < SIGN <==> tile < SIGN
                &&& -other_off <= off <= other_off || other_off <= off <= -other_off
                &&& (off == other_off || off == -other_off) ==> chosen == other || chosen % 2 == 0
            }
            &&& width > INFINITE || (width == 0 && monitor == 0) ==> chosen > INFINITE
            &&& width == INFINITE || (0 < width < INFINITE && monitor == 0) ==> chosen == INFINITE
                && (quotient_bits(tile, monitor) < SIGN <==> tile < SIGN)
        }),
{
    let width = magnitude(tile);
    if width < INFINITE && monitor > 0 {
        law_quotient_is_finite(width, monitor);
        law_nearest(value(width as nat), monitor as nat, other as nat);
    }
}

/// A window counts as maximized when its fraction is above four fifths, up to the last bit of a double.
pub proof fn law_above_four_fifths(fraction: u64)
    ensures
        fraction < INFINITE ==> (full_width(fraction) <==> 5 * value(fraction as nat) > 4 * pow2(1074)
            + 2 * pow2(1021)),
        full_width(INFINITE),
        fraction > INFINITE ==> !full_width(fraction),
{
    let mantissa: nat = 0x19_9999_9999_999a;
    let gap = pow2(1021);
    lemma_value_at(1021, mantissa);
    assert(1021 * BINADE + mantissa == FULL_WIDTH_THRESHOLD);
    lemma2_to64();
    lemma_pow2_adds(53, 1021);
    lemma_pow2_adds(32, 21);
    assert(5 * (mantissa * gap) == 4 * pow2(1074) + 2 * gap) by (nonlinear_arith)
        requires
            pow2(1074) == 0x20_0000_0000_0000 * gap,
            mantissa == 0x19_9999_9999_999a,
    ;
    if fraction < FULL_WIDTH_THRESHOLD {
        lemma_value_grows(fraction as nat, FULL_WIDTH_THRESHOLD as nat);
    } else if FULL_WIDTH_THRESHOLD < fraction {
        lemma_value_grows(FULL_WIDTH_THRESHOLD as nat, fraction as nat);
    }
}

/// Rounding moves a quotient that is no less than the start of the first binade by at most one part in
/// 2 to the 53rd.
proof fn lemma_rounded_off(num: nat, den: nat)
    requires
        den > 0,
        BINADE * den <= num,
    ensures
        ({
            let off = num - value(rounded(num, den)) * den;
            -(num as int) <= DENSE * off <= num
        }),
    decreases num - den,
{
    if num < DENSE * den {
        let chosen = half_even(num, den);
        lemma_half_even_near(num, den);
        lemma_half_even_between(num, den, BINADE as nat, DENSE as nat);
        lemma2_to64();
        lemma_value_at(0, chosen);
        assert(chosen * pow2(0) == chosen) by (nonlinear_arith)
            requires
                pow2(0) == 1,
        ;
        let off = num - chosen * den;
        assert(-(den as int) <= 2 * off <= den);
        assert(-(num as int) <= DENSE * off <= num) by (nonlinear_arith)
            requires
                -(den as int) <= 2 * off <= den,
                BINADE * den <= num,
                DENSE == 2 * BINADE,
        ;
    } else {
        assert(BINADE * (2 * den) == DENSE * den) by (nonlinear_arith)
            requires
                DENSE == 2 * BINADE,
        ;
        lemma_rounded_off(num, 2 * den);
        let inner = rounded(num, 2 * den);
        lemma2_to64();
        assert(pow2(0) * (2 * den) == 2 * den) by (nonlinear_arith)
            requires
                pow2(0) == 1,
        ;
        lemma_rounded_least(num, 2 * den, 0);
        assert(value(rounded(num, den)) * den == value(inner) * (2 * den)) by (nonlinear_arith)
            requires
                value(rounded(num, den)) == 2 * value(inner),
        ;
    }
}

/// A fraction counts as one `columns`th when it is within four hundredths of it, up to the last bits of
/// a double.
pub proof fn law_within_four_hundredths(fraction: u64, columns: nat)
    requires
        1 <= columns < DENSE,
        magnitude(fraction) < INFINITE,
    ensures
        ({
            let one = pow2(1074) as int;
            let trifle = columns * pow2(1026);
            let off = columns * signed_value(fraction) - one;
            &&& near_share(fraction, columns) ==> -(columns * one + trifle) <= 25 * off <= columns
                * one + trifle
            &&& -(columns * one - trifle) <= 25 * off <= columns * one - trifle ==> near_share(
                fraction,
                columns,
            )
        }),
{
    let one = pow2(1074) as int;
    let unit = pow2(957) as int;
    let c = columns as int;
    let v = signed_value(fraction);
    let share = value(share_of(columns)) as int;
    assert(whole_of(columns) == columns) by {
        assert(columns % 1 == 0 && columns / 1 == columns);
    }
    lemma2_to64();
    lemma_pow2_pos(957);
    lemma_pow2_adds(957, 64);
    lemma_pow2_adds(1021, 53);
    lemma_pow2_adds(1021, 5);
    lemma_pow2_adds(32, 21);
    let small = pow2(1021) as int;
    assert(small == 0x1_0000_0000_0000_0000 * unit);
    assert(one == DENSE * small) by (nonlinear_arith)
        requires
            one == small * pow2(53),
            pow2(53) == 0x20_0000_0000_0000,
            DENSE == 0x20_0000_0000_0000,
    ;
    assert(pow2(1026) == 32 * small) by (nonlinear_arith)
        requires
            pow2(1026) == small * pow2(5),
            pow2(5) == 32,
    ;
    assert(BINADE * columns <= one) by (nonlinear_arith)
        requires
            c == columns,
            c < DENSE,
            one == DENSE * small,
            small >= 0x1_0000_0000_0000_0000,
            BINADE <= 0x1_0000_0000_0000_0000,
    ;
    lemma_rounded_off(pow2(1074), columns);
    let slip = one - share * c;
    assert(-small <= slip <= small) by (nonlinear_arith)
        requires
            -one <= DENSE * slip <= one,
            one == DENSE * small,
            DENSE > 0,
    ;
    lemma_reach(distance(fraction, columns));
    let reach = REACH * unit;
    let apart = v - share;
    assert(near_share(fraction, columns) <==> -reach <= apart <= reach);
    assert(25 * reach == one - 19 * (0x800_0000_0000_0000 * unit)) by (nonlinear_arith)
        requires
            reach == REACH * unit,
            one == 0x20_0000_0000_0000 * small,
            small == 0x1_0000_0000_0000_0000 * unit,
            REACH == 0x1_47ae_147a_e147_a800_0000_0000_0000,
    ;
    let off = c * v - one;
    assert(off == c * apart - slip) by (nonlinear_arith)
        requires
            off == c * v - one,
            apart == v - share,
            slip == one - share * c,
    ;
    let trifle = c * (32 * small);
    assert(small <= c * small) by (nonlinear_arith)
        requires
            c >= 1,
            small >= 0,
    ;
    assert(trifle == 32 * (c * small)) by (nonlinear_arith)
        requires
            trifle == c * (32 * small),
    ;
    assert(25 * (c * reach) == c * one - 19 * (c * (0x800_0000_0000_0000 * unit)))
        by (nonlinear_arith)
        requires
            25 * reach == one - 19 * (0x800_0000_0000_0000 * unit),
    ;
    assert(0 <= 32 * (c * (0x800_0000_0000_0000 * unit)) <= c * small) by (nonlinear_arith)
        requires
            small == 0x1_0000_0000_0000_0000 * unit,
            c >= 1,
            unit > 0,
    ;
    if near_share(fraction, columns) {
        assert(-(c * reach) <= c * apart <= c * reach) by (nonlinear_arith)
            requires
                -reach <= apart <= reach,
                c >= 1,
        ;
    }
    if -(c * one - trifle) <= 25 * off <= c * one - trifle {
        assert(-(c * reach) <= c * apart <= c * reach);
        assert(-reach <= apart <= reach) by (nonlinear_arith)
            requires
                -(c * reach) <= c * apart <= c * reach,
                c >= 1,
        ;
    }
}

/// The mantissa and the exponent of a finite double.
fn split(bits: u64) -> (r: (u64, u64))
    requires
        bits < INFINITE,
    ensures
        value(bits as nat) == r.0 * pow2(r.1 as nat),
        r.0 < DENSE,
        r.1 <= 2045,
        bits >= BINADE ==> r.1 == bits / BINADE - 1,
        bits < BINADE ==> r.1 == 0,
{
    let exponent: u64 = bits / BINADE;
    let mantissa: u64 = bits % BINADE;
    proof {
        lemma2_to64();
        assert(bits == exponent * BINADE + mantissa);
    }
    if exponent == 0 {
        assert(mantissa * pow2(0) == mantissa) by (nonlinear_arith)
            requires
                pow2(0) == 1,
        ;
        (mantissa, 0)
    } else {
        proof {
            lemma_value_at((exponent - 1) as nat, (BINADE + mantissa) as nat);
            assert((exponent - 1) * BINADE + (BINADE + mantissa) == bits);
        }
        (BINADE + mantissa, exponent - 1)
    }
}

/// `num / den` rounded to the nearest whole number, a tie going to the even one.
fn round_even(num: u128, den: u128) -> (r: u128)
    requires
        0 < den <= 0x1_0000_0000_0000_0000,
        num < DENSE * den,
    ensures
        r == half_even(num as nat, den as nat),
        r <= DENSE,
{
    proof {
        lemma_half_even_between(num as nat, den as nat, 0, DENSE as nat);
    }
    let quotient: u128 = num / den;
    let rest: u128 = num % den;
    if 2 * rest > den || (2 * rest == den && quotient % 2 == 1) {
        assert(quotient < DENSE) by (nonlinear_arith)
            requires
                quotient == num / den,
                num < DENSE * den,
                den > 0,
        ;
        quotient + 1
    } else {
        quotient
    }
}

/// The bits of the double nearest to `k / den` times 2 to the `scale`th. See [`rounded`].
fn round_quotient(k: u128, scale: u64, den: u128) -> (r: u64)
    requires
        0 < den <= 0x1_0000_0000_0000_0000,
        k < DENSE * den,
        scale <= 2045,
    ensures
        r == rounded(k as nat * pow2(scale as nat), den as nat),
        r <= INFINITE,
{
    let mut num: u128 = k;
    let mut power: u64 = scale;
    assert(BINADE * den <= 0x10_0000_0000_0000_0000_0000_0000_0000) by (nonlinear_arith)
        requires
            den <= 0x1_0000_0000_0000_0000,
            BINADE == 0x10_0000_0000_0000,
    ;
    let least: u128 = BINADE as u128 * den;
    while power > 0 && num < least
        invariant
            0 < den,
            least == BINADE * den,
            least <= 0x10_0000_0000_0000_0000_0000_0000_0000,
            num < DENSE * den,
            power <= scale <= 2045,
            num * pow2(power as nat) == k * pow2(scale as nat),
        decreases power,
    {
        proof {
            lemma_pow2_unfold(power as nat);
            let half = pow2((power - 1) as nat) as int;
            assert(num * (2 * half) == (2 * num) * half) by (nonlinear_arith);
        }
        num = 2 * num;
        power = power - 1;
    }
    let rest: u128 = round_even(num, den);
    proof {
        lemma_rounded_scaled(num as nat, den as nat, power as nat);
    }
    power * BINADE + rest as u64
}

/// `base` doubled `times` times over.
fn double_up(base: u128, times: u64) -> (r: u128)
    requires
        base <= DENSE,
        times <= 67,
    ensures
        r == base * pow2(times as nat),
        r <= 0x100_0000_0000_0000_0000_0000_0000_0000,
{
    let mut r: u128 = base;
    let mut done: u64 = 0;
    proof {
        lemma2_to64();
        lemma_pow2_adds(64, 3);
    }
    while done < times
        invariant
            done <= times <= 67,
            base <= DENSE,
            r == base * pow2(done as nat),
            pow2(67) == 0x8_0000_0000_0000_0000,
        decreases times - done,
    {
        proof {
            lemma_pow2_unfold((done + 1) as nat);
            if done + 1 < 67 {
                lemma_pow2_strictly_increases((done + 1) as nat, 67);
            }
            let p = pow2(done as nat) as int;
            assert(base * (2 * p) == 2 * (base * p)) by (nonlinear_arith);
            assert(base * (2 * p) <= 0x100_0000_0000_0000_0000_0000_0000_0000) by (nonlinear_arith)
                requires
                    0 <= base <= DENSE,
                    0 <= 2 * p <= 0x8_0000_0000_0000_0000,
                    DENSE == 0x20_0000_0000_0000,
            ;
        }
        r = 2 * r;
        done = done + 1;
    }
    proof {
        if times < 67 {
            lemma_pow2_strictly_increases(times as nat, 67);
        }
        let p = pow2(times as nat) as int;
        assert(base * p <= 0x100_0000_0000_0000_0000_0000_0000_0000) by (nonlinear_arith)
            requires
                0 <= base <= DENSE,
                0 <= p <= 0x8_0000_0000_0000_0000,
                DENSE == 0x20_0000_0000_0000,
        ;
    }
    r
}

/// The bits of the quotient of a tile's width, given as the bits of a double, and a monitor's width.
/// See [`quotient_bits`].
pub fn width_ratio(tile: u64, monitor: u32) -> (r: u64)
    ensures
        r == quotient_bits(tile, monitor),
{
    let width: u64 = if tile < SIGN { tile } else { tile - SIGN };
    if width > INFINITE || (width == 0 && monitor == 0) {
        return NOT_A_NUMBER;
    }
    let size: u64 = if width == INFINITE || monitor == 0 {
        INFINITE
    } else {
        let (mantissa, exponent): (u64, u64) = split(width);
        round_quotient(mantissa as u128, exponent, monitor as u128)
    };
    if tile < SIGN {
        size
    } else {
        SIGN + size
    }
}

/// A whole number as the nearest one that a double can hold.
fn whole(number: u64) -> (r: u128)
    ensures
        r == whole_of(number as nat),
        r <= 0x1_0000_0000_0000_0000,
        number > 0 ==> r > 0,
{
    let mut gap: u128 = 1;
    let mut limit: u128 = DENSE as u128;
    let mut power: u64 = 0;
    proof {
        lemma2_to64();
        lemma_pow2_adds(8, 3);
    }
    while number as u128 >= limit
        invariant
            gap == pow2(power as nat),
            limit == DENSE * gap,
            1 <= gap,
            power <= 11,
            pow2(11) == 2048,
            power > 0 ==> BINADE * gap <= number,
        decreases 11 - power,
    {
        proof {
            lemma_pow2_unfold((power + 1) as nat);
            if power < 11 {
                lemma_pow2_strictly_increases(power as nat, 11);
            }
        }
        gap = 2 * gap;
        limit = 2 * limit;
        power = power + 1;
    }
    proof {
        if power < 11 {
            lemma_pow2_strictly_increases(power as nat, 11);
        }
        assert(pow2(power as nat) * 1 == pow2(power as nat)) by (nonlinear_arith);
        assert(1 * pow2(power as nat) == pow2(power as nat)) by (nonlinear_arith);
        lemma_rounded_at(number as nat, 1, power as nat);
    }
    let mantissa: u128 = round_even(number as u128, gap);
    proof {
        if power > 0 {
            lemma_half_even_between(number as nat, gap as nat, BINADE as nat, DENSE as nat);
            lemma_value_at(power as nat, mantissa as nat);
        } else {
            lemma_half_even_between(number as nat, 1, number as nat, number as nat);
        }
        assert(mantissa * gap <= 0x1_0000_0000_0000_0000) by (nonlinear_arith)
            requires
                0 <= mantissa <= DENSE,
                0 <= gap <= 2048,
                DENSE == 0x20_0000_0000_0000,
        ;
        assert(mantissa > 0 ==> mantissa * gap > 0) by (nonlinear_arith)
            requires
                gap > 0,
        ;
    }
    mantissa * gap
}

/// The bits of one `columns`th. See [`share_of`].
#[verifier::spinoff_prover]
pub fn share(columns: usize) -> (r: u64)
    requires
        1 <= columns,
    ensures
        r == share_of(columns as nat),
        959 * BINADE <= r <= 1024 * BINADE,
{
    let den: u128 = whole(columns as u64);
    proof {
        lemma2_to64();
        lemma_pow2_adds(64, 1010);
        lemma_pow2_adds(52, 958);
        lemma_pow2_adds(32, 20);
        lemma_pow2_adds(52, 1022);
        let small = pow2(958);
        let large = pow2(1022);
        lemma_pow2_pos(958);
        assert(BINADE * (small * den) <= pow2(1074)) by (nonlinear_arith)
            requires
                pow2(1010) == BINADE * small,
                pow2(1074) == 0x1_0000_0000_0000_0000 * pow2(1010),
                0 < den <= 0x1_0000_0000_0000_0000,
                small > 0,
        ;
        lemma_rounded_least(pow2(1074), den as nat, 958);
        lemma_pow2_pos(1022);
        assert(pow2(1074) < DENSE * (large * den)) by (nonlinear_arith)
            requires
                pow2(1074) == BINADE * large,
                DENSE == 2 * BINADE,
                large > 0,
                den >= 1,
        ;
        lemma_rounded_most(pow2(1074), den as nat, 1022);
        assert(1 * pow2(1074) == pow2(1074));
    }
    round_quotient(1, 1074, den)
}

/// What a double under 8 is worth in whole units of 2 to the -117th, and whether nothing is left.
#[verifier::spinoff_prover]
fn in_units(bits: u64) -> (r: (u128, bool))
    requires
        bits < 1026 * BINADE,
    ensures
        r.0 * pow2(957) <= value(bits as nat) < (r.0 + 1) * pow2(957),
        r.1 <==> value(bits as nat) == r.0 * pow2(957),
        bits >= 958 * BINADE ==> r.1,
        r.0 <= 0x100_0000_0000_0000_0000_0000_0000_0000,
{
    let (mantissa, exponent): (u64, u64) = split(bits);
    let ghost unit = pow2(957);
    let ghost gap = pow2(exponent as nat);
    proof {
        lemma_pow2_pos(957);
        lemma_pow2_pos(exponent as nat);
    }
    if exponent >= 957 {
        let units: u128 = double_up(mantissa as u128, exponent - 957);
        proof {
            lemma_pow2_adds(957, (exponent - 957) as nat);
            let times = pow2((exponent - 957) as nat);
            assert(mantissa * gap == (mantissa * times) * unit) by (nonlinear_arith)
                requires
                    gap == unit * times,
            ;
            assert((units + 1) * unit == units * unit + unit) by (nonlinear_arith);
        }
        return (units, true);
    }
    let fold: u64 = 957 - exponent;
    proof {
        lemma_pow2_adds(exponent as nat, fold as nat);
    }
    if fold >= 64 {
        proof {
            lemma2_to64();
            if fold > 64 {
                lemma_pow2_strictly_increases(64, fold as nat);
            }
            let times = pow2(fold as nat);
            assert(mantissa * gap < unit) by (nonlinear_arith)
                requires
                    unit == gap * times,
                    mantissa < times,
                    gap > 0,
            ;
            assert(mantissa > 0 ==> mantissa * gap > 0) by (nonlinear_arith)
                requires
                    gap > 0,
            ;
            assert(mantissa == 0 ==> mantissa * gap == 0) by (nonlinear_arith);
        }
        return (0, mantissa == 0);
    }
    let den: u128 = double_up(1, fold);
    proof {
        lemma_pow2_pos(fold as nat);
        assert(1 * pow2(fold as nat) == pow2(fold as nat));
    }
    let units: u128 = mantissa as u128 / den;
    let rest: u128 = mantissa as u128 % den;
    proof {
        let (m, d, q, r, g) = (mantissa as int, den as int, units as int, rest as int, gap as int);
        assert(m == q * d + r && 0 <= r < d && 0 <= q <= m) by (nonlinear_arith)
            requires
                q == m / d,
                r == m % d,
                d > 0,
                m >= 0,
        ;
        assert(m * g == q * (g * d) + r * g) by (nonlinear_arith)
            requires
                m == q * d + r,
        ;
        assert(0 <= r * g < g * d && (r == 0 <==> r * g == 0)) by (nonlinear_arith)
            requires
                0 <= r < d,
                g > 0,
        ;
        assert((q + 1) * (g * d) == q * (g * d) + g * d) by (nonlinear_arith);
    }
    (units, rest == 0)
}

/// What lies between `units` and `units + 1` of a unit, compared with a whole number of them.
proof fn lemma_compared(unit: int, units: int, worth: int, bound: int)
    requires
        unit > 0,
        units * unit <= worth < (units + 1) * unit,
    ensures
        worth <= bound * unit <==> units < bound || (units == bound && worth == units * unit),
        bound * unit <= worth <==> bound <= units,
{
    assert(units < bound ==> (units + 1) * unit <= bound * unit) by (nonlinear_arith)
        requires
            unit > 0,
    ;
    assert(bound < units ==> (bound + 1) * unit <= units * unit) by (nonlinear_arith)
        requires
            unit > 0,
    ;
    assert((bound + 1) * unit == bound * unit + unit) by (nonlinear_arith);
    assert((units + 1) * unit == units * unit + unit) by (nonlinear_arith);
}

/// Whether a fraction counts as one `columns`th. See [`near_share`].
#[verifier::spinoff_prover]
pub fn is_near_share(fraction: u64, columns: usize) -> (r: bool)
    ensures
        r == near_share(fraction, columns as nat),
{
    let size: u64 = if fraction < SIGN { fraction } else { fraction - SIGN };
    if columns == 0 || size >= INFINITE {
        return false;
    }
    let target: u64 = share(columns);
    let (goal, _): (u128, bool) = in_units(target);
    let ghost unit = pow2(957) as int;
    let ghost worth = value(size as nat) as int;
    proof {
        lemma_pow2_pos(957);
        lemma_reach(distance(fraction, columns as nat));
        assert(value(target as nat) == goal * unit);
    }
    if size >= 1026 * BINADE {
        proof {
            lemma_value_at(1025, BINADE as nat);
            assert(1025 * BINADE + BINADE == 1026 * BINADE);
            if size > 1026 * BINADE {
                lemma_value_grows((1026 * BINADE) as nat, size as nat);
            }
            lemma2_to64();
            lemma_pow2_adds(957, 68);
            lemma_pow2_adds(64, 4);
            assert(BINADE * pow2(1025) == 0x100_0000_0000_0000_0000_0000_0000_0000 * unit)
                by (nonlinear_arith)
                requires
                    pow2(1025) == unit * 0x10_0000_0000_0000_0000,
                    BINADE == 0x10_0000_0000_0000,
            ;
            lemma_value_at(1023, BINADE as nat);
            assert(1023 * BINADE + BINADE == 1024 * BINADE);
            if target < 1024 * BINADE {
                lemma_value_grows(target as nat, (1024 * BINADE) as nat);
            }
            lemma_pow2_adds(957, 66);
            lemma_pow2_adds(64, 2);
            assert(BINADE * pow2(1023) == 0x40_0000_0000_0000_0000_0000_0000_0000 * unit)
                by (nonlinear_arith)
                requires
                    pow2(1023) == unit * 0x4_0000_0000_0000_0000,
                    BINADE == 0x10_0000_0000_0000,
            ;
            assert(REACH * unit <= 0x40_0000_0000_0000_0000_0000_0000_0000 * unit)
                by (nonlinear_arith)
                requires
                    unit > 0,
                    REACH == 0x1_47ae_147a_e147_a800_0000_0000_0000,
            ;
        }
        return false;
    }
    let (units, exact): (u128, bool) = in_units(size);
    if fraction < SIGN {
        proof {
            lemma_compared(unit, units as int, worth, goal + REACH);
            lemma_compared(unit, units as int, worth, goal - REACH);
            assert((goal + REACH) * unit == goal * unit + REACH * unit) by (nonlinear_arith);
            assert((goal - REACH) * unit == goal * unit - REACH * unit) by (nonlinear_arith);
        }
        (units < goal + REACH || (units == goal + REACH && exact)) && goal <= units + REACH
    } else {
        proof {
            lemma_compared(unit, units as int, worth, REACH - goal);
            assert((REACH - goal) * unit == REACH * unit - goal * unit) by (nonlinear_arith);
            assert(goal * unit >= 0 && worth >= 0);
        }
        units + goal < REACH || (units + goal == REACH && exact)
    }
}

/// Whether a fraction counts as the full width. See [`full_width`].
pub fn is_full_width(fraction: u64) -> (r: bool)
    ensures
        r == full_width(fraction),
{
    FULL_WIDTH_THRESHOLD < fraction && fraction <= INFINITE
}

} // verus!
