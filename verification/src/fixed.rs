//! Numbers in fixed point, with two digits after the point.
//!
//! The four numbers of a level are published as decimals with exactly two
//! digits after the point. The digits are those of the number's exact value,
//! rounded to the nearest hundredth; a value halfway between two hundredths
//! goes to the even one. So 0.125 is written `0.12` and 0.375 is written
//! `0.38`, and 1.005, which as a double lies a little below 1.005, is written
//! `1.00`. A negative number keeps its sign even where it rounds to zero.
//! The numbers that have no digits are written `NaN`, `inf` and `-inf`.
//!
//! All of it is integer arithmetic on significand and exponent.

use vstd::prelude::*;
use vstd::arithmetic::power2::{lemma2_to64_rest, lemma_pow2_pos, lemma_pow2_strictly_increases,
    lemma_pow2_unfold, pow2};
use vstd::string::StringExecFns;
use crate::digits::{canonical, digits_of, push_number, times, value};
use crate::number::{Double, FRACTION_RANGE};
use crate::rounding::{lemma_nearest_scales, nearest};
use crate::text::{decimal_digit, digits, hex_digit_of, is_decimal_digit, lemma_digits_shape,
    push_digits};

verus! {

/// The smallest step between two doubles, two to the power of -1074, goes
/// this many times into one.
pub open spec fn steps_in_one() -> nat {
    pow2(1074)
}

/// The absolute value of a finite number in hundredths, rounded to the
/// nearest one, and to the even one where it lies halfway between two.
pub open spec fn hundredths(d: Double) -> nat {
    nearest(d.size() * 100, steps_in_one())
}

/// A number in fixed point with two digits after the point.
pub open spec fn fixed_point(d: Double) -> Seq<char> {
    if d.nan() {
        "NaN"@
    } else if !d.finite() {
        if d.negative() {
            "-inf"@
        } else {
            "inf"@
        }
    } else {
        let h = hundredths(d);
        let sign = if d.negative() {
            seq!['-']
        } else {
            Seq::empty()
        };
        sign + digits(h / 100) + seq![
            '.',
            decimal_digit((h / 10 % 10) as int),
            decimal_digit((h % 10) as int),
        ]
    }
}

/// The hundredths of a number by significand and exponent: a number that is
/// whole has whole hundredths, and in any other, what lies below one
/// hundredth is rounded.
pub proof fn lemma_hundredths(d: Double)
    requires
        d.finite(),
    ensures
        d.exponent() >= 0 ==> hundredths(d) == d.significand() * pow2(d.exponent() as nat) * 100,
        d.exponent() < 0 ==> hundredths(d) == nearest(
            d.significand() * 100,
            pow2((-d.exponent()) as nat),
        ),
{
    let m = d.significand();
    let e = d.exponent();
    let one = steps_in_one();
    lemma_pow2_pos(1074);
    if e >= 0 {
        let whole = m * pow2(e as nat);
        vstd::arithmetic::power2::lemma_pow2_adds(e as nat, 1074);
        assert(d.size() * 100 == (whole * 100) * one) by (nonlinear_arith)
            requires
                d.size() == m * (pow2(e as nat) * one),
                whole == m * pow2(e as nat),
        ;
        vstd::arithmetic::div_mod::lemma_div_by_multiple((whole * 100) as int, one as int);
        vstd::arithmetic::div_mod::lemma_mod_multiples_basic((whole * 100) as int, one as int);
    } else {
        let k = (-e) as nat;
        let rest = (1074 - k) as nat;
        let c = pow2(rest);
        lemma_pow2_pos(rest);
        lemma_pow2_pos(k);
        vstd::arithmetic::power2::lemma_pow2_adds(k, rest);
        assert(d.size() * 100 == (m * 100) * c) by (nonlinear_arith)
            requires
                d.size() == m * c,
        ;
        lemma_nearest_scales(m * 100, pow2(k), c);
    }
}

/// A finite number in fixed point is a minus sign where the number is
/// negative, then at least one digit, a point, and exactly two digits.
pub proof fn lemma_fixed_point_shape(d: Double)
    requires
        d.finite(),
    ensures
        ({
            let text = fixed_point(d);
            let start: int = if d.negative() {
                1
            } else {
                0
            };
            &&& text.len() >= start + 4
            &&& d.negative() ==> text[0] == '-'
            &&& text[text.len() - 3] == '.'
            &&& forall|i: int|
                start <= i < text.len() && i != text.len() - 3 ==> is_decimal_digit(
                    #[trigger] text[i],
                )
        }),
{
    let h = hundredths(d);
    lemma_digits_shape(h / 100);
}

/// Two to the power of `k`.
fn two_to(k: u32) -> (p: u64)
    requires
        k <= 60,
    ensures
        p == pow2(k as nat),
        1 <= p <= 0x1000_0000_0000_0000,
{
    let mut p: u64 = 1;
    let mut i: u32 = 0;
    proof {
        lemma2_to64_rest();
        assert(pow2(0) == 1) by {
            vstd::arithmetic::power2::lemma2_to64();
        }
    }
    while i < k
        invariant
            i <= k <= 60,
            p == pow2(i as nat),
            pow2(60) == 0x1000_0000_0000_0000,
        decreases k - i,
    {
        proof {
            lemma_pow2_unfold((i + 1) as nat);
            if i + 1 < 60 {
                lemma_pow2_strictly_increases((i + 1) as nat, 60);
            }
        }
        p = p * 2;
        i = i + 1;
    }
    proof {
        lemma_pow2_pos(k as nat);
        if k < 60 {
            lemma_pow2_strictly_increases(k as nat, 60);
        }
    }
    p
}

/// The hundredths of a significand scaled down by a power of two.
fn scaled_down(m: u64, k: u32) -> (h: u64)
    requires
        m < 2 * FRACTION_RANGE,
        1 <= k,
    ensures
        h == nearest((m * 100) as nat, pow2(k as nat)),
        h <= m * 100,
{
    let n: u64 = m * 100;
    proof {
        lemma2_to64_rest();
    }
    if k > 60 {
        proof {
            let d = pow2(k as nat);
            if k > 61 {
                lemma_pow2_strictly_increases(61, k as nat);
            }
            vstd::arithmetic::div_mod::lemma_small_mod(n as nat, d);
            vstd::arithmetic::div_mod::lemma_basic_div(n as int, d as int);
        }
        0
    } else {
        let d: u64 = two_to(k);
        let q: u64 = n / d;
        let r: u64 = n % d;
        proof {
            lemma_pow2_unfold(k as nat);
            vstd::arithmetic::div_mod::lemma_fundamental_div_mod(n as int, d as int);
            assert(d * q >= 2 * q) by (nonlinear_arith)
                requires
                    d >= 2,
                    q >= 0,
            ;
        }
        if 2 * r > d || (2 * r == d && q % 2 == 1) {
            q + 1
        } else {
            q
        }
    }
}

/// The digits of a positive number scaled up by a power of two.
fn scaled_up(m: u64, e: u32) -> (ds: Vec<u8>)
    requires
        m > 0,
    ensures
        canonical(ds@),
        value(ds@) == m * pow2(e as nat),
{
    let mut ds = digits_of(m);
    let mut i: u32 = 0;
    proof {
        vstd::arithmetic::power2::lemma2_to64();
    }
    while e >= 26 && i <= e - 26
        invariant
            i <= e,
            canonical(ds@),
            value(ds@) == m * pow2(i as nat),
        decreases e - i,
    {
        proof {
            vstd::arithmetic::power2::lemma_pow2_adds(i as nat, 26);
            vstd::arithmetic::power2::lemma2_to64();
            assert(0x400_0000 * (m * pow2(i as nat)) == m * (pow2(i as nat) * 0x400_0000))
                by (nonlinear_arith);
        }
        ds = times(&ds, 0x400_0000);
        i = i + 26;
    }
    while i < e
        invariant
            i <= e,
            canonical(ds@),
            value(ds@) == m * pow2(i as nat),
        decreases e - i,
    {
        proof {
            lemma_pow2_unfold((i + 1) as nat);
            assert(2 * (m * pow2(i as nat)) == m * (2 * pow2(i as nat))) by (nonlinear_arith);
        }
        ds = times(&ds, 2);
        i = i + 1;
    }
    ds
}

/// Appends a number in fixed point with two digits after the point.
pub fn push_fixed_point(out: &mut String, d: Double)
    ensures
        final(out)@ == old(out)@ + fixed_point(d),
{
    if d.is_nan() {
        out.append("NaN");
        return ;
    }
    if !d.is_finite() {
        if d.is_negative() {
            out.append("-inf");
        } else {
            out.append("inf");
        }
        return ;
    }
    if d.is_negative() {
        out.push('-');
    }
    let (m, e) = d.decompose();
    if e >= 0 {
        let ds = scaled_up(m, e as u32);
        push_number(out, &ds);
        out.push('.');
        out.push('0');
        out.push('0');
        proof {
            let whole = m * pow2(e as nat);
            let h = hundredths(d);
            lemma_hundredths(d);
            assert(h / 100 == whole && h / 10 % 10 == 0 && h % 10 == 0);
        }
    } else {
        let h: u64 = scaled_down(m, (-e) as u32);
        proof {
            lemma_hundredths(d);
        }
        push_digits(out, h / 100);
        out.push('.');
        out.push(hex_digit_of((h / 10 % 10) as u32));
        out.push(hex_digit_of((h % 10) as u32));
    }
}

/// A number in fixed point with two digits after the point.
pub fn fixed_point_of(d: Double) -> (text: String)
    ensures
        text@ == fixed_point(d),
{
    let mut text = String::new();
    push_fixed_point(&mut text, d);
    text
}

} // verus!
