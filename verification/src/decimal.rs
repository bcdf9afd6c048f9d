//! Reading a number off a decimal text.
//!
//! A text stands for a number where it is an optional sign, then digits with
//! at most one point among them and at least one digit in all, then
//! optionally an `e` or `E` with an exponent of ten, itself an optional sign
//! and at least one digit: `68000`, `150.5`, `.5`, `-1e-3`. The words `inf`,
//! `infinity` and `nan`, in capitals or not and with or without a sign, stand
//! for what they say. Nothing else is a number: no blanks, no separators, no
//! digits but the ten of ASCII.
//!
//! The number that is read is the double nearest to what the text says; of
//! two that are equally near, the one with the even significand. A text that
//! says more than any finite double holds is read as infinity.

use vstd::prelude::*;
use vstd::arithmetic::power2::pow2;
use crate::digits::{are_digits, canonical, lemma_pow10_adds, lemma_pow10_grows, lemma_pow10_positive,
    lemma_pow10_values, lemma_upper_bounds, lemma_upper_is_quotient, lemma_value_below,
    lemma_whole_digits, pow10, rounded_quotient, times, upper_of, value, whole};
use crate::number::{Double, FRACTION_RANGE, INFINITY_BITS, SIGN_BIT};
use crate::rounding::{lemma_nearest_is_near, lemma_nearest_scales, nearest};
use crate::text::is_decimal_digit;

verus! {

/// Why a text is no number.
#[derive(Clone, Copy, Debug, PartialEq, Eq, Structural)]
pub enum ReadError {
    /// The text is empty.
    Empty,
    /// The text is not of the form of a number.
    Invalid,
}

/// The digit that a digit character writes.
pub open spec fn digit_of(c: char) -> nat {
    (c as u32 - 0x30) as nat
}

/// Where the run of digits that starts at `from` ends.
pub open spec fn run_end(s: Seq<char>, from: int) -> int
    decreases s.len() - from,
{
    if 0 <= from < s.len() && is_decimal_digit(s[from]) {
        run_end(s, from + 1)
    } else {
        from
    }
}

/// The number that the digits of `s` from `from` up to `to` write.
pub open spec fn number_of(s: Seq<char>, from: int, to: int) -> nat
    decreases to - from,
{
    if to <= from {
        0
    } else {
        number_of(s, from, to - 1) * 10 + digit_of(s[to - 1])
    }
}

/// What a text of the form of a number says: `coefficient` times ten to the
/// power of `exponent`.
pub struct Scanned {
    pub coefficient: nat,
    pub exponent: int,
}

/// The power of ten that an exponent part says, where the part is well
/// formed: the `e` or `E` stands at `at`, then an optional sign, then digits
/// to the end of the text, at least one.
pub open spec fn power_at(s: Seq<char>, at: int) -> Option<int> {
    let sign_at = at + 1;
    let signed = sign_at < s.len() && (s[sign_at] == '+' || s[sign_at] == '-');
    let exp_start = if signed {
        sign_at + 1
    } else {
        sign_at
    };
    let exp_end = run_end(s, exp_start);
    let power = number_of(s, exp_start, exp_end) as int;
    if exp_end == exp_start || exp_end != s.len() {
        None
    } else if signed && s[sign_at] == '-' {
        Some(-power)
    } else {
        Some(power)
    }
}

/// What the text from `start` on says, where it is of the form of a number
/// without sign.
pub open spec fn scan(s: Seq<char>, start: int) -> Option<Scanned> {
    let int_end = run_end(s, start);
    let pointed = int_end < s.len() && s[int_end] == '.';
    let frac_start = if pointed {
        int_end + 1
    } else {
        int_end
    };
    let frac_end = run_end(s, frac_start);
    let places = frac_end - frac_start;
    let coefficient = number_of(s, start, int_end) * pow10(places as nat) + number_of(
        s,
        frac_start,
        frac_end,
    );
    if (int_end - start) + places == 0 {
        None
    } else if frac_end == s.len() {
        Some(Scanned { coefficient, exponent: -places })
    } else if (s[frac_end] == 'e' || s[frac_end] == 'E') && power_at(s, frac_end) is Some {
        Some(Scanned { coefficient, exponent: power_at(s, frac_end)->0 - places })
    } else {
        None
    }
}

/// Whether `c` is the small letter `small` or its capital.
pub open spec fn is_letter(c: char, small: char) -> bool {
    c == small || c as u32 + 32 == small as u32
}

/// Whether the text from `start` on is the word, in small letters or
/// capitals.
pub open spec fn spells(s: Seq<char>, start: int, word: Seq<char>) -> bool {
    &&& s.len() - start == word.len()
    &&& forall|i: int| 0 <= i < word.len() ==> is_letter(#[trigger] s[start + i], word[i])
}

/// The binade of the quotient of `n` by `d`: how often it can be halved
/// before it lies below two to the power of 53, the bound of a significand.
/// Doubles in binade `k` lie two to the power of `k` apart, counted in the
/// smallest step between doubles.
pub open spec fn binade(n: nat, d: nat) -> nat
    decreases n - d,
{
    if d == 0 || n < 0x20_0000_0000_0000 * d {
        0
    } else {
        1 + binade(n, 2 * d)
    }
}

/// The encoding, without sign, of the double nearest to the quotient of `n`
/// by `d` counted in the smallest step between doubles: the quotient is
/// rounded to a multiple of the distance between the doubles of its binade,
/// and to the even one of two multiples that are equally near. An encoding
/// at or beyond that of infinity says that the quotient is beyond the
/// doubles.
pub open spec fn nearest_magnitude(n: nat, d: nat) -> nat {
    let k = binade(n, d);
    (k * FRACTION_RANGE + nearest(n, d * pow2(k))) as nat
}

/// A decimal as a quotient of whole numbers, counted in the smallest step
/// between doubles: the dividend.
pub open spec fn dividend(coefficient: nat, exponent: int) -> nat {
    if exponent >= 0 {
        coefficient * pow10(exponent as nat) * pow2(1074)
    } else {
        coefficient * pow2(1074)
    }
}

/// A decimal as a quotient of whole numbers: the divisor.
pub open spec fn divisor(exponent: int) -> nat {
    if exponent >= 0 {
        1
    } else {
        pow10((-exponent) as nat)
    }
}

/// The double nearest to `coefficient` times ten to the power of `exponent`,
/// with the sign given, or infinity where that number is beyond the doubles.
pub open spec fn rounded(negative: bool, coefficient: nat, exponent: int) -> Double {
    let magnitude = nearest_magnitude(dividend(coefficient, exponent), divisor(exponent));
    let clamped: nat = if magnitude >= INFINITY_BITS {
        INFINITY_BITS as nat
    } else {
        magnitude
    };
    Double { bits: with_sign(negative, clamped) }
}

/// An encoding with its sign bit.
pub open spec fn with_sign(negative: bool, magnitude: nat) -> u64 {
    if negative {
        (magnitude + SIGN_BIT) as u64
    } else {
        magnitude as u64
    }
}

/// The encoding of the NaN that the word `nan` is read as.
pub const QUIET_NAN_BITS: u64 = 0x7ff8_0000_0000_0000;

/// What a text is read as.
pub open spec fn reading(s: Seq<char>) -> Result<Double, ReadError> {
    if s.len() == 0 {
        Err(ReadError::Empty)
    } else {
        let negative = s[0] == '-';
        let start: int = if s[0] == '+' || s[0] == '-' {
            1
        } else {
            0
        };
        if scan(s, start) is Some {
            Ok(rounded(negative, scan(s, start)->0.coefficient, scan(s, start)->0.exponent))
        } else if spells(s, start, seq!['i', 'n', 'f']) || spells(
            s,
            start,
            seq!['i', 'n', 'f', 'i', 'n', 'i', 't', 'y'],
        ) {
            Ok(Double { bits: with_sign(negative, INFINITY_BITS as nat) })
        } else if spells(s, start, seq!['n', 'a', 'n']) {
            Ok(Double { bits: with_sign(negative, QUIET_NAN_BITS as nat) })
        } else {
            Err(ReadError::Invalid)
        }
    }
}

/// The binade of a quotient is told by the bounds between which the
/// quotient lies when it is halved that often.
pub proof fn lemma_binade_is(n: nat, d: nat, k: nat)
    requires
        d > 0,
        n < 2 * FRACTION_RANGE * (d * pow2(k)),
        k >= 1 ==> FRACTION_RANGE * (d * pow2(k)) <= n,
    ensures
        binade(n, d) == k,
    decreases k,
{
    let range = FRACTION_RANGE as int;
    if k == 0 {
        assert(pow2(0) == 1) by {
            vstd::arithmetic::power2::lemma2_to64();
        }
        assert(d * pow2(0) == d) by (nonlinear_arith)
            requires
                pow2(0) == 1,
        ;
    } else {
        let less = (k - 1) as nat;
        vstd::arithmetic::power2::lemma_pow2_unfold(k);
        vstd::arithmetic::power2::lemma_pow2_pos(less);
        let p = pow2(less) as int;
        assert((2 * d) * p == d * (2 * p)) by (nonlinear_arith);
        assert(d * (2 * p) >= 2 * d) by (nonlinear_arith)
            requires
                p >= 1,
                d > 0,
        ;
        assert(range * (d * (2 * p)) >= range * (2 * d)) by (nonlinear_arith)
            requires
                d * (2 * p) >= 2 * d,
                range > 0,
        ;
        assert(range * (2 * d) == 0x20_0000_0000_0000 * d) by (nonlinear_arith)
            requires
                range == 0x10_0000_0000_0000,
        ;
        lemma_binade_is(n, 2 * d, less);
    }
}

/// A quotient that is large has a high binade.
pub proof fn lemma_binade_at_least(n: nat, d: nat, k: nat)
    requires
        d > 0,
        FRACTION_RANGE * (d * pow2(k)) <= n,
    ensures
        binade(n, d) >= k,
    decreases k,
{
    let range = FRACTION_RANGE as int;
    if k > 0 {
        let less = (k - 1) as nat;
        vstd::arithmetic::power2::lemma_pow2_unfold(k);
        vstd::arithmetic::power2::lemma_pow2_pos(less);
        let p = pow2(less) as int;
        assert((2 * d) * p == d * (2 * p)) by (nonlinear_arith);
        assert(d * (2 * p) >= 2 * d) by (nonlinear_arith)
            requires
                p >= 1,
                d > 0,
        ;
        assert(range * (d * (2 * p)) >= range * (2 * d)) by (nonlinear_arith)
            requires
                d * (2 * p) >= 2 * d,
                range > 0,
        ;
        assert(range * (2 * d) == 0x20_0000_0000_0000 * d) by (nonlinear_arith)
            requires
                range == 0x10_0000_0000_0000,
        ;
        lemma_binade_at_least(n, 2 * d, less);
    }
}

/// The bounds between which a quotient of a given binade lies.
pub proof fn lemma_binade_bounds(n: nat, d: nat)
    requires
        d > 0,
    ensures
        n < 2 * FRACTION_RANGE * (d * pow2(binade(n, d))),
        binade(n, d) >= 1 ==> FRACTION_RANGE * (d * pow2(binade(n, d))) <= n,
    decreases n - d,
{
    let range = FRACTION_RANGE as int;
    if n < 0x20_0000_0000_0000 * d {
        assert(pow2(0) == 1) by {
            vstd::arithmetic::power2::lemma2_to64();
        }
        assert(d * pow2(0) == d) by (nonlinear_arith)
            requires
                pow2(0) == 1,
        ;
    } else {
        lemma_binade_bounds(n, 2 * d);
        let less = binade(n, 2 * d);
        let k = less + 1;
        vstd::arithmetic::power2::lemma_pow2_unfold(k);
        let p = pow2(less) as int;
        assert((2 * d) * p == d * (2 * p)) by (nonlinear_arith);
        if less == 0 {
            assert(pow2(0) == 1) by {
                vstd::arithmetic::power2::lemma2_to64();
            }
            assert(range * (d * (2 * p)) == 0x20_0000_0000_0000 * d) by (nonlinear_arith)
                requires
                    p == 1,
                    range == 0x10_0000_0000_0000,
            ;
        }
    }
}

/// The double that a decimal is read as, where it is finite, has the sign
/// that was written and is the nearest to the decimal: counted in the
/// smallest step between doubles, its size is the decimal rounded to a
/// multiple of the distance between the doubles of its binade, and lies no
/// more than half that distance from the decimal.
pub proof fn lemma_rounded_is_near(negative: bool, coefficient: nat, exponent: int)
    requires
        rounded(negative, coefficient, exponent).finite(),
    ensures
        ({
            let n = if exponent >= 0 {
                coefficient * pow10(exponent as nat) * pow2(1074)
            } else {
                coefficient * pow2(1074)
            };
            let d = if exponent >= 0 {
                1
            } else {
                pow10((-exponent) as nat)
            };
            let step = pow2(binade(n, d));
            let r = rounded(negative, coefficient, exponent);
            &&& r.negative() == negative
            &&& r.size() == nearest(n, d * step) * step
            &&& -(d * step) <= 2 * (n - r.size() * d) <= d * step
        }),
{
    let n = if exponent >= 0 {
        coefficient * pow10(exponent as nat) * pow2(1074)
    } else {
        coefficient * pow2(1074)
    };
    let d: nat = if exponent >= 0 {
        1
    } else {
        pow10((-exponent) as nat)
    };
    lemma_pow10_positive((-exponent) as nat);
    let k = binade(n, d);
    let step = pow2(k);
    let dd = d * step;
    let q = nearest(n, dd);
    let range = FRACTION_RANGE as int;
    vstd::arithmetic::power2::lemma_pow2_pos(k);
    assert(dd > 0) by (nonlinear_arith)
        requires
            d > 0,
            step > 0,
            dd == d * step,
    ;
    lemma_binade_bounds(n, d);
    lemma_nearest_is_near(n, dd);
    lemma_quotient_bound(n, dd, (2 * FRACTION_RANGE) as nat);
    lemma_quotient_bound(n, dd, FRACTION_RANGE as nat);
    let magnitude = k * range + q;
    assert(k < 2047) by (nonlinear_arith)
        requires
            k * range + q < 0x7ff0_0000_0000_0000,
            q >= 0,
            range == 0x10_0000_0000_0000,
    ;
    vstd::arithmetic::power2::lemma_pow2_unfold(k + 1);
    assert(pow2(0) == 1) by {
        vstd::arithmetic::power2::lemma2_to64();
    }
    if q < range {
    } else if q < 2 * range {
        let biased = k + 1;
        let fraction = q - range;
        assert(magnitude == range * biased + fraction) by (nonlinear_arith)
            requires
                magnitude == k * range + q,
                biased == k + 1,
                fraction == q - range,
        ;
        vstd::arithmetic::div_mod::lemma_fundamental_div_mod_converse(
            magnitude,
            range,
            biased as int,
            fraction,
        );
    } else {
        let biased = k + 2;
        assert(magnitude == range * biased + 0) by (nonlinear_arith)
            requires
                magnitude == k * range + q,
                q == 2 * range,
                biased == k + 2,
        ;
        vstd::arithmetic::div_mod::lemma_fundamental_div_mod_converse(
            magnitude,
            range,
            biased as int,
            0,
        );
        assert(range * (2 * step) == (2 * range) * step) by (nonlinear_arith);
    }
    assert((q * step) * d == q * dd) by (nonlinear_arith)
        requires
            dd == d * step,
    ;
}

/// The encoding of a finite number, without sign, is its significand beside
/// its binade; and the significand of a number beyond the lowest binade has
/// its hidden bit.
pub proof fn lemma_magnitude_by_binade(x: Double)
    requires
        x.finite(),
    ensures
        x.magnitude() == (x.exponent() + 1074) * FRACTION_RANGE + x.significand(),
        0 <= x.exponent() + 1074 <= 2045,
        x.significand() < 2 * FRACTION_RANGE,
        x.exponent() + 1074 >= 1 ==> x.significand() >= FRACTION_RANGE,
        x.size() == x.significand() * pow2((x.exponent() + 1074) as nat),
{
    let range = FRACTION_RANGE as int;
    let m = x.magnitude();
    vstd::arithmetic::div_mod::lemma_fundamental_div_mod(m, range);
    vstd::arithmetic::div_mod::lemma_mod_bound(m, range);
    let b = m / range;
    assert(b < 2047) by (nonlinear_arith)
        requires
            range * b + m % range == m,
            m < 0x7ff0_0000_0000_0000,
            m % range >= 0,
            range == 0x10_0000_0000_0000,
    ;
    assert(b >= 0) by (nonlinear_arith)
        requires
            range * b + m % range == m,
            m >= 0,
            m % range < range,
            range == 0x10_0000_0000_0000,
    ;
    if b != 0 {
        assert((b - 1) * range + (range + m % range) == b * range + m % range)
            by (nonlinear_arith);
    }
}

/// A quotient that lies nearer to a finite number than to any other double
/// is read as that number. Counted in the smallest step between doubles,
/// the quotient of `n` by `d` lies less than half the distance between the
/// doubles of the number's binade above the number, or less than half that
/// distance below it; and below a number at the foot of its binade, where
/// the doubles below lie half as far apart, less than a quarter of it.
pub proof fn lemma_near_is_read(n: nat, d: nat, x: Double)
    requires
        x.finite(),
        d > 0,
        ({
            let step = pow2((x.exponent() + 1074) as nat);
            let at = x.size() * d;
            if n >= at {
                2 * (n - at) < d * step
            } else if x.significand() == FRACTION_RANGE && x.exponent() + 1074 >= 1 {
                4 * (at - n) < d * step
            } else {
                2 * (at - n) < d * step
            }
        }),
    ensures
        nearest_magnitude(n, d) == x.magnitude(),
{
    let range = FRACTION_RANGE as int;
    let k = (x.exponent() + 1074) as nat;
    let step = pow2(k) as int;
    let q = x.significand() as int;
    let dd = d * step;
    let at = x.size() * d;
    lemma_magnitude_by_binade(x);
    vstd::arithmetic::power2::lemma_pow2_pos(k);
    assert(dd > 0) by (nonlinear_arith)
        requires
            d > 0,
            step > 0,
            dd == d * step,
    ;
    assert(at == q * dd) by (nonlinear_arith)
        requires
            at == (q * step) * d,
            dd == d * step,
    ;
    assert((q + 1) * dd == q * dd + dd) by (nonlinear_arith);
    assert((q - 1) * dd == q * dd - dd) by (nonlinear_arith);
    assert(q < 2 * range ==> (q + 1) * dd <= (2 * range) * dd) by (nonlinear_arith)
        requires
            dd > 0,
    ;
    if n >= at {
        vstd::arithmetic::div_mod::lemma_fundamental_div_mod_converse(
            n as int,
            dd,
            q,
            n - q * dd,
        );
        if k >= 1 {
            assert(range * dd <= q * dd) by (nonlinear_arith)
                requires
                    q >= range,
                    dd > 0,
            ;
        }
        lemma_binade_is(n, d, k);
    } else if q == range && k >= 1 {
        let less = (k - 1) as nat;
        let half = (d * pow2(less)) as int;
        vstd::arithmetic::power2::lemma_pow2_unfold(k);
        vstd::arithmetic::power2::lemma_pow2_pos(less);
        assert(dd == 2 * half) by (nonlinear_arith)
            requires
                dd == d * step,
                step == 2 * pow2(less),
                half == d * pow2(less),
        ;
        let top = 2 * range - 1;
        assert(q * dd == (2 * range) * half) by (nonlinear_arith)
            requires
                q == range,
                dd == 2 * half,
        ;
        assert(top * half == (2 * range) * half - half) by (nonlinear_arith)
            requires
                top == 2 * range - 1,
        ;
        vstd::arithmetic::div_mod::lemma_fundamental_div_mod_converse(
            n as int,
            half,
            top,
            n - top * half,
        );
        assert(range * half <= top * half) by (nonlinear_arith)
            requires
                range <= top,
                half > 0,
        ;
        assert(2 * FRACTION_RANGE * (d * pow2(less)) == (2 * range) * half) by (nonlinear_arith)
            requires
                half == d * pow2(less),
                range == FRACTION_RANGE,
        ;
        assert(FRACTION_RANGE * (d * pow2(less)) == range * half) by (nonlinear_arith)
            requires
                half == d * pow2(less),
                range == FRACTION_RANGE,
        ;
        lemma_binade_is(n, d, less);
        assert(less * range + (top + 1) == k * range + q) by (nonlinear_arith)
            requires
                less == k - 1,
                top + 1 == 2 * range,
                q == range,
        ;
    } else {
        assert(q >= 1) by {
            if q == 0 {
                assert(at == 0) by (nonlinear_arith)
                    requires
                        at == q * dd,
                        q == 0,
                ;
            }
        }
        vstd::arithmetic::div_mod::lemma_fundamental_div_mod_converse(
            n as int,
            dd,
            q - 1,
            n - (q - 1) * dd,
        );
        assert(q * dd <= (2 * range) * dd) by (nonlinear_arith)
            requires
                q <= 2 * range,
                dd > 0,
        ;
        if k >= 1 {
            assert(range * dd <= (q - 1) * dd) by (nonlinear_arith)
                requires
                    q - 1 >= range,
                    dd > 0,
            ;
        }
        lemma_binade_is(n, d, k);
    }
}

/// A common factor of dividend and divisor does not change what a quotient
/// is read as.
pub proof fn lemma_magnitude_scales(n: nat, d: nat, c: nat)
    requires
        d > 0,
        c > 0,
    ensures
        binade(n * c, d * c) == binade(n, d),
        nearest_magnitude(n * c, d * c) == nearest_magnitude(n, d),
    decreases n - d,
{
    assert(d * c > 0) by (nonlinear_arith)
        requires
            d > 0,
            c > 0,
    ;
    assert(n * c < 0x20_0000_0000_0000 * (d * c) <==> n < 0x20_0000_0000_0000 * d)
        by (nonlinear_arith)
        requires
            c > 0,
    ;
    if n >= 0x20_0000_0000_0000 * d {
        lemma_magnitude_scales(n, 2 * d, c);
        assert(2 * (d * c) == (2 * d) * c) by (nonlinear_arith);
    }
    let k = binade(n, d);
    let step = pow2(k);
    vstd::arithmetic::power2::lemma_pow2_pos(k);
    assert(d * step > 0) by (nonlinear_arith)
        requires
            d > 0,
            step > 0,
    ;
    lemma_nearest_scales(n, d * step, c);
    assert((d * step) * c == (d * c) * step) by (nonlinear_arith);
}

/// A zero at the end of a decimal can be taken into its exponent.
pub proof fn lemma_rounded_shift(negative: bool, coefficient: nat, exponent: int)
    ensures
        rounded(negative, 10 * coefficient, exponent) == rounded(
            negative,
            coefficient,
            exponent + 1,
        ),
{
    let c = coefficient;
    let unit = pow2(1074);
    if exponent >= 0 {
        let p = pow10(exponent as nat);
        assert((10 * c) * p * unit == c * (10 * p) * unit) by (nonlinear_arith);
    } else {
        lemma_pow10_positive((-exponent - 1) as nat);
        let n = dividend(c, exponent + 1);
        let d = divisor(exponent + 1);
        assert(n == c * unit) by {
            if exponent + 1 >= 0 {
                assert(c * 1 * unit == c * unit) by (nonlinear_arith);
            }
        }
        assert((10 * c) * unit == (c * unit) * 10) by (nonlinear_arith);
        lemma_magnitude_scales(n, d, 10);
    }
}

/// Two quotients that are one and the same fraction round alike, and lie
/// alike to any bound.
pub proof fn lemma_same_quotient(n: nat, d: nat, a: nat, b: nat, c1: nat, c2: nat, bound: nat)
    requires
        d > 0,
        b > 0,
        c1 > 0,
        c2 > 0,
        n * c1 == a * c2,
        d * c1 == b * c2,
    ensures
        nearest(n, d) == nearest(a, b),
        bound * d <= n <==> bound * b <= a,
{
    lemma_nearest_scales(n, d, c1);
    lemma_nearest_scales(a, b, c2);
    assert(bound * d <= n <==> (bound * d) * c1 <= n * c1) by (nonlinear_arith)
        requires
            c1 > 0,
    ;
    assert(bound * b <= a <==> (bound * b) * c2 <= a * c2) by (nonlinear_arith)
        requires
            c2 > 0,
    ;
    assert((bound * d) * c1 == bound * (d * c1)) by (nonlinear_arith);
    assert((bound * b) * c2 == bound * (b * c2)) by (nonlinear_arith);
}

/// How the whole part of a number lies to the bounds of a significand.
enum Class {
    /// Below two to the power of 52.
    Small,
    /// From two to the power of 52 up to, but not at, two to the power of 53.
    Fit,
    /// At or beyond two to the power of 53.
    Large,
}

/// Tells how the whole part of a number lies to the bounds of a
/// significand.
fn class_of(ds: &Vec<u8>, places: u128) -> (class: Class)
    requires
        canonical(ds@),
    ensures
        match class {
            Class::Small => whole(ds@, places as nat) < FRACTION_RANGE,
            Class::Fit => FRACTION_RANGE <= whole(ds@, places as nat) < 2 * FRACTION_RANGE,
            Class::Large => whole(ds@, places as nat) >= 2 * FRACTION_RANGE,
        },
{
    let len: u128 = ds.len() as u128;
    proof {
        lemma_pow10_values();
        lemma_pow10_positive(places as nat);
    }
    if places >= len {
        proof {
            lemma_value_below(ds@);
            lemma_pow10_grows(ds@.len(), places as nat);
            vstd::arithmetic::div_mod::lemma_basic_div(
                value(ds@) as int,
                pow10(places as nat) as int,
            );
        }
        return Class::Small;
    }
    let from: usize = places as usize;
    let count: usize = ds.len() - from;
    proof {
        lemma_upper_is_quotient(ds@, from as int);
        lemma_upper_bounds(ds@, from as int);
    }
    if count > 16 {
        proof {
            lemma_pow10_grows(16, (count - 1) as nat);
        }
        Class::Large
    } else if count < 16 {
        proof {
            lemma_pow10_grows(count as nat, 15);
        }
        Class::Small
    } else {
        let u: u64 = upper_of(ds, from);
        if u < FRACTION_RANGE {
            Class::Small
        } else if u < 2 * FRACTION_RANGE {
            Class::Fit
        } else {
            Class::Large
        }
    }
}

/// A power of ten is at least the power of two of thrice the exponent.
proof fn lemma_pow10_above_pow2(a: nat)
    ensures
        pow10(a) >= pow2(3 * a),
        pow10(a) >= pow2(a),
    decreases a,
{
    vstd::arithmetic::power2::lemma2_to64();
    if a > 0 {
        let less = (a - 1) as nat;
        lemma_pow10_above_pow2(less);
        vstd::arithmetic::power2::lemma_pow2_adds(3 * less, 3);
        vstd::arithmetic::power2::lemma_pow2_adds(less, 1);
        assert(pow2(3 * less) * 8 <= 10 * pow10(less)) by (nonlinear_arith)
            requires
                pow2(3 * less) <= pow10(less),
        ;
    }
}

/// How a quotient lies to a bound is how the dividend lies to the bound
/// times the divisor.
proof fn lemma_quotient_bound(a: nat, b: nat, bound: nat)
    requires
        b > 0,
    ensures
        a / b >= bound <==> a >= bound * b,
{
    vstd::arithmetic::div_mod::lemma_fundamental_div_mod(a as int, b as int);
    vstd::arithmetic::div_mod::lemma_mod_bound(a as int, b as int);
    let q = (a / b) as int;
    if q >= bound {
        assert(b * q >= bound * b) by (nonlinear_arith)
            requires
                q >= bound,
                b > 0,
        ;
    } else {
        assert(b * q + b <= bound * b) by (nonlinear_arith)
            requires
                q + 1 <= bound,
                b > 0,
        ;
    }
}

/// Zero is read as zero.
proof fn lemma_nearest_of_zero(d: nat)
    requires
        d > 0,
    ensures
        nearest_magnitude(0, d) == 0,
{
    assert(pow2(0) == 1) by {
        vstd::arithmetic::power2::lemma2_to64();
    }
    assert(0x20_0000_0000_0000 * d > 0) by (nonlinear_arith)
        requires
            d > 0,
    ;
    assert(d * pow2(0) == d) by (nonlinear_arith)
        requires
            pow2(0) == 1,
    ;
    vstd::arithmetic::div_mod::lemma_small_mod(0, d);
    vstd::arithmetic::div_mod::lemma_basic_div(0, d as int);
}

/// A number of many more digits before the point than any double has is
/// beyond the doubles.
proof fn lemma_beyond_doubles(coefficient: nat, digits: nat, exponent: nat)
    requires
        digits >= 1,
        coefficient >= pow10((digits - 1) as nat),
        digits - 1 + exponent >= 342,
    ensures
        nearest_magnitude(coefficient * pow10(exponent) * pow2(1074), 1) >= INFINITY_BITS,
{
    let n = coefficient * pow10(exponent) * pow2(1074);
    let high = (digits - 1 + exponent) as nat;
    lemma_pow10_adds((digits - 1) as nat, exponent);
    lemma_pow10_grows(342, high);
    lemma_pow10_above_pow2(342);
    lemma_pow10_positive(exponent);
    vstd::arithmetic::power2::lemma_pow2_adds(1026, 1074);
    vstd::arithmetic::power2::lemma_pow2_adds(52, 2047);
    vstd::arithmetic::power2::lemma_pow2_adds(2099, 1);
    vstd::arithmetic::power2::lemma2_to64();
    vstd::arithmetic::power2::lemma2_to64_rest();
    vstd::arithmetic::power2::lemma_pow2_pos(1074);
    vstd::arithmetic::power2::lemma_pow2_pos(2099);
    let c = coefficient * pow10(exponent);
    assert(c >= pow10(high)) by (nonlinear_arith)
        requires
            coefficient >= pow10((digits - 1) as nat),
            pow10(high) == pow10((digits - 1) as nat) * pow10(exponent),
            pow10(exponent) > 0,
            c == coefficient * pow10(exponent),
    ;
    assert(n >= pow2(2100)) by (nonlinear_arith)
        requires
            n == c * pow2(1074),
            c >= pow2(1026),
            pow2(2100) == pow2(1026) * pow2(1074),
            pow2(1074) > 0,
    ;
    assert(FRACTION_RANGE * (1 * pow2(2047)) == pow2(2099)) by (nonlinear_arith)
        requires
            FRACTION_RANGE == pow2(52),
            pow2(2099) == pow2(52) * pow2(2047),
    ;
    lemma_binade_at_least(n, 1, 2047);
    let k = binade(n, 1);
    assert(k * FRACTION_RANGE >= 2047 * FRACTION_RANGE) by (nonlinear_arith)
        requires
            k >= 2047,
    ;
}

/// A number so far behind the point that it lies below half the smallest
/// double is read as zero.
proof fn lemma_below_doubles(coefficient: nat, digits: nat, places: nat)
    requires
        coefficient < pow10(digits),
        places >= digits + 1075,
    ensures
        nearest_magnitude(coefficient * pow2(1074), pow10(places)) == 0,
{
    let n = coefficient * pow2(1074);
    let d = pow10(places);
    let rest = (places - digits) as nat;
    lemma_pow10_adds(digits, rest);
    lemma_pow10_grows(1075, rest);
    lemma_pow10_above_pow2(1075);
    lemma_pow10_positive(digits);
    vstd::arithmetic::power2::lemma_pow2_unfold(1075);
    vstd::arithmetic::power2::lemma_pow2_pos(1074);
    assert(pow2(0) == 1) by {
        vstd::arithmetic::power2::lemma2_to64();
    }
    assert(2 * n < d) by (nonlinear_arith)
        requires
            n == coefficient * pow2(1074),
            coefficient < pow10(digits),
            d == pow10(digits) * pow10(rest),
            pow10(rest) >= 2 * pow2(1074),
            pow2(1074) > 0,
            pow10(digits) > 0,
    ;
    assert(0x20_0000_0000_0000 * d >= d) by (nonlinear_arith)
        requires
            d > 0,
    ;
    assert(d * pow2(0) == d) by (nonlinear_arith)
        requires
            pow2(0) == 1,
    ;
    vstd::arithmetic::div_mod::lemma_small_mod(n, d);
    vstd::arithmetic::div_mod::lemma_basic_div(n as int, d as int);
}

/// Twice a number has a whole part of at most twice the whole part and one.
proof fn lemma_whole_of_twice(v: nat, p: nat)
    requires
        p > 0,
    ensures
        (2 * v) / p <= 2 * (v / p) + 1,
{
    vstd::arithmetic::div_mod::lemma_fundamental_div_mod(v as int, p as int);
    vstd::arithmetic::div_mod::lemma_mod_bound(v as int, p as int);
    let q = (v / p) as int;
    let bound = (2 * q + 2) as nat;
    assert(2 * v < bound * p) by (nonlinear_arith)
        requires
            v == p * q + (v % p),
            0 <= v % p < p,
            bound == 2 * q + 2,
    ;
    lemma_quotient_bound(2 * v, p, bound);
}

/// Puts the sign bit to an encoding.
fn signed(negative: bool, magnitude: u64) -> (bits: u64)
    requires
        magnitude < SIGN_BIT,
    ensures
        bits == with_sign(negative, magnitude as nat),
{
    if negative {
        magnitude + SIGN_BIT
    } else {
        magnitude
    }
}

/// The double nearest to the number of digits `digits` times ten to the
/// power of `exponent`. The exponent is handed in as `shift`, which is the
/// exponent itself unless that is beyond all measure on either side.
fn nearest_double(negative: bool, digits: Vec<u8>, shift: i128, Ghost(exponent): Ghost<int>) -> (d:
    Double)
    requires
        are_digits(digits@),
        stands_for(shift, exponent),
    ensures
        d == rounded(negative, value(digits@), exponent),
{
    let mut ds = digits;
    while ds.len() > 0 && ds[ds.len() - 1] == 0
        invariant
            are_digits(ds@),
            value(ds@) == value(digits@),
        decreases ds.len(),
    {
        proof {
            let p = pow10((ds.len() - 1) as nat);
            assert(0 * p == 0);
        }
        ds.pop();
    }
    let ghost coefficient = value(ds@);
    proof {
        lemma_pow10_positive((-exponent) as nat);
        vstd::arithmetic::power2::lemma_pow2_pos(1074);
    }
    if ds.len() == 0 {
        proof {
            if exponent >= 0 {
                lemma_nearest_of_zero(1);
                assert(0 * pow10(exponent as nat) * pow2(1074) == 0) by (nonlinear_arith);
            } else {
                lemma_nearest_of_zero(pow10((-exponent) as nat));
                assert(0 * pow2(1074) == 0) by (nonlinear_arith);
            }
        }
        return Double { bits: signed(negative, 0) };
    }
    let len: i128 = ds.len() as i128;
    proof {
        lemma_upper_bounds(ds@, 0);
        lemma_upper_is_quotient(ds@, 0);
        lemma_value_below(ds@);
    }
    if shift > 0 && len - 1 + shift >= 342 {
        proof {
            lemma_beyond_doubles(coefficient, len as nat, exponent as nat);
        }
        return Double { bits: signed(negative, INFINITY_BITS) };
    }
    if shift < 0 && -shift >= len + 1075 {
        proof {
            lemma_below_doubles(coefficient, len as nat, (-exponent) as nat);
        }
        return Double { bits: signed(negative, 0) };
    }
    let ghost n: nat = dividend(coefficient, exponent);
    let ghost d: nat = divisor(exponent);
    let mut places: u128 = 0;
    if shift > 0 {
        let mut i: i128 = 0;
        proof {
            assert(coefficient * pow10(0) == coefficient) by (nonlinear_arith)
                requires
                    pow10(0) == 1,
            ;
        }
        while i < shift
            invariant
                0 <= i <= shift < 342,
                canonical(ds@),
                value(ds@) == coefficient * pow10(i as nat),
            decreases shift - i,
        {
            proof {
                let p = pow10(i as nat);
                assert(10 * (coefficient * p) == coefficient * (10 * p)) by (nonlinear_arith);
            }
            ds = times(&ds, 10);
            i = i + 1;
        }
    } else {
        places = (-shift) as u128;
    }
    let mut k: u64 = 1074;
    let ghost mut c1: nat = 1;
    let ghost c2: nat = pow2(1074);
    proof {
        lemma_pow10_positive(places as nat);
    }
    // Far above the significands, eleven halvings are taken at once.
    while ds.len() as u128 >= places + 21 && k + 11 <= 2046
        invariant
            canonical(ds@),
            1074 <= k <= 2046,
            places <= len + 1075 + k,
            0 < len < 0x1_0000_0000_0000_0000,
            c1 > 0,
            c2 > 0,
            n * c1 == value(ds@) * c2,
            (d * pow2(k as nat)) * c1 == pow10(places as nat) * c2,
        decreases 2046 - k,
    {
        proof {
            let a = value(ds@);
            let b = pow10(places as nat);
            vstd::arithmetic::power2::lemma_pow2_adds(k as nat, 11);
            vstd::arithmetic::power2::lemma2_to64();
            lemma_pow10_adds(places as nat, 11);
            assert(pow10(11) == 100_000_000_000) by {
                reveal_with_fuel(pow10, 12);
            }
            assert(n * (48828125 * c1) == (48828125 * a) * c2) by (nonlinear_arith)
                requires
                    n * c1 == a * c2,
            ;
            assert((d * (pow2(k as nat) * 2048)) * (48828125 * c1) == (b * 100_000_000_000) * c2)
                by (nonlinear_arith)
                requires
                    (d * pow2(k as nat)) * c1 == b * c2,
            ;
            c1 = 48828125 * c1;
        }
        ds = times(&ds, 48828125);
        places = places + 11;
        k = k + 11;
    }
    // Far below them, twelve doublings.
    while ds.len() as u128 <= places + 12 && k >= 12
        invariant
            canonical(ds@),
            k <= 2046,
            places <= len + 1075 + 2046,
            0 < len < 0x1_0000_0000_0000_0000,
            c1 > 0,
            c2 > 0,
            n * c1 == value(ds@) * c2,
            (d * pow2(k as nat)) * c1 == pow10(places as nat) * c2,
        decreases k,
    {
        proof {
            let a = value(ds@);
            let b = pow10(places as nat);
            vstd::arithmetic::power2::lemma_pow2_adds((k - 12) as nat, 12);
            vstd::arithmetic::power2::lemma2_to64();
            assert(n * (4096 * c1) == (4096 * a) * c2) by (nonlinear_arith)
                requires
                    n * c1 == a * c2,
            ;
            assert((d * pow2((k - 12) as nat)) * (4096 * c1) == b * c2) by (nonlinear_arith)
                requires
                    (d * pow2(k as nat)) * c1 == b * c2,
                    pow2(k as nat) == pow2((k - 12) as nat) * 4096,
            ;
            c1 = 4096 * c1;
        }
        ds = times(&ds, 4096);
        k = k - 12;
    }
    loop
        invariant
            canonical(ds@),
            k <= 2046,
            places <= len + 1075 + 2046 + k,
            0 < len < 0x1_0000_0000_0000_0000,
            c1 > 0,
            c2 > 0,
            d > 0,
            n * c1 == value(ds@) * c2,
            (d * pow2(k as nat)) * c1 == pow10(places as nat) * c2,
            n == dividend(coefficient, exponent),
            d == divisor(exponent),
            coefficient == value(digits@),
        ensures
            whole(ds@, places as nat) < 2 * FRACTION_RANGE,
        decreases 2046 - k,
    {
        let ghost a = value(ds@);
        let ghost b = pow10(places as nat);
        let ghost dd = d * pow2(k as nat);
        proof {
            lemma_pow10_positive(places as nat);
            vstd::arithmetic::power2::lemma_pow2_pos(k as nat);
            assert(dd > 0) by (nonlinear_arith)
                requires
                    d > 0,
                    pow2(k as nat) > 0,
                    dd == d * pow2(k as nat),
            ;
        }
        match class_of(&ds, places) {
            Class::Large => {
                if k >= 2046 {
                    proof {
                        lemma_quotient_bound(a, b, (2 * FRACTION_RANGE) as nat);
                        lemma_same_quotient(n, dd, a, b, c1, c2, (2 * FRACTION_RANGE) as nat);
                        vstd::arithmetic::power2::lemma_pow2_unfold((k + 1) as nat);
                        assert(FRACTION_RANGE * (d * pow2((k + 1) as nat)) == (2 * FRACTION_RANGE)
                            * dd) by (nonlinear_arith)
                            requires
                                pow2((k + 1) as nat) == 2 * pow2(k as nat),
                                dd == d * pow2(k as nat),
                        ;
                        lemma_binade_at_least(n, d, (k + 1) as nat);
                        let high = binade(n, d);
                        assert(high * FRACTION_RANGE >= 2047 * FRACTION_RANGE) by (nonlinear_arith)
                            requires
                                high >= 2047,
                        ;
                    }
                    return Double { bits: signed(negative, INFINITY_BITS) };
                }
                proof {
                    vstd::arithmetic::power2::lemma_pow2_unfold((k + 1) as nat);
                    assert(n * (5 * c1) == (5 * a) * c2) by (nonlinear_arith)
                        requires
                            n * c1 == a * c2,
                    ;
                    assert((d * (2 * pow2(k as nat))) * (5 * c1) == (10 * b) * c2)
                        by (nonlinear_arith)
                        requires
                            (d * pow2(k as nat)) * c1 == b * c2,
                    ;
                    c1 = 5 * c1;
                }
                ds = times(&ds, 5);
                places = places + 1;
                k = k + 1;
            },
            _ => {
                break ;
            },
        }
    }
    loop
        invariant
            canonical(ds@),
            k <= 2046,
            c1 > 0,
            c2 > 0,
            d > 0,
            n * c1 == value(ds@) * c2,
            (d * pow2(k as nat)) * c1 == pow10(places as nat) * c2,
            whole(ds@, places as nat) < 2 * FRACTION_RANGE,
            n == dividend(coefficient, exponent),
            d == divisor(exponent),
            coefficient == value(digits@),
        decreases k,
    {
        let ghost a = value(ds@);
        let ghost b = pow10(places as nat);
        let ghost dd = d * pow2(k as nat);
        proof {
            lemma_pow10_positive(places as nat);
            vstd::arithmetic::power2::lemma_pow2_pos(k as nat);
            assert(dd > 0) by (nonlinear_arith)
                requires
                    d > 0,
                    pow2(k as nat) > 0,
                    dd == d * pow2(k as nat),
            ;
        }
        let class = class_of(&ds, places);
        let small = match class {
            Class::Small => true,
            _ => false,
        };
        if small && k > 0 {
            proof {
                vstd::arithmetic::power2::lemma_pow2_unfold(k as nat);
                lemma_whole_of_twice(a, b);
                assert(n * (2 * c1) == (2 * a) * c2) by (nonlinear_arith)
                    requires
                        n * c1 == a * c2,
                ;
                assert((d * pow2((k - 1) as nat)) * (2 * c1) == b * c2) by (nonlinear_arith)
                    requires
                        (d * pow2(k as nat)) * c1 == b * c2,
                        pow2(k as nat) == 2 * pow2((k - 1) as nat),
                ;
                c1 = 2 * c1;
            }
            ds = times(&ds, 2);
            k = k - 1;
        } else {
            proof {
                lemma_pow10_values();
                lemma_whole_digits(ds@, places as nat, 17);
            }
            let q: u64 = rounded_quotient(&ds, places);
            proof {
                lemma_same_quotient(n, dd, a, b, c1, c2, (2 * FRACTION_RANGE) as nat);
                lemma_same_quotient(n, dd, a, b, c1, c2, FRACTION_RANGE as nat);
                lemma_quotient_bound(a, b, (2 * FRACTION_RANGE) as nat);
                lemma_quotient_bound(a, b, FRACTION_RANGE as nat);
                lemma_binade_is(n, d, k as nat);
            }
            assert(k * FRACTION_RANGE <= 2046 * FRACTION_RANGE) by (nonlinear_arith)
                requires
                    k <= 2046,
            ;
            let magnitude: u64 = k * FRACTION_RANGE + q;
            if magnitude >= INFINITY_BITS {
                return Double { bits: signed(negative, INFINITY_BITS) };
            }
            return Double { bits: signed(negative, magnitude) };
        }
    }
}

/// The double nearest to `coefficient` times ten to the power of `exponent`,
/// with the sign given.
pub fn nearest_to(negative: bool, coefficient: u64, exponent: i32) -> (d: Double)
    ensures
        d == rounded(negative, coefficient as nat, exponent as int),
{
    let digits: Vec<u8> = if coefficient == 0 {
        let none: Vec<u8> = Vec::new();
        none
    } else {
        crate::digits::digits_of(coefficient)
    };
    nearest_double(negative, digits, exponent as i128, Ghost(exponent as int))
}

/// The characters of a text.
pub fn chars_of(text: &str) -> (chars: Vec<char>)
    ensures
        chars@ == text@,
{
    let mut chars: Vec<char> = Vec::new();
    for c in it: text.chars()
        invariant
            it.seq() == text@,
            chars@ == text@.take(it.index() as int),
    {
        chars.push(c);
    }
    chars
}

/// Tells whether a character is one of the ten decimal digits.
pub fn is_digit(c: char) -> (b: bool)
    ensures
        b == is_decimal_digit(c),
{
    let code: u32 = c as u32;
    0x30 <= code && code <= 0x39
}

/// Finds where the run of digits that starts at `from` ends.
fn run(s: &Vec<char>, from: usize) -> (end: usize)
    requires
        from <= s.len(),
    ensures
        end == run_end(s@, from as int),
        from <= end <= s.len(),
        forall|i: int| from <= i < end ==> is_decimal_digit(#[trigger] s[i]),
{
    let mut end: usize = from;
    while end < s.len() && is_digit(s[end])
        invariant
            from <= end <= s.len(),
            run_end(s@, from as int) == run_end(s@, end as int),
            forall|i: int| from <= i < end ==> is_decimal_digit(#[trigger] s[i]),
        decreases s.len() - end,
    {
        end = end + 1;
    }
    end
}

/// A number written in digits is its first digit, scaled, and the number
/// that the other digits write.
proof fn lemma_number_from_front(s: Seq<char>, from: int, to: int)
    requires
        0 <= from < to <= s.len(),
    ensures
        number_of(s, from, to) == digit_of(s[from]) * pow10((to - from - 1) as nat) + number_of(
            s,
            from + 1,
            to,
        ),
    decreases to - from,
{
    let x = digit_of(s[from]);
    if to == from + 1 {
        let one = pow10(0);
        assert(number_of(s, from, from) == 0);
        assert(x * one == x) by (nonlinear_arith)
            requires
                one == 1,
        ;
    } else {
        lemma_number_from_front(s, from, to - 1);
        let p = pow10((to - from - 2) as nat);
        let last = digit_of(s[to - 1]);
        let inner = number_of(s, from + 1, to - 1);
        assert((x * p + inner) * 10 == x * (10 * p) + inner * 10) by (nonlinear_arith);
    }
}

/// Appends the digits that stand in a text from `from` up to `to`, the last
/// of them first.
fn push_digits_of(ds: &mut Vec<u8>, s: &Vec<char>, from: usize, to: usize)
    requires
        from <= to <= s.len(),
        are_digits(old(ds)@),
        forall|i: int| from <= i < to ==> is_decimal_digit(#[trigger] s[i]),
    ensures
        are_digits(final(ds)@),
        final(ds).len() == old(ds).len() + (to - from),
        value(final(ds)@) == value(old(ds)@) + number_of(s@, from as int, to as int) * pow10(
            old(ds).len() as nat,
        ),
{
    let ghost before = ds@;
    let ghost base = pow10(before.len());
    let mut i: usize = to;
    proof {
        assert(number_of(s@, to as int, to as int) == 0);
    }
    while i > from
        invariant
            from <= i <= to <= s.len(),
            are_digits(ds@),
            ds.len() == before.len() + (to - i),
            base == pow10(before.len()),
            value(ds@) == value(before) + number_of(s@, i as int, to as int) * base,
            forall|j: int| from <= j < to ==> is_decimal_digit(#[trigger] s[j]),
        decreases i,
    {
        let ghost so_far = ds@;
        i = i - 1;
        let c: char = s[i];
        let digit: u8 = ((c as u32) - 0x30) as u8;
        ds.push(digit);
        proof {
            assert(ds@.drop_last() =~= so_far);
            let width = (to - i - 1) as nat;
            let x = digit as nat;
            lemma_number_from_front(s@, i as int, to as int);
            lemma_pow10_adds(before.len(), width);
            let w = pow10(width);
            let rest = number_of(s@, i + 1, to as int);
            assert(x * (base * w) + rest * base == (x * w + rest) * base) by (nonlinear_arith);
        }
    }
}

/// Reads digits as a number, up to a bound beyond all measure.
fn bounded_number(s: &Vec<char>, from: usize, to: usize) -> (n: u128)
    requires
        from <= to <= s.len(),
        forall|i: int| from <= i < to ==> is_decimal_digit(#[trigger] s[i]),
    ensures
        n == number_of(s@, from as int, to as int) || (n == 0x2_0000_0000_0000_0000_0000 && number_of(
            s@,
            from as int,
            to as int,
        ) >= n),
        n <= 0x2_0000_0000_0000_0000_0000,
{
    let mut n: u128 = 0;
    let mut i: usize = from;
    while i < to
        invariant
            from <= i <= to <= s.len(),
            n == number_of(s@, from as int, i as int) || (n == 0x2_0000_0000_0000_0000_0000
                && number_of(s@, from as int, i as int) >= n),
            n <= 0x2_0000_0000_0000_0000_0000,
            forall|j: int| from <= j < to ==> is_decimal_digit(#[trigger] s[j]),
        decreases to - i,
    {
        let c: char = s[i];
        let digit: u128 = ((c as u32) - 0x30) as u128;
        i = i + 1;
        if n < 0x2_0000_0000_0000_0000_0000 {
            n = n * 10 + digit;
            if n > 0x2_0000_0000_0000_0000_0000 {
                n = 0x2_0000_0000_0000_0000_0000;
            }
        }
    }
    n
}

/// Tells whether the text from `start` on is the word, in small letters or
/// capitals.
fn is_word(s: &Vec<char>, start: usize, word: &Vec<char>) -> (b: bool)
    requires
        start <= s.len(),
    ensures
        b == spells(s@, start as int, word@),
{
    if s.len() - start != word.len() {
        return false;
    }
    let mut i: usize = 0;
    while i < word.len()
        invariant
            i <= word.len(),
            s.len() - start == word.len(),
            forall|j: int| 0 <= j < i ==> is_letter(#[trigger] s[start + j], word[j]),
        decreases word.len() - i,
    {
        let c: char = s[start + i];
        let small: char = word[i];
        if !(c == small || ((c as u32) as u64) + 32 == (small as u32) as u64) {
            return false;
        }
        i = i + 1;
    }
    true
}

/// Whether `shift` can stand for `exponent`: it is the exponent, unless
/// that is beyond all measure on the same side.
pub open spec fn stands_for(shift: i128, exponent: int) -> bool {
    &&& -0x4000_0000_0000_0000_0000_0000_0000_0000 < shift < 0x4000_0000_0000_0000_0000_0000_0000_0000
    &&& (shift == exponent || (shift >= 0x1_0000_0000_0000_0000_0000 && exponent >= shift) || (shift
        <= -0x1_0000_0000_0000_0000_0000 && exponent <= shift))
}

/// Reads the exponent part that starts at `at`.
fn read_power(s: &Vec<char>, at: usize) -> (power: Option<i128>)
    requires
        at < s.len(),
    ensures
        power is Some <==> power_at(s@, at as int) is Some,
        power matches Some(p) ==> {
            let said = power_at(s@, at as int)->0;
            &&& -0x2_0000_0000_0000_0000_0000 <= p <= 0x2_0000_0000_0000_0000_0000
            &&& (p == said || (p == 0x2_0000_0000_0000_0000_0000 && said >= p) || (p
                == -0x2_0000_0000_0000_0000_0000 && said <= p))
        },
{
    let sign_at: usize = at + 1;
    let signed = sign_at < s.len() && (s[sign_at] == '+' || s[sign_at] == '-');
    let exp_start: usize = if signed {
        sign_at + 1
    } else {
        sign_at
    };
    let exp_end = run(s, exp_start);
    if exp_end == exp_start || exp_end != s.len() {
        None
    } else {
        let power: u128 = bounded_number(s, exp_start, exp_end);
        if signed && s[sign_at] == '-' {
            Some(-(power as i128))
        } else {
            Some(power as i128)
        }
    }
}

/// Reads the text from `start` on as a number without sign: its digits, the
/// lowest first, and its exponent.
fn read_unsigned(s: &Vec<char>, start: usize) -> (parts: Option<(Vec<u8>, i128)>)
    requires
        start <= s.len(),
    ensures
        parts is Some <==> scan(s@, start as int) is Some,
        parts matches Some((digits, shift)) ==> {
            let said = scan(s@, start as int)->0;
            &&& are_digits(digits@)
            &&& value(digits@) == said.coefficient
            &&& stands_for(shift, said.exponent)
        },
{
    let int_end = run(s, start);
    let pointed = int_end < s.len() && s[int_end] == '.';
    let frac_start: usize = if pointed {
        int_end + 1
    } else {
        int_end
    };
    let frac_end = run(s, frac_start);
    let places: usize = frac_end - frac_start;
    if (int_end - start) + places == 0 {
        return None;
    }
    let shift: i128 = if frac_end == s.len() {
        -(places as i128)
    } else if s[frac_end] == 'e' || s[frac_end] == 'E' {
        match read_power(s, frac_end) {
            Some(power) => power - (places as i128),
            None => {
                return None;
            },
        }
    } else {
        return None;
    };
    let mut digits: Vec<u8> = Vec::new();
    proof {
        let one = pow10(0);
        let fraction = number_of(s@, frac_start as int, frac_end as int);
        assert(fraction * one == fraction) by (nonlinear_arith)
            requires
                one == 1,
        ;
    }
    push_digits_of(&mut digits, s, frac_start, frac_end);
    push_digits_of(&mut digits, s, start, int_end);
    Some((digits, shift))
}

/// Reads a number off a decimal text: the double nearest to what the text
/// says.
pub fn read_number(text: &str) -> (result: Result<Double, ReadError>)
    ensures
        result == reading(text@),
{
    let s = chars_of(text);
    if s.len() == 0 {
        return Err(ReadError::Empty);
    }
    let negative = s[0] == '-';
    let start: usize = if s[0] == '+' || s[0] == '-' {
        1
    } else {
        0
    };
    match read_unsigned(&s, start) {
        Some((digits, shift)) => {
            Ok(nearest_double(negative, digits, shift, Ghost(scan(s@, start as int)->0.exponent)))
        },
        None => {
            let inf: Vec<char> = vec!['i', 'n', 'f'];
            let infinity: Vec<char> = vec!['i', 'n', 'f', 'i', 'n', 'i', 't', 'y'];
            let nan: Vec<char> = vec!['n', 'a', 'n'];
            if is_word(&s, start, &inf) || is_word(&s, start, &infinity) {
                Ok(Double { bits: signed(negative, INFINITY_BITS) })
            } else if is_word(&s, start, &nan) {
                Ok(Double { bits: signed(negative, QUIET_NAN_BITS) })
            } else {
                Err(ReadError::Invalid)
            }
        },
    }
}

} // verus!
