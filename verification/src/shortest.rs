//! Doubles as JSON numbers.
//!
//! A finite double is written as a short decimal that is read back as the
//! same double. The decimal is searched for from one digit upward: the
//! double rounded to so many digits is tried, then the decimal next to it on
//! the other side of the double, and the first that is read back as the
//! double is taken. With seventeen digits the rounded double always is.
//!
//! Where the decimal has its first digit from five places behind the point
//! up to fifteen places before it, it is written out plainly, `68000.0`,
//! `0.25`, `0.00001`, with `.0` behind a whole number; beyond that, with one
//! digit before the point and an exponent of ten that carries its sign,
//! `1e+21`, `1.5e-7`. Zero is `0.0` or `-0.0`. What is not finite has no
//! JSON number and is written `null`.

use vstd::prelude::*;
use vstd::arithmetic::power2::pow2;
use vstd::string::{StrSliceExecFns, StringExecFns};
use crate::decimal::{dividend, divisor, lemma_magnitude_by_binade, lemma_near_is_read,
    lemma_rounded_shift, nearest_to, rounded};
use crate::digits::{canonical, digits_of, lemma_digits_count, lemma_pow10_positive,
    lemma_pow10_values, lemma_pow5_adds, pow10, pow5, rounded_quotient, times, value, whole_of};
use crate::number::{Double, FRACTION_RANGE};
use crate::rounding::{lemma_nearest_is_near, nearest};
use crate::text::{digits, lemma_digits_shape, push_digits};

verus! {

/// The most digits that a double can need to be told from every other.
pub const MOST_DIGITS: usize = 17;

/// The exact value of a finite number in decimal, without its sign: a whole
/// number, and how many of its digits stand behind the point.
pub open spec fn expansion(x: Double) -> (nat, nat) {
    if x.exponent() >= 0 {
        (x.significand() * pow2(x.exponent() as nat), 0)
    } else {
        (x.significand() * pow5((-x.exponent()) as nat), (-x.exponent()) as nat)
    }
}

/// The number rounded to `count` digits: a coefficient, and the power of ten
/// by which it is scaled. A number of no more digits is kept as it is.
pub open spec fn kept_digits(x: Double, count: nat) -> (nat, int) {
    let (whole, places) = expansion(x);
    let len = digits(whole).len();
    if len <= count {
        (whole, -(places as int))
    } else {
        let dropped = (len - count) as nat;
        (nearest(whole, pow10(dropped)), dropped - places)
    }
}

/// Whether the decimal is read as the number.
pub open spec fn reads_as(coefficient: nat, exponent: int, x: Double) -> bool {
    rounded(x.negative(), coefficient, exponent) == x
}

/// The decimal next to the number rounded to `count` digits, on the other
/// side of the number: the one below where the number was rounded up, else
/// the one above.
pub open spec fn across(x: Double, count: nat) -> (nat, int) {
    let (whole, places) = expansion(x);
    let len = digits(whole).len();
    let (c, q) = kept_digits(x, count);
    if len > count && c * pow10((len - count) as nat) > whole {
        ((c - 1) as nat, q)
    } else {
        (c + 1, q)
    }
}

/// The decimal of `count` digits that is read as the number, where there is
/// one: the number rounded to that many digits, or else the decimal next to
/// it on the other side of the number.
pub open spec fn found_with(x: Double, count: nat) -> Option<(nat, int)> {
    let kept = kept_digits(x, count);
    let next = across(x, count);
    if reads_as(kept.0, kept.1, x) {
        Some(kept)
    } else if reads_as(next.0, next.1, x) {
        Some(next)
    } else {
        None
    }
}

/// What the search finds from `count` digits upward: the first decimal that
/// is read as the number, and with seventeen digits the number rounded to
/// them.
pub open spec fn shortest_from(x: Double, count: nat) -> (nat, int)
    decreases MOST_DIGITS - count,
{
    if count >= MOST_DIGITS {
        kept_digits(x, MOST_DIGITS as nat)
    } else if found_with(x, count) is Some {
        found_with(x, count)->0
    } else {
        shortest_from(x, count + 1)
    }
}

/// A decimal without the zeros at its end.
pub open spec fn trimmed(coefficient: nat, exponent: int) -> (nat, int)
    decreases coefficient,
{
    if coefficient > 0 && coefficient % 10 == 0 {
        trimmed(coefficient / 10, exponent + 1)
    } else {
        (coefficient, exponent)
    }
}

/// The decimal that stands for the number: what the search finds from one
/// digit upward, without zeros at its end.
pub open spec fn shortest(x: Double) -> (nat, int) {
    let (c, q) = shortest_from(x, 1);
    trimmed(c, q)
}

/// So many zeros.
pub open spec fn zeros(count: nat) -> Seq<char> {
    Seq::new(count, |i: int| '0')
}

/// A decimal as it is written, without sign.
pub open spec fn written(coefficient: nat, exponent: int) -> Seq<char> {
    let d = digits(coefficient);
    let first = d.len() - 1 + exponent;
    if -5 <= first <= 15 {
        if exponent >= 0 {
            d + zeros(exponent as nat) + seq!['.', '0']
        } else if first >= 0 {
            d.subrange(0, first + 1) + seq!['.'] + d.subrange(first + 1, d.len() as int)
        } else {
            seq!['0', '.'] + zeros((-first - 1) as nat) + d
        }
    } else {
        let mantissa = if d.len() > 1 {
            d.subrange(0, 1) + seq!['.'] + d.subrange(1, d.len() as int)
        } else {
            d
        };
        if first < 0 {
            mantissa + seq!['e', '-'] + digits((-first) as nat)
        } else {
            mantissa + seq!['e', '+'] + digits(first as nat)
        }
    }
}

/// A double as a JSON number.
pub open spec fn json_number(x: Double) -> Seq<char> {
    if !x.finite() {
        "null"@
    } else {
        let sign = if x.negative() {
            seq!['-']
        } else {
            Seq::empty()
        };
        if x.magnitude() == 0 {
            sign + seq!['0', '.', '0']
        } else {
            sign + written(shortest(x).0, shortest(x).1)
        }
    }
}

/// The expansion of a number is its exact value: the whole number, with so
/// many digits behind the point, is the size of the number counted in the
/// smallest step between doubles.
pub proof fn lemma_expansion_is_exact(x: Double)
    requires
        x.finite(),
    ensures
        expansion(x).0 * pow2(1074) == x.size() * pow10(expansion(x).1),
{
    let m = x.significand();
    let e = x.exponent();
    lemma_magnitude_by_binade(x);
    if e >= 0 {
        vstd::arithmetic::power2::lemma_pow2_adds(e as nat, 1074);
        let a = pow2(e as nat);
        let b = pow2(1074);
        assert((m * a) * b == (m * (a * b)) * 1) by (nonlinear_arith);
    } else {
        let j = (-e) as nat;
        let rest = (1074 - j) as nat;
        vstd::arithmetic::power2::lemma_pow2_adds(rest, j);
        crate::digits::lemma_pow10_is_pow2_pow5(j);
        let a = pow2(rest);
        let b = pow2(j);
        let f = pow5(j);
        assert((m * f) * (a * b) == (m * a) * (b * f)) by (nonlinear_arith);
    }
}

/// A number that is made of so many digits is at least the power of ten
/// with one digit less.
proof fn lemma_digits_at_least(n: nat, count: nat)
    requires
        digits(n).len() > count,
        count >= 1,
    ensures
        n >= pow10(count),
{
    if n < pow10(count) {
        lemma_digits_below(n, count);
    }
}

/// A number rounded to seventeen digits is read as the number: so many
/// digits tell a double from every other.
pub proof fn lemma_seventeen_digits_suffice(x: Double)
    requires
        x.finite(),
    ensures
        reads_as(kept_digits(x, MOST_DIGITS as nat).0, kept_digits(x, MOST_DIGITS as nat).1, x),
{
    let (v, places) = expansion(x);
    let len = digits(v).len();
    let (c, q) = kept_digits(x, MOST_DIGITS as nat);
    let n = dividend(c, q);
    let d = divisor(q);
    let size = x.size();
    let base = pow2(1074);
    let t = pow10(places);
    let k = (x.exponent() + 1074) as nat;
    let step = pow2(k);
    let sig = x.significand();
    let at = size * d;
    lemma_expansion_is_exact(x);
    lemma_magnitude_by_binade(x);
    lemma_pow10_positive(places);
    lemma_pow10_values();
    vstd::arithmetic::power2::lemma_pow2_pos(1074);
    vstd::arithmetic::power2::lemma_pow2_pos(k);
    lemma_pow10_positive((-q) as nat);
    assert(d * step > 0) by (nonlinear_arith)
        requires
            d > 0,
            step > 0,
    ;
    if len <= MOST_DIGITS {
        // Nothing is rounded away.
        if places == 0 {
            assert(n == v * 1 * base);
        }
    } else {
        let dropped = (len - MOST_DIGITS) as nat;
        let u = pow10(dropped);
        lemma_pow10_positive(dropped);
        lemma_nearest_is_near(v, u);
        lemma_digits_at_least(v, (len - 1) as nat);
        crate::digits::lemma_pow10_adds(dropped, 16);
        // What is rounded away is little against the number itself.
        let off: int = c * u - v;
        assert(u * 10_000_000_000_000_000 * base <= sig * step * t) by (nonlinear_arith)
            requires
                v >= u * 10_000_000_000_000_000,
                v * base == (sig * step) * t,
                base > 0,
        ;
        let w: int = (step * t) as int;
        assert(w > 0) by (nonlinear_arith)
            requires
                step > 0,
                t > 0,
                w == step * t,
        ;
        assert(sig * step * t == sig * w) by (nonlinear_arith)
            requires
                w == step * t,
        ;
        let ub: int = (u * base) as int;
        assert(u * 10_000_000_000_000_000 * base == 10_000_000_000_000_000 * ub)
            by (nonlinear_arith)
            requires
                ub == u * base,
        ;
        assert(ub < w) by (nonlinear_arith)
            requires
                10_000_000_000_000_000 * ub <= sig * w,
                sig < 0x20_0000_0000_0000,
                w > 0,
        ;
        if sig == FRACTION_RANGE {
            assert(2 * ub < w) by (nonlinear_arith)
                requires
                    10_000_000_000_000_000 * ub <= sig * w,
                    sig == 0x10_0000_0000_0000,
                    w > 0,
            ;
        }
        // The same, told of the quotient that the decimal is.
        let gap: int = n - at;
        if q >= 0 {
            let p = pow10(q as nat);
            crate::digits::lemma_pow10_adds(q as nat, places);
            assert(gap * t == off * base) by (nonlinear_arith)
                requires
                    gap == c * p * base - size * 1,
                    off == c * u - v,
                    u == p * t,
                    v * base == size * t,
            ;
            assert((d * step) * t == w) by (nonlinear_arith)
                requires
                    d == 1,
                    w == step * t,
            ;
            lemma_scaled_gap(gap, off, t as int, base, u, (d * step) as int, w);
        } else {
            let p = pow10((-q) as nat);
            crate::digits::lemma_pow10_adds((-q) as nat, dropped);
            assert(gap * u == off * base) by (nonlinear_arith)
                requires
                    gap == c * base - size * p,
                    off == c * u - v,
                    t == p * u,
                    v * base == size * t,
            ;
            assert((d * step) * u == w) by (nonlinear_arith)
                requires
                    d == p,
                    t == p * u,
                    w == step * t,
            ;
            lemma_scaled_gap(gap, off, u as int, base, u, (d * step) as int, w);
        }
    }
    lemma_near_is_read(n, d, x);
}

/// A gap that is little when it is scaled is little.
proof fn lemma_scaled_gap(gap: int, off: int, scale: int, base: nat, u: nat, room: int, w: int)
    requires
        scale > 0,
        base > 0,
        gap * scale == off * base,
        room * scale == w,
        -(u as int) <= 2 * off <= u,
        u * base < w,
    ensures
        -room < 2 * gap < room,
        2 * (u * base) < w ==> -room < 4 * gap < room,
        gap >= 0 <==> off >= 0,
{
    let ub = (u * base) as int;
    assert(-ub <= 2 * (off * base) <= ub) by (nonlinear_arith)
        requires
            -(u as int) <= 2 * off <= u,
            base > 0,
            ub == u * base,
    ;
    assert(-room < 2 * gap < room) by (nonlinear_arith)
        requires
            -(room * scale) < 2 * (gap * scale) < room * scale,
            scale > 0,
    ;
    if 2 * ub < w {
        assert(-room < 4 * gap < room) by (nonlinear_arith)
            requires
                -(room * scale) < 4 * (gap * scale) < room * scale,
                scale > 0,
        ;
    }
    assert(gap >= 0 <==> off >= 0) by (nonlinear_arith)
        requires
            gap * scale == off * base,
            scale > 0,
            base > 0,
    ;
}

/// Taking the zeros off the end of a decimal does not change what it is
/// read as.
pub proof fn lemma_trimmed_is_read(negative: bool, coefficient: nat, exponent: int)
    ensures
        rounded(negative, trimmed(coefficient, exponent).0, trimmed(coefficient, exponent).1)
            == rounded(negative, coefficient, exponent),
    decreases coefficient,
{
    if coefficient > 0 && coefficient % 10 == 0 {
        lemma_trimmed_is_read(negative, coefficient / 10, exponent + 1);
        lemma_rounded_shift(negative, coefficient / 10, exponent);
    }
}

/// The decimal that is searched for is read as the number, whatever the
/// count of digits from which the search starts.
proof fn lemma_search_is_read(x: Double, count: nat)
    requires
        x.finite(),
    ensures
        reads_as(shortest_from(x, count).0, shortest_from(x, count).1, x),
    decreases MOST_DIGITS - count,
{
    if count >= MOST_DIGITS {
        lemma_seventeen_digits_suffice(x);
    } else if found_with(x, count) is Some {
    } else {
        lemma_search_is_read(x, count + 1);
    }
}

/// What is written is read back: the decimal that stands for a finite
/// number is read as that number.
pub proof fn lemma_shortest_is_read(x: Double)
    requires
        x.finite(),
    ensures
        reads_as(shortest(x).0, shortest(x).1, x),
{
    lemma_search_is_read(x, 1);
    let (c, q) = shortest_from(x, 1);
    lemma_trimmed_is_read(x.negative(), c, q);
}

/// The digits of the exact value of a finite number that is not zero, the
/// lowest first, and how many of them stand behind the point.
fn expand(x: Double) -> (parts: (Vec<u8>, u32))
    requires
        x.finite(),
        x.magnitude() != 0,
    ensures
        canonical(parts.0@),
        value(parts.0@) == expansion(x).0,
        parts.1 == expansion(x).1,
        parts.1 <= 1074,
{
    let (m, e) = x.decompose();
    let mut ds = digits_of(m);
    if e >= 0 {
        let mut i: i32 = 0;
        proof {
            vstd::arithmetic::power2::lemma2_to64();
            let one = pow2(0);
            assert(m * one == m) by (nonlinear_arith)
                requires
                    one == 1,
            ;
        }
        while i + 26 <= e
            invariant
                0 <= i <= e <= 971,
                canonical(ds@),
                value(ds@) == m * pow2(i as nat),
            decreases e - i,
        {
            proof {
                vstd::arithmetic::power2::lemma_pow2_adds(i as nat, 26);
            vstd::arithmetic::power2::lemma2_to64();
                assert(0x400_0000 * (m * pow2(i as nat)) == m * (pow2(i as nat) * 0x400_0000))
                    by (nonlinear_arith);
            }
            ds = times(&ds, 0x400_0000);
            i = i + 26;
        }
        while i < e
            invariant
                0 <= i <= e,
                canonical(ds@),
                value(ds@) == m * pow2(i as nat),
            decreases e - i,
        {
            proof {
                vstd::arithmetic::power2::lemma_pow2_unfold((i + 1) as nat);
                assert(2 * (m * pow2(i as nat)) == m * (2 * pow2(i as nat))) by (nonlinear_arith);
            }
            ds = times(&ds, 2);
            i = i + 1;
        }
        (ds, 0)
    } else {
        let places: i32 = -e;
        let mut i: i32 = 0;
        proof {
            let one = pow5(0);
            assert(m * one == m) by (nonlinear_arith)
                requires
                    one == 1,
            ;
        }
        while i + 11 <= places
            invariant
                0 <= i <= places <= 1074,
                canonical(ds@),
                value(ds@) == m * pow5(i as nat),
            decreases places - i,
        {
            proof {
                lemma_pow5_adds(i as nat, 11);
                assert(pow5(11) == 48828125) by {
                    reveal_with_fuel(pow5, 12);
                }
                assert(48828125 * (m * pow5(i as nat)) == m * (pow5(i as nat) * 48828125))
                    by (nonlinear_arith);
            }
            ds = times(&ds, 48828125);
            i = i + 11;
        }
        while i < places
            invariant
                0 <= i <= places <= 1074,
                canonical(ds@),
                value(ds@) == m * pow5(i as nat),
            decreases places - i,
        {
            proof {
                assert(5 * (m * pow5(i as nat)) == m * (5 * pow5(i as nat))) by (nonlinear_arith);
            }
            ds = times(&ds, 5);
            i = i + 1;
        }
        (ds, places as u32)
    }
}

/// The number of digits `ds` rounded to `count` digits, and whether that
/// is more than the number.
fn keep(ds: &Vec<u8>, places: u32, count: usize) -> (kept: (u64, i32, bool))
    requires
        canonical(ds@),
        1 <= count <= MOST_DIGITS,
        places <= 1074,
        ds.len() <= 2000,
    ensures
        ({
            let len = digits(value(ds@)).len();
            if len <= count {
                kept.0 == value(ds@) && kept.1 == -(places as int) && !kept.2
            } else {
                let unit = pow10((len - count) as nat);
                &&& kept.0 == nearest(value(ds@), unit)
                &&& kept.1 == len - count - places
                &&& kept.2 == (kept.0 * unit > value(ds@))
            }
        }),
        1 <= kept.0 <= 100_000_000_000_000_000,
        -1074 <= kept.1 <= 2000,
{
    proof {
        lemma_digits_count(ds@);
        lemma_pow10_values();
        crate::digits::lemma_upper_bounds(ds@, 0);
        crate::digits::lemma_upper_is_quotient(ds@, 0);
    }
    let len: usize = ds.len();
    if len <= count {
        let c = whole_of(ds, 0);
        proof {
            crate::digits::lemma_value_below(ds@);
            crate::digits::lemma_pow10_grows(len as nat, 17);
            crate::digits::lemma_pow10_positive((len - 1) as nat);
            let one = pow10(0);
            assert(one == 1);
            let v = value(ds@);
            assert(v / one == v) by (nonlinear_arith)
                requires
                    one == 1,
            ;
        }
        (c, -(places as i32), false)
    } else {
        let dropped: usize = len - count;
        let below = whole_of(ds, dropped as u128);
        let c = rounded_quotient(ds, dropped as u128);
        proof {
            // The number rounded is more than the number where it is more than the quotient,
            // or, the quotient being whole, never.
            let v = value(ds@);
            let unit = pow10(dropped as nat);
            lemma_pow10_positive(dropped as nat);
            vstd::arithmetic::div_mod::lemma_fundamental_div_mod(v as int, unit as int);
            vstd::arithmetic::div_mod::lemma_mod_bound(v as int, unit as int);
            crate::digits::lemma_upper_bounds(ds@, dropped as int);
            crate::digits::lemma_upper_is_quotient(ds@, dropped as int);
            crate::digits::lemma_pow10_positive((count - 1) as nat);
            let q = (v / unit) as int;
            assert((q + 1) * unit == q * unit + unit) by (nonlinear_arith);
            if c == below {
                assert(c * unit == q * unit) by (nonlinear_arith)
                    requires
                        c == q,
                ;
            } else {
                assert(c * unit == (q + 1) * unit) by (nonlinear_arith)
                    requires
                        c == q + 1,
                ;
            }
        }
        (c, dropped as i32 - places as i32, c != below)
    }
}

/// Tells whether a decimal is read as the number.
fn is_read_as(coefficient: u64, exponent: i32, x: Double) -> (b: bool)
    ensures
        b == reads_as(coefficient as nat, exponent as int, x),
{
    nearest_to(x.is_negative(), coefficient, exponent) == x
}

/// The decimal that stands for a finite number that is not zero.
pub fn shortest_decimal(x: Double) -> (decimal: (u64, i32))
    requires
        x.finite(),
        x.magnitude() != 0,
    ensures
        decimal.0 == shortest(x).0,
        decimal.1 == shortest(x).1,
        decimal.0 <= 100_000_000_000_000_001,
        -3000 <= decimal.1 <= 3020,
{
    let (ds, places) = expand(x);
    proof {
        lemma_digits_count(ds@);
        lemma_expansion_is_short(x);
    }
    let mut count: usize = 1;
    let mut found: Option<(u64, i32)> = None;
    while count < MOST_DIGITS && found.is_none()
        invariant
            1 <= count <= MOST_DIGITS,
            canonical(ds@),
            ds.len() <= 2000,
            places <= 1074,
            value(ds@) == expansion(x).0,
            places == expansion(x).1,
            digits(value(ds@)).len() == ds.len(),
            found is None ==> shortest_from(x, 1) == shortest_from(x, count as nat),
            found matches Some(d) ==> (d.0 as nat, d.1 as int) == shortest_from(x, 1) && d.0
                <= 100_000_000_000_000_001 && -1074 <= d.1 <= 2000,
        decreases MOST_DIGITS - count + (if found is None {
            1int
        } else {
            0int
        }),
    {
        let (c, q, above) = keep(&ds, places, count);
        let next: u64 = if above {
            c - 1
        } else {
            c + 1
        };
        if is_read_as(c, q, x) {
            found = Some((c, q));
        } else if is_read_as(next, q, x) {
            found = Some((next, q));
        } else {
            count = count + 1;
        }
    }
    let (c, q) = match found {
        Some(d) => d,
        None => {
            let (c, q, above) = keep(&ds, places, MOST_DIGITS);
            (c, q)
        },
    };
    trim(c, q)
}

/// The exact value of a double has no more than 2000 digits.
proof fn lemma_expansion_is_short(x: Double)
    requires
        x.finite(),
    ensures
        digits(expansion(x).0).len() <= 2000,
{
    // A significand lies below ten to the power of 16, and every doubling
    // or multiplying by five adds one digit at most.
    let m = x.significand();
    let e = x.exponent();
    lemma_pow10_values();
    let steps: nat = if e >= 0 {
        e as nat
    } else {
        (-e) as nat
    };
    lemma_scaled_below(m, steps);
    let whole = expansion(x).0;
    assert(whole < pow10(16 + steps)) by {
        if e >= 0 {
            lemma_pow2_below_pow10(steps);
            assert(m * pow2(steps) < pow10(16) * pow10(steps)) by (nonlinear_arith)
                requires
                    m < pow10(16),
                    pow2(steps) <= pow10(steps),
                    pow2(steps) > 0,
                    pow10(steps) > 0,
            ;
        }
        crate::digits::lemma_pow10_adds(16, steps);
    }
    lemma_digits_below(whole, 16 + steps);
}

/// A significand times a power of five lies below a power of ten.
proof fn lemma_scaled_below(m: nat, steps: nat)
    requires
        m < pow10(16),
    ensures
        m * pow5(steps) < pow10(16) * pow10(steps),
        pow5(steps) <= pow10(steps),
        pow5(steps) > 0,
    decreases steps,
{
    lemma_pow10_positive(steps);
    if steps > 0 {
        lemma_scaled_below(m, (steps - 1) as nat);
        lemma_pow10_positive((steps - 1) as nat);
    }
    assert(m * pow5(steps) < pow10(16) * pow10(steps)) by (nonlinear_arith)
        requires
            m < pow10(16),
            0 < pow5(steps) <= pow10(steps),
    ;
}

/// A power of two is at most the power of ten of the same exponent.
proof fn lemma_pow2_below_pow10(steps: nat)
    ensures
        0 < pow2(steps) <= pow10(steps),
    decreases steps,
{
    vstd::arithmetic::power2::lemma2_to64();
    if steps > 0 {
        lemma_pow2_below_pow10((steps - 1) as nat);
        vstd::arithmetic::power2::lemma_pow2_unfold(steps);
    }
}

/// A number below a power of ten has no more digits than that power has
/// zeros.
proof fn lemma_digits_below(n: nat, count: nat)
    requires
        count >= 1,
        n < pow10(count),
    ensures
        digits(n).len() <= count,
    decreases count,
{
    if n >= 10 {
        assert(pow10(1) == 10) by {
            lemma_pow10_values();
        }
        lemma_digits_below(n / 10, (count - 1) as nat);
    }
}

/// Takes the zeros off the end of a decimal.
fn trim(coefficient: u64, exponent: i32) -> (decimal: (u64, i32))
    requires
        -3000 <= exponent <= 3000,
        coefficient <= 100_000_000_000_000_001,
    ensures
        (decimal.0 as nat, decimal.1 as int) == trimmed(coefficient as nat, exponent as int),
        decimal.0 <= coefficient,
        exponent <= decimal.1 <= exponent + 20,
{
    let mut c = coefficient;
    let mut q = exponent;
    let mut taken: i32 = 0;
    proof {
        let one = pow10(0);
        assert(c * one == c) by (nonlinear_arith)
            requires
                one == 1,
        ;
    }
    while c > 0 && c % 10 == 0
        invariant
            trimmed(c as nat, q as int) == trimmed(coefficient as nat, exponent as int),
            c <= coefficient,
            q == exponent + taken,
            0 <= taken <= 20,
            -3000 <= exponent <= 3000,
            c * pow10(taken as nat) <= 100_000_000_000_000_001,
        decreases c,
    {
        proof {
            lemma_pow10_values();
            let p = pow10(taken as nat);
            lemma_pow10_positive(taken as nat);
            assert((c / 10) * (10 * p) == c * p) by (nonlinear_arith)
                requires
                    c % 10 == 0,
            ;
            if taken >= 18 {
                crate::digits::lemma_pow10_grows(18, taken as nat);
                assert(c * p >= p) by (nonlinear_arith)
                    requires
                        c >= 1,
                        p > 0,
                ;
            }
        }
        c = c / 10;
        q = q + 1;
        taken = taken + 1;
    }
    (c, q)
}

/// Appends so many zeros.
fn push_zeros(out: &mut String, count: usize)
    ensures
        final(out)@ == old(out)@ + zeros(count as nat),
{
    let ghost before = out@;
    let mut i: usize = 0;
    while i < count
        invariant
            i <= count,
            out@ == before + zeros(i as nat),
        decreases count - i,
    {
        out.push('0');
        i = i + 1;
    }
}

/// Appends a decimal as it is written, without sign.
pub fn push_written(out: &mut String, coefficient: u64, exponent: i32)
    requires
        -4000 <= exponent <= 4000,
    ensures
        final(out)@ == old(out)@ + written(coefficient as nat, exponent as int),
{
    let mut text = String::new();
    push_digits(&mut text, coefficient);
    proof {
        lemma_digits_shape(coefficient as nat);
        lemma_pow10_values();
        lemma_digits_below(coefficient as nat, 20);
    }
    let d: &str = text.as_str();
    let len: usize = d.unicode_len();
    let first: i32 = len as i32 - 1 + exponent;
    if -5 <= first && first <= 15 {
        if exponent >= 0 {
            out.append(d);
            push_zeros(out, exponent as usize);
            out.push('.');
            out.push('0');
        } else if first >= 0 {
            let cut: usize = (first + 1) as usize;
            out.append(d.substring_char(0, cut));
            out.push('.');
            out.append(d.substring_char(cut, len));
        } else {
            out.push('0');
            out.push('.');
            push_zeros(out, (-first - 1) as usize);
            out.append(d);
        }
    } else {
        if len > 1 {
            out.append(d.substring_char(0, 1));
            out.push('.');
            out.append(d.substring_char(1, len));
        } else {
            out.append(d);
        }
        out.push('e');
        if first < 0 {
            out.push('-');
            push_digits(out, (-first) as u64);
        } else {
            out.push('+');
            push_digits(out, first as u64);
        }
    }
}

/// Appends a double as a JSON number.
pub fn push_json_number(out: &mut String, x: Double)
    ensures
        final(out)@ == old(out)@ + json_number(x),
{
    if !x.is_finite() {
        out.append("null");
        return ;
    }
    if x.is_negative() {
        out.push('-');
    }
    if x.abs_bits() == 0 {
        out.push('0');
        out.push('.');
        out.push('0');
    } else {
        let (c, q) = shortest_decimal(x);
        push_written(out, c, q);
    }
}

/// A double as a JSON number.
pub fn json_number_of(x: Double) -> (text: String)
    ensures
        text@ == json_number(x),
{
    let mut text = String::new();
    push_json_number(&mut text, x);
    text
}

} // verus!
