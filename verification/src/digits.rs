//! Whole numbers of any size, in decimal.
//!
//! A double can stand for a whole number of more than three hundred digits,
//! and a decimal text can have any number of them. Where a number may not
//! fit a machine integer it is held as its decimal digits, the lowest first.

use vstd::prelude::*;
use crate::rounding::nearest;
use crate::text::{digits, hex_digit_of};

verus! {

/// Ten to the power of `n`.
pub open spec fn pow10(n: nat) -> nat
    decreases n,
{
    if n == 0 {
        1
    } else {
        10 * pow10((n - 1) as nat)
    }
}

/// Five to the power of `n`.
pub open spec fn pow5(n: nat) -> nat
    decreases n,
{
    if n == 0 {
        1
    } else {
        5 * pow5((n - 1) as nat)
    }
}

/// Whether each of `ds` is a decimal digit.
pub open spec fn are_digits(ds: Seq<u8>) -> bool {
    forall|i: int| 0 <= i < ds.len() ==> ds[i] < 10
}

/// The number whose decimal digits are `ds`, the lowest first.
pub open spec fn value(ds: Seq<u8>) -> nat
    decreases ds.len(),
{
    if ds.len() == 0 {
        0
    } else {
        value(ds.drop_last()) + ds.last() as nat * pow10((ds.len() - 1) as nat)
    }
}

/// Whether `ds` are the decimal digits of a positive number, with no zero
/// in front: each is a digit, and the highest is not zero.
pub open spec fn canonical(ds: Seq<u8>) -> bool {
    &&& ds.len() >= 1
    &&& are_digits(ds)
    &&& ds.last() != 0
}

/// The number whose digits are those of `ds` from `from` upwards: the number
/// of `ds` without its `from` lowest digits.
pub open spec fn upper(ds: Seq<u8>, from: int) -> nat
    decreases ds.len() - from,
{
    if from >= ds.len() || from < 0 {
        0
    } else {
        upper(ds, from + 1) * 10 + ds[from] as nat
    }
}

/// A power of ten is positive.
pub proof fn lemma_pow10_positive(n: nat)
    ensures
        pow10(n) > 0,
    decreases n,
{
    if n > 0 {
        lemma_pow10_positive((n - 1) as nat);
    }
}

/// Powers of ten multiply by adding their exponents.
pub proof fn lemma_pow10_adds(a: nat, b: nat)
    ensures
        pow10(a + b) == pow10(a) * pow10(b),
    decreases b,
{
    if b == 0 {
        assert(pow10(a) * 1 == pow10(a));
    } else {
        lemma_pow10_adds(a, (b - 1) as nat);
        let x = pow10(a);
        let y = pow10((b - 1) as nat);
        assert(10 * (x * y) == x * (10 * y)) by (nonlinear_arith);
    }
}

/// Powers of five multiply by adding their exponents.
pub proof fn lemma_pow5_adds(a: nat, b: nat)
    ensures
        pow5(a + b) == pow5(a) * pow5(b),
    decreases b,
{
    if b == 0 {
        assert(pow5(a) * 1 == pow5(a));
    } else {
        lemma_pow5_adds(a, (b - 1) as nat);
        let x = pow5(a);
        let y = pow5((b - 1) as nat);
        assert(5 * (x * y) == x * (5 * y)) by (nonlinear_arith);
    }
}

/// Ten is two times five, to every power.
pub proof fn lemma_pow10_is_pow2_pow5(n: nat)
    ensures
        pow10(n) == vstd::arithmetic::power2::pow2(n) * pow5(n),
    decreases n,
{
    vstd::arithmetic::power2::lemma2_to64();
    if n == 0 {
        let one = vstd::arithmetic::power2::pow2(0);
        let other = pow5(0);
        assert(one * other == 1) by (nonlinear_arith)
            requires
                one == 1,
                other == 1,
        ;
    } else {
        let less = (n - 1) as nat;
        lemma_pow10_is_pow2_pow5(less);
        vstd::arithmetic::power2::lemma_pow2_unfold(n);
        let a = vstd::arithmetic::power2::pow2(less);
        let b = pow5(less);
        assert(10 * (a * b) == (2 * a) * (5 * b)) by (nonlinear_arith);
    }
}

/// A number is its lower digits and, scaled, its upper ones.
pub proof fn lemma_value_split(ds: Seq<u8>, from: int)
    requires
        0 <= from <= ds.len(),
    ensures
        value(ds) == value(ds.take(from)) + pow10(from as nat) * upper(ds, from),
    decreases ds.len() - from,
{
    if from == ds.len() {
        assert(ds.take(from) =~= ds);
        assert(upper(ds, from) == 0);
    } else {
        lemma_value_split(ds, from + 1);
        let longer = ds.take(from + 1);
        assert(longer.drop_last() =~= ds.take(from));
        let p = pow10(from as nat);
        let u = upper(ds, from + 1);
        let x = ds[from] as nat;
        assert(x * p + (10 * p) * u == p * (u * 10 + x)) by (nonlinear_arith);
    }
}

/// A number of so many digits lies below the power of ten with that
/// exponent.
pub proof fn lemma_value_below(ds: Seq<u8>)
    requires
        are_digits(ds),
    ensures
        value(ds) < pow10(ds.len()),
    decreases ds.len(),
{
    if ds.len() > 0 {
        let front = ds.drop_last();
        lemma_value_below(front);
        let p = pow10(front.len());
        let x = ds.last() as nat;
        assert(x * p + p <= 10 * p) by (nonlinear_arith)
            requires
                x <= 9,
        ;
    }
}

/// The upper digits of a number are its quotient by a power of ten, the
/// lower ones the remainder.
pub proof fn lemma_upper_is_quotient(ds: Seq<u8>, from: int)
    requires
        are_digits(ds),
        0 <= from <= ds.len(),
    ensures
        upper(ds, from) == value(ds) / pow10(from as nat),
        value(ds.take(from)) == value(ds) % pow10(from as nat),
{
    let p = pow10(from as nat);
    let low = value(ds.take(from));
    let high = upper(ds, from);
    lemma_value_split(ds, from);
    lemma_value_below(ds.take(from));
    lemma_pow10_positive(from as nat);
    vstd::arithmetic::div_mod::lemma_fundamental_div_mod_converse(
        value(ds) as int,
        p as int,
        high as int,
        low as int,
    );
}

/// The upper digits of a number without zero in front make up a number of
/// as many digits as they are.
pub proof fn lemma_upper_bounds(ds: Seq<u8>, from: int)
    requires
        are_digits(ds),
        0 <= from <= ds.len(),
    ensures
        upper(ds, from) < pow10((ds.len() - from) as nat),
        from < ds.len() && ds.last() != 0 ==> upper(ds, from) >= pow10((ds.len() - from - 1) as nat),
    decreases ds.len() - from,
{
    if from < ds.len() {
        lemma_upper_bounds(ds, from + 1);
    }
}

/// The whole part of a number of digits `ds` of which `places` stand behind
/// the point.
pub open spec fn whole(ds: Seq<u8>, places: nat) -> nat {
    value(ds) / pow10(places)
}

/// A number whose digits are all zero is zero, and no other.
pub proof fn lemma_value_zero(ds: Seq<u8>)
    requires
        are_digits(ds),
    ensures
        value(ds) == 0 <==> forall|i: int| 0 <= i < ds.len() ==> ds[i] == 0,
    decreases ds.len(),
{
    if ds.len() > 0 {
        let front = ds.drop_last();
        lemma_value_zero(front);
        let p = pow10(front.len());
        lemma_pow10_positive(front.len());
        let x = ds.last() as nat;
        assert(x * p == 0 <==> x == 0) by (nonlinear_arith)
            requires
                p > 0,
        ;
        if value(ds) == 0 {
            assert forall|i: int| 0 <= i < ds.len() implies ds[i] == 0 by {
                if i < front.len() {
                    assert(front[i] == ds[i]);
                }
            }
        }
    }
}

/// A number without zero in front whose whole part lies below a power of
/// ten has no more digits before the point than that power has zeros.
pub proof fn lemma_whole_digits(ds: Seq<u8>, places: nat, count: nat)
    requires
        canonical(ds),
        whole(ds, places) < pow10(count),
    ensures
        ds.len() <= places + count,
{
    if ds.len() > places + count {
        lemma_upper_is_quotient(ds, places as int);
        lemma_upper_bounds(ds, places as int);
        lemma_pow10_grows(count, (ds.len() - places - 1) as nat);
    }
}

/// The whole part of a number, where it has at most eighteen digits.
pub fn whole_of(ds: &Vec<u8>, places: u128) -> (q: u64)
    requires
        canonical(ds@),
        ds.len() <= places + 18,
    ensures
        q == whole(ds@, places as nat),
        q < 1_000_000_000_000_000_000,
{
    let len: u128 = ds.len() as u128;
    proof {
        lemma_pow10_positive(places as nat);
    }
    if places >= len {
        proof {
            lemma_value_below(ds@);
            lemma_pow10_grows(ds@.len(), places as nat);
            vstd::arithmetic::div_mod::lemma_basic_div(
                value(ds@) as int,
                pow10(places as nat) as int,
            );
        }
        return 0;
    }
    let from: usize = places as usize;
    proof {
        lemma_upper_is_quotient(ds@, from as int);
    }
    upper_of(ds, from)
}

/// Rounds a number of digits `ds`, of which `places` stand behind the
/// point, to the nearest whole number, and to the even one of two that are
/// equally near. The number has at most seventeen digits before the point.
pub fn rounded_quotient(ds: &Vec<u8>, places: u128) -> (q: u64)
    requires
        canonical(ds@),
        ds.len() <= places + 17,
    ensures
        q == nearest(value(ds@), pow10(places as nat)),
        whole(ds@, places as nat) <= q <= whole(ds@, places as nat) + 1,
        q <= 100_000_000_000_000_000,
{
    let q: u64 = whole_of(ds, places);
    let ghost v = value(ds@);
    let ghost p = pow10(places as nat);
    proof {
        lemma_pow10_positive(places as nat);
        lemma_pow10_values();
        if places < ds.len() {
            lemma_upper_is_quotient(ds@, places as int);
            lemma_upper_bounds(ds@, places as int);
            lemma_pow10_grows((ds.len() - places) as nat, 17);
        } else {
            lemma_value_below(ds@);
            lemma_pow10_grows(ds@.len(), places as nat);
            vstd::arithmetic::div_mod::lemma_basic_div(v as int, p as int);
        }
    }
    if places == 0 {
        return q;
    }
    let len: u128 = ds.len() as u128;
    if places > len {
        proof {
            // The number lies below a tenth.
            lemma_value_below(ds@);
            lemma_pow10_grows(ds@.len(), (places - 1) as nat);
            let tenth = pow10((places - 1) as nat);
            vstd::arithmetic::div_mod::lemma_small_mod(v, p);
        }
        return q;
    }
    let f: usize = places as usize;
    let top: u8 = ds[f - 1];
    let mut nonzero = false;
    let mut i: usize = 0;
    while i < f - 1
        invariant
            i <= f - 1,
            f <= ds.len(),
            nonzero <==> exists|j: int| 0 <= j < i && ds[j] != 0,
        decreases f - 1 - i,
    {
        if ds[i] != 0 {
            nonzero = true;
        }
        i = i + 1;
    }
    proof {
        let low = ds@.take(f as int);
        let rest = low.drop_last();
        let tenth = pow10((f - 1) as nat);
        lemma_upper_is_quotient(ds@, f as int);
        lemma_value_below(rest);
        lemma_value_zero(rest);
        assert(nonzero <==> value(rest) != 0) by {
            if nonzero {
                let j = choose|j: int| 0 <= j < f - 1 && ds[j] != 0;
                assert(rest[j] == ds[j]);
            }
        }
        let t = top as nat;
        assert(t * tenth >= 6 * tenth <==> t >= 6) by (nonlinear_arith)
            requires
                tenth > 0,
        ;
        assert(t * tenth <= 4 * tenth <==> t <= 4) by (nonlinear_arith)
            requires
                tenth > 0,
        ;
        assert(t == 5 ==> t * tenth == 5 * tenth);
    }
    if top > 5 || (top == 5 && (nonzero || q % 2 == 1)) {
        q + 1
    } else {
        q
    }
}

/// A number has as many digits in decimal as it is held by.
pub proof fn lemma_digits_count(ds: Seq<u8>)
    requires
        canonical(ds),
    ensures
        digits(value(ds)).len() == ds.len(),
{
    lemma_upper_digits(ds, 0);
    lemma_upper_is_quotient(ds, 0);
    let one = pow10(0);
    let v = value(ds);
    assert(v / one == v) by (nonlinear_arith)
        requires
            one == 1,
    ;
}

/// The upper digits of a number make up a number of as many digits.
proof fn lemma_upper_digits(ds: Seq<u8>, from: int)
    requires
        canonical(ds),
        0 <= from < ds.len(),
    ensures
        digits(upper(ds, from)).len() == ds.len() - from,
        upper(ds, from) >= 1,
    decreases ds.len() - from,
{
    if from + 1 < ds.len() {
        lemma_upper_digits(ds, from + 1);
    } else {
        assert(upper(ds, from + 1) == 0);
    }
}

/// The decimal digits of a positive number, the lowest first.
pub fn digits_of(m: u64) -> (ds: Vec<u8>)
    requires
        m > 0,
    ensures
        canonical(ds@),
        value(ds@) == m,
{
    let mut ds: Vec<u8> = Vec::new();
    let mut n: u64 = m;
    proof {
        let one = pow10(0);
        assert(n * one == n) by (nonlinear_arith)
            requires
                one == 1,
        ;
    }
    while n > 0
        invariant
            value(ds@) + n * pow10(ds.len() as nat) == m,
            are_digits(ds@),
            n == 0 ==> ds.len() >= 1 && ds@.last() != 0,
            m > 0,
        decreases n,
    {
        let ghost before = ds@;
        let ghost p = pow10(before.len() as nat);
        let low: u8 = (n % 10) as u8;
        let rest: u64 = n / 10;
        ds.push(low);
        proof {
            assert(ds@.drop_last() =~= before);
            assert(low as nat * p + rest * (10 * p) == n * p) by (nonlinear_arith)
                requires
                    n == rest * 10 + low,
            ;
        }
        n = rest;
    }
    ds
}

/// The largest factor that `times` takes.
pub const LARGEST_FACTOR: u32 = 0x400_0000;

/// The digits of a number times a factor.
pub fn times(ds: &Vec<u8>, factor: u32) -> (product: Vec<u8>)
    requires
        are_digits(ds@),
        1 <= factor <= LARGEST_FACTOR,
    ensures
        are_digits(product@),
        value(product@) == factor * value(ds@),
        canonical(ds@) ==> canonical(product@),
        ds.len() <= product.len(),
{
    let mut product: Vec<u8> = Vec::new();
    let mut carry: u64 = 0;
    let mut i: usize = 0;
    proof {
        assert(factor * 0 == 0);
    }
    while i < ds.len()
        invariant
            i <= ds.len(),
            product.len() == i,
            carry <= factor,
            1 <= factor <= LARGEST_FACTOR,
            are_digits(ds@),
            are_digits(product@),
            value(product@) + carry * pow10(i as nat) == factor * value(ds@.take(i as int)),
            i > 0 && carry == 0 && ds[i - 1] != 0 ==> product@.last() != 0,
        decreases ds.len() - i,
    {
        let ghost before = product@;
        let ghost p = pow10(i as nat);
        let ghost done = value(ds@.take(i as int));
        let old_carry = carry;
        let digit: u64 = ds[i] as u64;
        let scale: u64 = factor as u64;
        assert(digit * scale <= 9 * scale) by (nonlinear_arith)
            requires
                digit <= 9,
        ;
        assert(digit != 0 ==> digit * scale >= 1) by (nonlinear_arith)
            requires
                scale >= 1,
        ;
        let sum: u64 = digit * scale + carry;
        let low: u8 = (sum % 10) as u8;
        carry = sum / 10;
        product.push(low);
        proof {
            assert(product@.drop_last() =~= before);
            assert(ds@.take(i + 1).drop_last() =~= ds@.take(i as int));
            let x = ds[i as int] as nat;
            assert(factor * x == digit * scale) by (nonlinear_arith)
                requires
                    x == digit,
                    scale == factor,
            ;
            assert(low as nat * p + carry as nat * (10 * p) + factor * done == old_carry as nat * p
                + factor * (done + x * p)) by (nonlinear_arith)
                requires
                    low as nat + 10 * carry as nat == factor * x + old_carry as nat,
            ;
        }
        i = i + 1;
    }
    proof {
        assert(ds@.take(ds.len() as int) =~= ds@);
    }
    let ghost whole = factor * value(ds@);
    while carry > 0
        invariant
            are_digits(product@),
            ds.len() <= product.len(),
            value(product@) + carry * pow10(product.len() as nat) == whole,
            carry == 0 && ds.len() > 0 && ds@.last() != 0 ==> product@.last() != 0,
        decreases carry,
    {
        let ghost before = product@;
        let ghost p = pow10(before.len());
        let low: u8 = (carry % 10) as u8;
        let rest: u64 = carry / 10;
        product.push(low);
        proof {
            assert(product@.drop_last() =~= before);
            assert(low as nat * p + rest * (10 * p) == carry * p) by (nonlinear_arith)
                requires
                    carry == rest * 10 + low,
            ;
        }
        carry = rest;
    }
    product
}

/// The upper digits of a number as a machine integer, where they are at
/// most eighteen.
pub fn upper_of(ds: &Vec<u8>, from: usize) -> (u: u64)
    requires
        are_digits(ds@),
        ds.len() <= from + 18,
    ensures
        u == upper(ds@, from as int),
        u < 1_000_000_000_000_000_000,
{
    if ds.len() <= from {
        return 0;
    }
    let mut i: usize = ds.len();
    let mut u: u64 = 0;
    proof {
        lemma_pow10_values();
    }
    while i > from
        invariant
            from <= i <= ds.len() <= from + 18,
            are_digits(ds@),
            u == upper(ds@, i as int),
            pow10(18) == 1_000_000_000_000_000_000,
        decreases i,
    {
        i = i - 1;
        proof {
            lemma_upper_bounds(ds@, i as int);
            lemma_upper_bounds(ds@, i + 1);
            lemma_pow10_grows((ds.len() - i) as nat, 18);
            lemma_pow10_grows((ds.len() - i - 1) as nat, 18);
        }
        u = u * 10 + ds[i] as u64;
    }
    proof {
        lemma_upper_bounds(ds@, from as int);
        lemma_pow10_grows((ds.len() - from) as nat, 18);
    }
    u
}

/// Powers of ten grow with their exponents.
pub proof fn lemma_pow10_grows(a: nat, b: nat)
    requires
        a <= b,
    ensures
        pow10(a) <= pow10(b),
    decreases b,
{
    if a < b {
        lemma_pow10_grows(a, (b - 1) as nat);
    }
}

/// The powers of ten around the largest significand of a double.
pub proof fn lemma_pow10_values()
    ensures
        pow10(0) == 1,
        pow10(1) == 10,
        pow10(15) == 1_000_000_000_000_000,
        pow10(16) == 10_000_000_000_000_000,
        pow10(17) == 100_000_000_000_000_000,
        pow10(18) == 1_000_000_000_000_000_000,
        pow10(19) == 10_000_000_000_000_000_000,
        pow10(20) == 100_000_000_000_000_000_000,
{
    reveal_with_fuel(pow10, 21);
}

/// Appends a number, given by its digits with the lowest first, in decimal.
pub fn push_number(out: &mut String, ds: &Vec<u8>)
    requires
        canonical(ds@),
    ensures
        final(out)@ == old(out)@ + digits(value(ds@)),
{
    let ghost before = out@;
    let mut i: usize = ds.len() - 1;
    out.push(hex_digit_of(ds[i] as u32));
    proof {
        assert(upper(ds@, i + 1) == 0);
    }
    while i > 0
        invariant
            i < ds.len(),
            canonical(ds@),
            upper(ds@, i as int) >= 1,
            out@ == before + digits(upper(ds@, i as int)),
        decreases i,
    {
        i = i - 1;
        out.push(hex_digit_of(ds[i] as u32));
    }
    proof {
        lemma_value_split(ds@, 0);
        let one = pow10(0);
        let all = upper(ds@, 0);
        assert(one * all == all) by (nonlinear_arith)
            requires
                one == 1,
        ;
    }
}

} // verus!
