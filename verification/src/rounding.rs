//! Rounding a quotient to the nearest whole number.
//!
//! Wherever a number has more digits than are kept, it goes to the nearest
//! number that can be kept, and to the even one of two that are equally
//! near. This is that rule, for the quotient of two whole numbers.

use vstd::prelude::*;

verus! {

/// The quotient of `n` by `d`, rounded to the nearest integer, and to the
/// even one of the two where it lies halfway between them.
pub open spec fn nearest(n: nat, d: nat) -> nat {
    let q = n / d;
    let r = n % d;
    if 2 * r > d || (2 * r == d && q % 2 == 1) {
        q + 1
    } else {
        q
    }
}

/// Rounding is off by half a unit at most.
pub proof fn lemma_nearest_is_near(n: nat, d: nat)
    requires
        d > 0,
    ensures
        -(d as int) <= 2 * (n - nearest(n, d) * d) <= d,
{
    vstd::arithmetic::div_mod::lemma_fundamental_div_mod(n as int, d as int);
    vstd::arithmetic::div_mod::lemma_mod_bound(n as int, d as int);
    let q = (n / d) as int;
    assert((q + 1) * d == q * d + d) by (nonlinear_arith);
    assert(d * q == q * d) by (nonlinear_arith);
}

/// A common factor of both numbers does not change the rounded quotient.
pub proof fn lemma_nearest_scales(n: nat, d: nat, c: nat)
    requires
        d > 0,
        c > 0,
    ensures
        nearest(n * c, d * c) == nearest(n, d),
{
    let r = (n % d) as int;
    vstd::arithmetic::div_mod::lemma_div_multiples_vanish_quotient(c as int, n as int, d as int);
    vstd::arithmetic::div_mod::lemma_truncate_middle(n as int, c as int, d as int);
    assert(2 * (c * r) > c * d <==> 2 * r > d) by (nonlinear_arith)
        requires
            c > 0,
    ;
    assert(2 * (c * r) == c * d <==> 2 * r == d) by (nonlinear_arith)
        requires
            c > 0,
    ;
}

} // verus!
