//! Double-precision numbers as the library holds them: by their bits.
//!
//! A price or an amount is a double. The library carries it through, tells a
//! number from NaN, ranks prices, and writes a number in fixed point. All of
//! that can be read off the IEEE 754 binary64 encoding with integer
//! arithmetic. So a number is held as its encoding, and nothing here depends
//! on the floating point of the machine.

use vstd::prelude::*;
use vstd::arithmetic::power2::{lemma_pow2_pos, lemma_pow2_strictly_increases, pow2};

verus! {

/// Encodings at and above this one have the sign bit set.
pub const SIGN_BIT: u64 = 0x8000_0000_0000_0000;

/// The encoding of positive infinity: every exponent bit set, no fraction bit.
/// With the sign bit cleared, finite numbers lie below it and NaNs above it.
pub const INFINITY_BITS: u64 = 0x7ff0_0000_0000_0000;

/// Two to the power of 52: the weight of the lowest exponent bit. Below it
/// stand the 52 fraction bits.
pub const FRACTION_RANGE: u64 = 0x10_0000_0000_0000;

/// A double-precision number, held as its IEEE 754 binary64 encoding.
#[derive(Clone, Copy, Debug, PartialEq, Eq, Structural)]
pub struct Double {
    pub bits: u64,
}

impl Double {
    /// Whether the sign bit is set.
    pub open spec fn negative(self) -> bool {
        self.bits >= SIGN_BIT
    }

    /// The encoding with the sign bit cleared.
    pub open spec fn magnitude(self) -> int {
        if self.bits >= SIGN_BIT {
            self.bits - SIGN_BIT
        } else {
            self.bits as int
        }
    }

    /// NaN: all exponent bits set and some fraction bit set.
    pub open spec fn nan(self) -> bool {
        self.magnitude() > INFINITY_BITS
    }

    /// Neither NaN nor an infinity.
    pub open spec fn finite(self) -> bool {
        self.magnitude() < INFINITY_BITS
    }

    /// The place of the number in the numeric order: for two numbers that are
    /// not NaN, `a.rank() < b.rank()` exactly when `a` is less than `b`, and
    /// the ranks are equal exactly when the numbers compare equal. Both zeros
    /// have rank 0. `lemma_rank_orders_values` holds the ranks of finite
    /// numbers against their values.
    pub open spec fn rank(self) -> int {
        if self.negative() {
            -self.magnitude()
        } else {
            self.magnitude()
        }
    }

    /// The exponent field of the encoding.
    pub open spec fn biased_exponent(self) -> int {
        self.magnitude() / (FRACTION_RANGE as int)
    }

    /// The fraction field of the encoding.
    pub open spec fn fraction(self) -> int {
        self.magnitude() % (FRACTION_RANGE as int)
    }

    /// The significand of a finite number, as an integer: the absolute value
    /// of the number is `significand` times two to the power of `exponent`.
    /// A normal number has the hidden bit in front of its fraction, a
    /// subnormal one has not.
    pub open spec fn significand(self) -> nat {
        if self.biased_exponent() == 0 {
            self.fraction() as nat
        } else {
            (FRACTION_RANGE + self.fraction()) as nat
        }
    }

    /// The power of two by which the significand of a finite number is
    /// scaled.
    pub open spec fn exponent(self) -> int {
        if self.biased_exponent() == 0 {
            -1074
        } else {
            self.biased_exponent() - 1075
        }
    }

    /// The absolute value of a finite number, counted in units of two to the
    /// power of -1074, the smallest step between two doubles. In that unit
    /// every finite double is a whole number.
    pub open spec fn size(self) -> nat {
        self.significand() * pow2((self.exponent() + 1074) as nat)
    }

    /// The value of a finite number, in the unit of `size`.
    pub open spec fn value(self) -> int {
        if self.negative() {
            -(self.size() as int)
        } else {
            self.size() as int
        }
    }

    /// The number with the given encoding.
    pub fn from_bits(bits: u64) -> (d: Double)
        ensures
            d.bits == bits,
    {
        Double { bits }
    }

    /// The encoding of the number.
    pub fn to_bits(self) -> (bits: u64)
        ensures
            bits == self.bits,
    {
        self.bits
    }

    /// Positive zero.
    pub fn zero() -> (d: Double)
        ensures
            d.bits == 0,
            d.rank() == 0,
            d.finite(),
    {
        Double { bits: 0 }
    }

    /// Tells whether the number is NaN.
    pub fn is_nan(self) -> (b: bool)
        ensures
            b == self.nan(),
    {
        self.abs_bits() > INFINITY_BITS
    }

    /// Tells whether the number is neither NaN nor an infinity.
    pub fn is_finite(self) -> (b: bool)
        ensures
            b == self.finite(),
    {
        self.abs_bits() < INFINITY_BITS
    }

    /// The encoding with the sign bit cleared.
    pub fn abs_bits(self) -> (m: u64)
        ensures
            m == self.magnitude(),
            m < SIGN_BIT,
    {
        if self.bits >= SIGN_BIT {
            self.bits - SIGN_BIT
        } else {
            self.bits
        }
    }

    /// Tells whether the sign bit is set.
    pub fn is_negative(self) -> (b: bool)
        ensures
            b == self.negative(),
    {
        self.bits >= SIGN_BIT
    }

    /// Significand and exponent of a finite number.
    pub fn decompose(self) -> (parts: (u64, i32))
        requires
            self.finite(),
        ensures
            parts.0 == self.significand(),
            parts.1 == self.exponent(),
            parts.0 < 2 * FRACTION_RANGE,
            -1074 <= parts.1 <= 971,
            parts.1 >= 0 ==> parts.0 >= FRACTION_RANGE,
    {
        let magnitude: u64 = self.abs_bits();
        let biased: u64 = magnitude / FRACTION_RANGE;
        let fraction: u64 = magnitude % FRACTION_RANGE;
        if biased == 0 {
            (fraction, -1074)
        } else {
            (FRACTION_RANGE + fraction, biased as i32 - 1075)
        }
    }

    /// The rank of the number, as a machine integer.
    pub fn order_key(self) -> (k: i64)
        ensures
            k == self.rank(),
    {
        let m: u64 = self.abs_bits();
        if self.bits >= SIGN_BIT {
            -(m as i64)
        } else {
            m as i64
        }
    }

    /// Tells whether `self` ranks strictly below `other`.
    pub fn below(self, other: Double) -> (b: bool)
        ensures
            b == (self.rank() < other.rank()),
    {
        self.order_key() < other.order_key()
    }
}

/// The rank of a number lies strictly between the bounds of a signed 64-bit
/// integer, and the ranks of the numbers that are not NaN fill the range
/// from negative to positive infinity.
pub proof fn lemma_rank_bounds(d: Double)
    ensures
        -(SIGN_BIT as int) < d.rank() < SIGN_BIT as int,
        !d.nan() <==> -(INFINITY_BITS as int) <= d.rank() <= INFINITY_BITS as int,
        d.finite() <==> -(INFINITY_BITS as int) < d.rank() < INFINITY_BITS as int,
{
}

/// Among numbers of one sign bit, the encoding grows with the size of the
/// number.
proof fn lemma_magnitude_orders_size(a: Double, b: Double)
    requires
        a.finite(),
        b.finite(),
        a.magnitude() < b.magnitude(),
    ensures
        a.size() < b.size(),
{
    let range = FRACTION_RANGE as int;
    let ea = (a.exponent() + 1074) as nat;
    let eb = (b.exponent() + 1074) as nat;
    let ma = a.significand() as int;
    let mb = b.significand() as int;
    let pa = pow2(ea) as int;
    let pb = pow2(eb) as int;
    lemma_pow2_pos(ea);
    lemma_pow2_pos(eb);
    assert(a.biased_exponent() <= b.biased_exponent()) by (nonlinear_arith)
        requires
            a.magnitude() < b.magnitude(),
            a.biased_exponent() == a.magnitude() / range,
            b.biased_exponent() == b.magnitude() / range,
            range > 0,
    ;
    if a.biased_exponent() == b.biased_exponent() {
        assert(ma * pa < mb * pa) by (nonlinear_arith)
            requires
                ma < mb,
                pa > 0,
        ;
    } else if a.biased_exponent() == 0 {
        // A subnormal number lies below every normal one.
        assert(pow2(0) == 1) by {
            vstd::arithmetic::power2::lemma2_to64();
        }
        assert(ma * pa < mb * pb) by (nonlinear_arith)
            requires
                ma < mb,
                pa == 1,
                pb >= 1,
                ma >= 0,
        ;
    } else {
        // A normal number lies below twice its power of two, and a normal
        // number of a higher exponent at or above that.
        let step = (ea + 1) as nat;
        vstd::arithmetic::power2::lemma_pow2_unfold(step);
        if step < eb {
            lemma_pow2_strictly_increases(step, eb);
        }
        assert(ma * pa < mb * pb) by (nonlinear_arith)
            requires
                0 <= ma < 2 * range,
                mb >= range,
                2 * pa <= pb,
                pa > 0,
                range > 0,
        ;
    }
}

/// Only the zeros have size zero.
proof fn lemma_size_zero(a: Double)
    requires
        a.finite(),
    ensures
        a.size() == 0 <==> a.magnitude() == 0,
{
    let e = (a.exponent() + 1074) as nat;
    let m = a.significand() as int;
    let p = pow2(e) as int;
    lemma_pow2_pos(e);
    assert(m * p == 0 <==> m == 0) by (nonlinear_arith)
        requires
            p > 0,
            m >= 0,
    ;
}

/// The rank orders finite numbers as their values do: one ranks below the
/// other exactly when its value is the smaller, and two rank alike exactly
/// when their values are equal, as those of the two zeros are.
pub proof fn lemma_rank_orders_values(a: Double, b: Double)
    requires
        a.finite(),
        b.finite(),
    ensures
        a.rank() < b.rank() <==> a.value() < b.value(),
        a.rank() == b.rank() <==> a.value() == b.value(),
{
    lemma_size_zero(a);
    lemma_size_zero(b);
    if a.magnitude() < b.magnitude() {
        lemma_magnitude_orders_size(a, b);
    } else if b.magnitude() < a.magnitude() {
        lemma_magnitude_orders_size(b, a);
    }
}

/// The infinities rank beyond every finite number, each on its side.
pub proof fn lemma_rank_of_infinities(a: Double)
    requires
        a.finite(),
    ensures
        a.rank() < (Double { bits: INFINITY_BITS }).rank(),
        (Double { bits: 0xfff0_0000_0000_0000 }).rank() < a.rank(),
{
}

} // verus!
