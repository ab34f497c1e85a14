//! IEEE 754 single-precision numbers, held as their bit patterns.
//!
//! The library stores, compares and range-checks such numbers; it does no
//! arithmetic on them. For a number without its sign bit, the bit pattern
//! grows with the number, so both can be decided on the bits.

use vstd::arithmetic::power2::{
    lemma2_to64, lemma2_to64_rest, lemma_pow2_strictly_increases, lemma_pow2_unfold, pow2,
};
use vstd::prelude::*;

verus! {

/// A single-precision number, as the bits that stand for it.
#[derive(Debug, Clone, Copy, PartialEq, Eq, Structural)]
pub struct Single {
    pub bits: u32,
}

/// The bits of positive infinity. Larger patterns, with the sign bit aside,
/// are not numbers.
pub const INFINITY_BITS: u32 = 0x7f80_0000;

/// The bits of negative zero.
pub const NEGATIVE_ZERO_BITS: u32 = 0x8000_0000;

impl Single {
    /// Whether the bits stand for no number at all.
    pub open spec fn is_nan(self) -> bool {
        ||| INFINITY_BITS < self.bits < NEGATIVE_ZERO_BITS
        ||| self.bits > NEGATIVE_ZERO_BITS + INFINITY_BITS
    }

    /// Zero, of either sign.
    pub open spec fn is_zero(self) -> bool {
        self.bits == 0 || self.bits == NEGATIVE_ZERO_BITS
    }

    /// Numeric equality: the two zeroes are equal, and what is not a number
    /// equals nothing.
    pub open spec fn equals(self, other: Single) -> bool {
        !self.is_nan() && !other.is_nan() && (self.bits == other.bits || self.is_zero()
            && other.is_zero())
    }

    /// Whether the number lies between zero and `top`, both included.
    pub open spec fn in_zero_to(self, top: Single) -> bool {
        self.bits <= top.bits || self.bits == NEGATIVE_ZERO_BITS
    }

    /// Numeric equality.
    pub fn same(self, other: Single) -> (r: bool)
        ensures
            r == self.equals(other),
    {
        let nan_a: bool = (INFINITY_BITS < self.bits && self.bits < NEGATIVE_ZERO_BITS)
            || self.bits > NEGATIVE_ZERO_BITS + INFINITY_BITS;
        let nan_b: bool = (INFINITY_BITS < other.bits && other.bits < NEGATIVE_ZERO_BITS)
            || other.bits > NEGATIVE_ZERO_BITS + INFINITY_BITS;
        let zero_a: bool = self.bits == 0 || self.bits == NEGATIVE_ZERO_BITS;
        let zero_b: bool = other.bits == 0 || other.bits == NEGATIVE_ZERO_BITS;
        !nan_a && !nan_b && (self.bits == other.bits || (zero_a && zero_b))
    }

    /// Whether the number lies between zero and `top`, both included. `top`
    /// is a number without a sign.
    pub fn within(self, top: Single) -> (r: bool)
        requires
            top.bits <= INFINITY_BITS,
        ensures
            r == self.in_zero_to(top),
            r ==> !self.is_nan(),
    {
        self.bits <= top.bits || self.bits == NEGATIVE_ZERO_BITS
    }

    /// A number between zero and one in hundredths, to the nearest, halves to
    /// the even one.
    pub open spec fn cents(self) -> nat {
        let e = self.bits as nat / 0x80_0000;
        let m = self.bits as nat % 0x80_0000;
        if e == 0 || self.bits >= NEGATIVE_ZERO_BITS {
            // Zero, or next to nothing.
            0
        } else {
            half_even((0x80_0000 + m) * 100, pow2((150 - e) as nat))
        }
    }

    /// A number between zero and one in hundredths.
    pub fn to_cents(self) -> (r: u64)
        requires
            self.in_zero_to(Single { bits: 0x3f80_0000 }),
        ensures
            r == self.cents(),
            r <= 100,
    {
        let e: u32 = self.bits / 0x80_0000;
        let m: u32 = self.bits % 0x80_0000;
        if e == 0 || self.bits >= NEGATIVE_ZERO_BITS {
            return 0;
        }
        let n: u64 = (0x80_0000 + m as u64) * 100;
        let k: u32 = 150 - e;
        proof {
            lemma2_to64();
            lemma2_to64_rest();
        }
        if k > 40 {
            proof {
                lemma_pow2_strictly_increases(40, k as nat);
                let d = pow2(k as nat) as int;
                assert(n as int / d == 0 && n as int % d == n) by {
                    vstd::arithmetic::div_mod::lemma_basic_div(n as int, d);
                    vstd::arithmetic::div_mod::lemma_small_mod(n as nat, d as nat);
                }
            }
            return 0;
        }
        let d: u64 = power_of_two(k);
        proof {
            if k > 23 {
                lemma_pow2_strictly_increases(23, k as nat);
            }
            // At 23 the mantissa is bare: the number is one.
            assert(k >= 23 && d >= 0x80_0000);
            assert(k == 23 ==> m == 0);
        }
        let q: u64 = n / d;
        let rest: u64 = n % d;
        proof {
            let ni = n as int;
            let di = d as int;
            if k == 23 {
                assert(di == 0x80_0000);
            } else {
                lemma_pow2_unfold(24);
                if k > 24 {
                    lemma_pow2_strictly_increases(24, k as nat);
                }
                assert(ni < 100 * di);
                assert(ni / di < 100) by (nonlinear_arith)
                    requires
                        0 <= ni < 100 * di,
                        di > 0,
                ;
            }
        }
        if 2 * rest > d || (2 * rest == d && q % 2 == 1) {
            q + 1
        } else {
            q
        }
    }
}

/// A quotient rounded to the nearest whole number, halves to the even one.
pub open spec fn half_even(n: nat, d: nat) -> nat {
    let q = n / d;
    let r = n % d;
    if 2 * r > d || (2 * r == d && q % 2 == 1) {
        q + 1
    } else {
        q
    }
}

fn power_of_two(k: u32) -> (d: u64)
    requires
        k <= 40,
    ensures
        d == pow2(k as nat),
        0 < d <= 0x100_0000_0000,
{
    let mut d: u64 = 1;
    let mut j: u32 = 0;
    proof {
        lemma2_to64();
        lemma2_to64_rest();
    }
    while j < k
        invariant
            j <= k <= 40,
            d == pow2(j as nat),
            0 < d <= 0x100_0000_0000,
            pow2(40) == 0x100_0000_0000,
        decreases k - j,
    {
        proof {
            lemma_pow2_unfold((j + 1) as nat);
            if j + 1 < 40 {
                lemma_pow2_strictly_increases((j + 1) as nat, 40);
            }
        }
        d = d * 2;
        j = j + 1;
    }
    d
}

} // verus!
