//! IEEE 754 double-precision numbers, held by their bit patterns.
//!
//! Coordinates and GPS times are stored in COPC files as 64-bit floating-point numbers, and all
//! that selecting points and nodes asks of them is how they compare. A [`Binary64`] holds such a
//! number as the 64 bits it is stored in, and compares two of them the way the standard says:
//! by their exact values, with `NaN` comparing to nothing and the two zeros equal.

use vstd::arithmetic::power2::{
    lemma_pow2_adds, lemma_pow2_pos, lemma_pow2_strictly_increases, pow2,
};
use vstd::prelude::*;

verus! {

/// The bit patterns from here on have the sign bit set.
pub const SIGN: u64 = 0x8000_0000_0000_0000;

/// The magnitude of the infinities; greater magnitudes are `NaN`s.
pub const INFINITY: u64 = 0x7ff0_0000_0000_0000;

/// The number of values that share one exponent.
pub const FRACTIONS: u64 = 0x10_0000_0000_0000;

/// A double-precision number, by its bit pattern.
#[derive(Debug, Clone, Copy)]
pub struct Binary64 {
    /// Sign (1 bit), biased exponent (11 bits), fraction (52 bits).
    pub bits: u64,
}

/// A single-precision number, by its bit pattern.
#[derive(Debug, Clone, Copy)]
pub struct Binary32 {
    /// Sign (1 bit), biased exponent (8 bits), fraction (23 bits).
    pub bits: u32,
}

/// The exact value of a nonnegative number of magnitude `m`, as a multiple of the smallest
/// positive double. Infinity takes the value that the next exponent would begin with, which is
/// greater than that of every finite number.
pub open spec fn magnitude_value(m: nat) -> nat {
    let exponent = m / FRACTIONS as nat;
    let fraction = m % FRACTIONS as nat;
    if exponent == 0 {
        fraction
    } else {
        (FRACTIONS as nat + fraction) * pow2((exponent - 1) as nat)
    }
}

impl Binary64 {
    /// Whether the sign bit is set.
    pub open spec fn negative(self) -> bool {
        self.bits >= SIGN
    }

    /// The bit pattern without its sign bit.
    pub open spec fn magnitude(self) -> nat {
        if self.negative() {
            (self.bits - SIGN) as nat
        } else {
            self.bits as nat
        }
    }

    /// Whether this is no number.
    pub open spec fn nan(self) -> bool {
        self.magnitude() > INFINITY
    }

    /// The exact value, as a multiple of the smallest positive double.
    pub open spec fn value(self) -> int {
        if self.negative() {
            -magnitude_value(self.magnitude())
        } else {
            magnitude_value(self.magnitude()) as int
        }
    }

    /// `self <= other`: both are numbers, and the values are in that order.
    pub open spec fn at_most(self, other: Binary64) -> bool {
        !self.nan() && !other.nan() && self.value() <= other.value()
    }

    /// `self < other`: both are numbers, and the values are in that order.
    pub open spec fn below(self, other: Binary64) -> bool {
        !self.nan() && !other.nan() && self.value() < other.value()
    }

    /// Equal bits, or two `NaN`s: what is left of a number that went through arithmetic, which
    /// does not fix the bits of a `NaN`.
    pub open spec fn same(self, other: Binary64) -> bool {
        self == other || (self.nan() && other.nan())
    }

    /// The number with this bit pattern.
    pub fn from_bits(bits: u64) -> (r: Binary64)
        ensures
            r.bits == bits,
    {
        Binary64 { bits }
    }

    /// Whether this is no number.
    pub fn is_nan(&self) -> (r: bool)
        ensures
            r == self.nan(),
    {
        let m: u64 = if self.bits >= SIGN {
            self.bits - SIGN
        } else {
            self.bits
        };
        m > INFINITY
    }

    /// `self <= other`, as IEEE 754 orders them.
    pub fn le(&self, other: &Binary64) -> (r: bool)
        ensures
            r == self.at_most(*other),
    {
        if self.is_nan() || other.is_nan() {
            return false;
        }
        proof {
            law_value_follows_rank(*self, *other);
            law_value_follows_rank(*other, *self);
        }
        if self.bits >= SIGN {
            if other.bits >= SIGN {
                self.bits >= other.bits
            } else {
                true
            }
        } else if other.bits >= SIGN {
            self.bits == 0 && other.bits == SIGN
        } else {
            self.bits <= other.bits
        }
    }

    /// `self < other`, as IEEE 754 orders them.
    pub fn lt(&self, other: &Binary64) -> (r: bool)
        ensures
            r == self.below(*other),
    {
        !self.is_nan() && !other.is_nan() && !other.le(self)
    }

    /// The magnitude, taken negative where the sign bit is set.
    pub open spec fn rank(self) -> int {
        if self.negative() {
            -self.magnitude()
        } else {
            self.magnitude() as int
        }
    }
}

impl PartialEq for Binary64 {
    /// Equality of values: `NaN` equals nothing, and the two zeros are equal.
    fn eq(&self, other: &Binary64) -> (r: bool) {
        self.le(other) && other.le(self)
    }
}

impl vstd::std_specs::cmp::PartialEqSpecImpl for Binary64 {
    open spec fn obeys_eq_spec() -> bool {
        true
    }

    open spec fn eq_spec(&self, other: &Binary64) -> bool {
        self.at_most(*other) && other.at_most(*self)
    }
}

/// Of two nonnegative numbers, the one with the greater bit pattern is the greater.
pub proof fn lemma_magnitude_value_increases(m: nat, n: nat)
    requires
        m < n,
    ensures
        magnitude_value(m) < magnitude_value(n),
{
    let k = FRACTIONS as nat;
    let (e, f) = (m / k, m % k);
    let (g, h) = (n / k, n % k);
    vstd::arithmetic::div_mod::lemma_fundamental_div_mod(m as int, k as int);
    vstd::arithmetic::div_mod::lemma_fundamental_div_mod(n as int, k as int);
    vstd::arithmetic::div_mod::lemma_div_is_ordered(m as int, n as int, k as int);
    if e == g {
        if e > 0 {
            let p = pow2((e - 1) as nat);
            lemma_pow2_pos((e - 1) as nat);
            assert((k + f) * p < (k + h) * p) by (nonlinear_arith)
                requires
                    f < h,
                    p > 0,
            ;
        }
    } else {
        let q = pow2((g - 1) as nat);
        lemma_pow2_pos((g - 1) as nat);
        assert((k + h) * q >= k * q) by (nonlinear_arith)
            requires
                h >= 0,
                q > 0,
        ;
        if e == 0 {
            assert(k * q >= k) by (nonlinear_arith)
                requires
                    q > 0,
                    k >= 0,
            ;
        } else {
            let p = pow2((e - 1) as nat);
            lemma_pow2_pos((e - 1) as nat);
            lemma_pow2_adds(1, (e - 1) as nat);
            vstd::arithmetic::power2::lemma2_to64();
            if e < g - 1 {
                lemma_pow2_strictly_increases(e, (g - 1) as nat);
            }
            assert(2 * p <= q);
            assert((k + f) * p < k * q) by (nonlinear_arith)
                requires
                    f < k,
                    2 * p <= q,
                    p > 0,
            ;
        }
    }
}

/// The order of two numbers' values is the order of their bit patterns, read as sign and
/// magnitude.
pub proof fn law_value_follows_rank(a: Binary64, b: Binary64)
    ensures
        a.rank() < b.rank() ==> a.value() < b.value(),
        a.rank() == b.rank() ==> a.value() == b.value(),
{
    if a.rank() < b.rank() {
        if a.magnitude() < b.magnitude() {
            lemma_magnitude_value_increases(a.magnitude(), b.magnitude());
        }
        if b.magnitude() < a.magnitude() {
            lemma_magnitude_value_increases(b.magnitude(), a.magnitude());
        }
        if 0 < a.magnitude() {
            lemma_magnitude_value_increases(0, a.magnitude());
        }
        if 0 < b.magnitude() {
            lemma_magnitude_value_increases(0, b.magnitude());
        }
    }
}

} // verus!
