//! Double-precision numbers by their bit patterns, and the order among them.
use vstd::arithmetic::power2::{lemma_pow2_pos, lemma_pow2_strictly_increases, lemma_pow2_unfold, pow2};
use vstd::prelude::*;

verus! {

/// The sign bit of a pattern.
pub const SIGN_BIT: u64 = 0x8000_0000_0000_0000;

/// The pattern of positive infinity. A pattern whose other 63 bits are above
/// it is a NaN.
pub const INFINITY_BITS: u64 = 0x7ff0_0000_0000_0000;

/// The weight of the leading bit of a normal number's significand, which the
/// pattern leaves out: the fraction field is the 52 bits below it.
pub const HIDDEN_BIT: u64 = 0x0010_0000_0000_0000;

/// An IEEE 754 binary64 number, held by its 64-bit pattern: one sign bit,
/// eleven bits of biased exponent, 52 bits of fraction.
#[derive(Clone, Copy, Debug)]
pub struct Double {
    pub bits: u64,
}

impl Double {
    /// Whether the sign bit is set. It may be set on a zero and on a NaN.
    pub open spec fn sign_negative(self) -> bool {
        self.bits >= SIGN_BIT
    }

    /// The pattern without its sign bit.
    pub open spec fn magnitude(self) -> nat {
        if self.bits >= SIGN_BIT {
            (self.bits - SIGN_BIT) as nat
        } else {
            self.bits as nat
        }
    }

    /// The biased exponent field, from 0 to 2047.
    pub open spec fn exponent(self) -> nat {
        self.magnitude() / (HIDDEN_BIT as nat)
    }

    /// The fraction field, below `HIDDEN_BIT`.
    pub open spec fn fraction(self) -> nat {
        self.magnitude() % (HIDDEN_BIT as nat)
    }

    /// Whether the pattern is a NaN: all exponent bits set and a fraction
    /// that is not zero.
    pub open spec fn is_nan(self) -> bool {
        self.magnitude() > INFINITY_BITS
    }

    /// The absolute value of the number, multiplied by 2^1074 so that it is
    /// an integer. A subnormal number is its fraction times 2^-1074; a normal
    /// one is its significand, hidden bit included, times 2^(exponent - 1075).
    /// An infinity reads as the next power of two above every finite number.
    /// The reading of a NaN has no meaning.
    pub open spec fn scaled_magnitude(self) -> int {
        if self.exponent() == 0 {
            self.fraction() as int
        } else {
            (HIDDEN_BIT + self.fraction()) * pow2((self.exponent() - 1) as nat)
        }
    }

    /// The number, multiplied by 2^1074. Both zeros read as 0.
    pub open spec fn scaled(self) -> int {
        if self.sign_negative() {
            -self.scaled_magnitude()
        } else {
            self.scaled_magnitude()
        }
    }

    /// The order in which numbers are sorted: the smaller number comes first,
    /// and every number comes before every NaN. Of two equal numbers neither
    /// precedes the other, nor does either of the two zeros, nor either of
    /// two NaNs.
    pub open spec fn spec_precedes(self, other: Double) -> bool {
        !self.is_nan() && (other.is_nan() || self.scaled() < other.scaled())
    }

    /// The number with the given pattern.
    pub fn from_bits(bits: u64) -> (r: Double)
        ensures
            r.bits == bits,
    {
        Double { bits }
    }

    /// The pattern of the number.
    pub fn to_bits(self) -> (r: u64)
        ensures
            r == self.bits,
    {
        self.bits
    }

    /// The pattern without its sign bit.
    fn magnitude_bits(self) -> (r: u64)
        ensures
            r == self.magnitude(),
    {
        if self.bits >= SIGN_BIT {
            self.bits - SIGN_BIT
        } else {
            self.bits
        }
    }

    /// Whether `self` comes before `other` when numbers are sorted.
    #[verifier::when_used_as_spec(spec_precedes)]
    pub fn precedes(self, other: Double) -> (r: bool)
        ensures
            r == self.spec_precedes(other),
    {
        let mine: u64 = self.magnitude_bits();
        let theirs: u64 = other.magnitude_bits();
        proof {
            lemma_magnitude_order(self, other);
            lemma_magnitude_zero(self);
            lemma_magnitude_zero(other);
        }
        if mine > INFINITY_BITS {
            false
        } else if theirs > INFINITY_BITS {
            true
        } else if self.bits >= SIGN_BIT {
            if other.bits >= SIGN_BIT {
                theirs < mine
            } else {
                mine != 0 || theirs != 0
            }
        } else {
            other.bits < SIGN_BIT && mine < theirs
        }
    }
}

/// Without the sign bit, the larger pattern is the larger absolute value:
/// the patterns of the non-negative numbers stand in the order of the
/// numbers.
pub proof fn lemma_magnitude_order(a: Double, b: Double)
    ensures
        a.magnitude() < b.magnitude() <==> a.scaled_magnitude() < b.scaled_magnitude(),
        a.magnitude() == b.magnitude() <==> a.scaled_magnitude() == b.scaled_magnitude(),
{
    if a.magnitude() < b.magnitude() {
        lemma_magnitude_increases(a, b);
    } else if b.magnitude() < a.magnitude() {
        lemma_magnitude_increases(b, a);
    }
}

/// The step from a pattern to a larger one, within a binade or across
/// binades, is a step to a larger absolute value.
proof fn lemma_magnitude_increases(a: Double, b: Double)
    requires
        a.magnitude() < b.magnitude(),
    ensures
        a.scaled_magnitude() < b.scaled_magnitude(),
{
    let h = HIDDEN_BIT as int;
    let (ea, fa) = (a.exponent() as int, a.fraction() as int);
    let (eb, fb) = (b.exponent() as int, b.fraction() as int);
    assert(ea < eb || (ea == eb && fa < fb));
    if eb > 0 {
        let pb = pow2((eb - 1) as nat) as int;
        lemma_pow2_pos((eb - 1) as nat);
        if ea == eb {
            assert((h + fa) * pb < (h + fb) * pb) by (nonlinear_arith)
                requires
                    fa < fb,
                    pb > 0,
            ;
        } else if ea == 0 {
            assert(h * 1 <= (h + fb) * pb) by (nonlinear_arith)
                requires
                    fb >= 0,
                    pb >= 1,
                    h > 0,
            ;
        } else {
            let pa = pow2((ea - 1) as nat) as int;
            lemma_pow2_pos((ea - 1) as nat);
            lemma_pow2_unfold(ea as nat);
            if ea < eb - 1 {
                lemma_pow2_strictly_increases(ea as nat, (eb - 1) as nat);
            }
            assert((h + fa) * pa < (h + fb) * pb) by (nonlinear_arith)
                requires
                    0 <= fa < h,
                    0 <= fb,
                    pa > 0,
                    2 * pa <= pb,
            ;
        }
    }
}

/// Only the two zeros have the absolute value zero.
pub proof fn lemma_magnitude_zero(a: Double)
    ensures
        a.scaled_magnitude() >= 0,
        a.scaled_magnitude() == 0 <==> a.magnitude() == 0,
{
    let zero = Double { bits: 0 };
    assert(zero.scaled_magnitude() == 0);
    lemma_magnitude_order(zero, a);
}

} // verus!
