//! The one tunable parameter of the distance field: its spread radius.
//!
//! The radius is a single-precision number. It is held here by its IEEE 754
//! bit pattern and read as the exact fraction that the pattern denotes, a
//! whole numerator over a power of two, so that every comparison with it is
//! exact integer arithmetic.
use vstd::arithmetic::div_mod::lemma_fundamental_div_mod_converse;
use vstd::arithmetic::power2::lemma2_to64;
use vstd::arithmetic::power2::lemma_pow2_pos;
use vstd::arithmetic::power2::lemma_pow2_strictly_increases;
use vstd::arithmetic::power2::lemma_pow2_unfold;
use vstd::arithmetic::power2::pow2;
use vstd::prelude::*;

verus! {

/// The bit pattern of 2^32, the least radius that no canvas can pad.
pub const RADIUS_LIMIT_BITS: u32 = 0x4F80_0000;

/// The bit pattern of positive infinity; every pattern above it has the sign
/// set or is not a number.
pub const INFINITY_BITS: u32 = 0x7F80_0000;

/// Settings for how the signed distance field calculation should work for a font.
#[derive(Clone, Copy, Debug, PartialEq, Eq, Structural)]
pub struct SdfSettings {
    /// The spread radius in pixels, as the bit pattern of a single-precision
    /// number.
    ///
    /// The radius is the length of the distance field. It limits the size of
    /// effects such as outlines, glow and shadows: a higher radius allows
    /// larger outlines and takes more memory.
    pub radius_bits: u32,
}

/// A radius as a fraction: `num / 2^log_den`.
#[derive(Clone, Copy, Debug, PartialEq, Eq, Structural)]
pub struct RadiusParts {
    pub num: u64,
    pub log_den: u32,
}

impl SdfSettings {
    /// The eight exponent bits of the pattern.
    pub open spec fn exponent_field(&self) -> nat {
        ((self.radius_bits / 0x80_0000) % 0x100) as nat
    }

    /// The twenty-three fraction bits of the pattern.
    pub open spec fn fraction_field(&self) -> nat {
        (self.radius_bits % 0x80_0000) as nat
    }

    /// The radius is greater than zero and is a number (infinity counts).
    pub open spec fn is_valid(&self) -> bool {
        0 < self.radius_bits <= INFINITY_BITS
    }

    /// The radius is greater than zero and below 2^32.
    pub open spec fn is_bounded(&self) -> bool {
        0 < self.radius_bits < RADIUS_LIMIT_BITS
    }

    /// The significand: the fraction bits, with the hidden leading bit unless
    /// the number is subnormal.
    pub open spec fn mantissa(&self) -> nat {
        if self.exponent_field() == 0 {
            self.fraction_field()
        } else {
            self.fraction_field() + 0x80_0000
        }
    }

    /// The binary logarithm of the denominator of the radius.
    pub open spec fn log_den(&self) -> nat {
        if self.exponent_field() == 0 {
            149
        } else if self.exponent_field() < 150 {
            (150 - self.exponent_field()) as nat
        } else {
            0
        }
    }

    /// The numerator of the radius.
    pub open spec fn radius_num(&self) -> nat {
        if self.exponent_field() > 150 {
            self.mantissa() * pow2((self.exponent_field() - 150) as nat)
        } else {
            self.mantissa()
        }
    }

    /// The denominator of the radius, a power of two.
    pub open spec fn radius_den(&self) -> nat {
        pow2(self.log_den())
    }

    /// The radius rounded up to whole pixels, and no more than `u32::MAX`.
    pub open spec fn padding_spec(&self) -> nat {
        if self.is_bounded() {
            ((self.radius_num() + self.radius_den() - 1) / (self.radius_den() as int)) as nat
        } else {
            u32::MAX as nat
        }
    }

    /// Whether the radius is greater than zero and is a number.
    pub fn check(&self) -> (valid: bool)
        ensures
            valid == self.is_valid(),
    {
        0 < self.radius_bits && self.radius_bits <= INFINITY_BITS
    }

    /// The radius as a fraction.
    pub fn parts(&self) -> (parts: RadiusParts)
        requires
            self.is_bounded(),
        ensures
            parts.num == self.radius_num(),
            parts.log_den == self.log_den(),
            0 < parts.num < 0x1_0000_0000,
            parts.log_den <= 149,
            parts.log_den > 0 ==> parts.num < 0x100_0000,
    {
        let exponent: u32 = self.radius_bits / 0x80_0000 % 0x100;
        let fraction: u32 = self.radius_bits % 0x80_0000;
        if exponent == 0 {
            RadiusParts { num: fraction as u64, log_den: 149 }
        } else if exponent <= 150 {
            RadiusParts { num: fraction as u64 + 0x80_0000, log_den: 150 - exponent }
        } else {
            let scale: u64 = power_of_two(exponent - 150);
            proof {
                lemma2_to64();
                if exponent < 158 {
                    lemma_pow2_strictly_increases((exponent - 150) as nat, 8);
                }
                lemma_pow2_pos((exponent - 150) as nat);
                assert((fraction + 0x80_0000) * scale < 0x100_0000 * 0x100) by (nonlinear_arith)
                    requires
                        0 <= fraction < 0x80_0000,
                        0 < scale <= 0x100,
                ;
                assert((fraction + 0x80_0000) * scale > 0) by (nonlinear_arith)
                    requires
                        0 <= fraction,
                        0 < scale,
                ;
            }
            RadiusParts { num: (fraction as u64 + 0x80_0000) * scale, log_den: 0 }
        }
    }

    /// The number of pixels by which the distance field is larger than the
    /// coverage bitmap on every side: the radius rounded up.
    pub fn padding(&self) -> (padding: u32)
        requires
            self.is_valid(),
        ensures
            padding == self.padding_spec(),
    {
        if self.radius_bits >= RADIUS_LIMIT_BITS {
            return u32::MAX;
        }
        let parts = self.parts();
        if parts.log_den >= 24 {
            proof {
                lemma2_to64();
                if parts.log_den > 24 {
                    lemma_pow2_strictly_increases(24, parts.log_den as nat);
                }
                let den = self.radius_den() as int;
                lemma_fundamental_div_mod_converse(parts.num + den - 1, den, 1, parts.num - 1);
            }
            1
        } else {
            let den: u64 = power_of_two(parts.log_den);
            proof {
                lemma2_to64();
                if parts.log_den < 23 {
                    lemma_pow2_strictly_increases(parts.log_den as nat, 23);
                }
                lemma_ceil_bound(parts.num as int, den as int);
            }
            ((parts.num + den - 1) / den) as u32
        }
    }
}

/// Two to the power `exponent`.
pub fn power_of_two(exponent: u32) -> (power: u64)
    requires
        exponent < 64,
    ensures
        power == pow2(exponent as nat),
{
    let mut power: u64 = 1;
    let mut done: u32 = 0;
    proof {
        lemma2_to64();
    }
    while done < exponent
        invariant
            done <= exponent < 64,
            power == pow2(done as nat),
        decreases exponent - done,
    {
        proof {
            lemma_pow2_unfold((done + 1) as nat);
            lemma_pow2_strictly_increases((done + 1) as nat, 64);
            lemma2_to64();
        }
        power = power * 2;
        done = done + 1;
    }
    power
}

/// A positive number rounded up to a multiple of `den` is at least one
/// multiple and no more than the number itself.
pub proof fn lemma_ceil_bound(num: int, den: int)
    requires
        0 < num,
        0 < den,
    ensures
        1 <= (num + den - 1) / den <= num,
{
    let q = (num + den - 1) / den;
    assert(1 <= q <= num) by (nonlinear_arith)
        requires
            0 < num,
            0 < den,
            q == (num + den - 1) / den,
    ;
}

} // verus!
