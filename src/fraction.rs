use vstd::prelude::*;
use vstd::arithmetic::power2::pow2;

verus! {

/// A non-negative dyadic fraction `mantissa / 2^scale`.
///
/// Every finite IEEE 754 double is such a value, which lets the conversions of
/// this library work on exact integers.
#[derive(Clone, Copy, Debug, PartialEq, Eq, Structural)]
pub struct BinaryFraction {
    pub mantissa: u64,
    pub scale: u32,
}

impl BinaryFraction {
    /// The denominator `2^scale`.
    pub open spec fn denom(self) -> nat {
        pow2(self.scale as nat)
    }

    /// The value lies in `[0, 1)`.
    pub open spec fn wf(self) -> bool {
        self.mantissa < self.denom()
    }
}

/// Sign bit of a double given by its bit pattern.
pub open spec fn sign_of(bits: u64) -> int {
    bits as int / 0x8000_0000_0000_0000
}

/// Biased exponent field of a double given by its bit pattern.
pub open spec fn exponent_of(bits: u64) -> int {
    (bits as int / 0x10_0000_0000_0000) % 0x800
}

/// Stored fraction field of a double given by its bit pattern.
pub open spec fn fraction_of(bits: u64) -> int {
    bits as int % 0x10_0000_0000_0000
}

/// The double with these bits is `+0.0`, `-0.0`, or a positive value below one.
pub open spec fn in_unit_interval(bits: u64) -> bool {
    (sign_of(bits) == 0 && exponent_of(bits) < 1023) || bits == 0x8000_0000_0000_0000
}

/// The exact value of a double in `[0, 1)`, as `mantissa / 2^scale`.
pub open spec fn decoded(bits: u64) -> BinaryFraction {
    if sign_of(bits) == 1 {
        BinaryFraction { mantissa: 0, scale: 0 }
    } else if exponent_of(bits) == 0 {
        BinaryFraction { mantissa: fraction_of(bits) as u64, scale: 1074 }
    } else {
        BinaryFraction {
            mantissa: (fraction_of(bits) + 0x10_0000_0000_0000) as u64,
            scale: (1075 - exponent_of(bits)) as u32,
        }
    }
}

impl BinaryFraction {
    /// Reads the IEEE 754 bit pattern of a double. Values in `[0, 1)` (and
    /// `-0.0`) are accepted; negative values, values of one or more, infinities
    /// and NaNs are rejected.
    pub fn from_f64_bits(bits: u64) -> (r: Option<BinaryFraction>)
        ensures
            r is Some <==> in_unit_interval(bits),
            r matches Some(x) ==> x == decoded(bits) && x.wf(),
    {
        let sign = bits / 0x8000_0000_0000_0000;
        let exponent = (bits / 0x10_0000_0000_0000) % 0x800;
        let fraction = bits % 0x10_0000_0000_0000;
        if bits == 0x8000_0000_0000_0000 {
            proof {
                vstd::arithmetic::power2::lemma2_to64();
            }
            Some(BinaryFraction { mantissa: 0, scale: 0 })
        } else if sign != 0 || exponent >= 1023 {
            None
        } else if exponent == 0 {
            proof {
                lemma_pow2_at_least_2_52(1074);
            }
            Some(BinaryFraction { mantissa: fraction, scale: 1074 })
        } else {
            let scale = 1075 - exponent as u32;
            proof {
                lemma_pow2_at_least_2_52(scale as nat);
            }
            Some(BinaryFraction { mantissa: fraction + 0x10_0000_0000_0000, scale })
        }
    }
}

proof fn lemma_pow2_at_least_2_52(k: nat)
    requires
        k >= 53,
    ensures
        pow2(k) >= 0x20_0000_0000_0000,
{
    vstd::arithmetic::power2::lemma2_to64();
    vstd::arithmetic::power2::lemma_pow2_adds(32, 21);
    if k > 53 {
        vstd::arithmetic::power2::lemma_pow2_strictly_increases(53, k);
    }
}

} // verus!
