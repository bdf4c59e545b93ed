use vstd::prelude::*;
use crate::error::KnnError;

verus! {

/// Bit pattern of positive infinity in IEEE 754 binary64. Every pattern below
/// it has a clear sign bit and a finite value.
pub const INFINITY_BITS: u64 = 0x7FF0_0000_0000_0000;

/// Bit pattern of negative zero in IEEE 754 binary64.
pub const NEGATIVE_ZERO_BITS: u64 = 0x8000_0000_0000_0000;

/// Whether `bits` is the binary64 pattern of a finite number that is not
/// below zero. Negative zero counts: it is zero.
pub open spec fn is_distance_bits(bits: u64) -> bool {
    bits < INFINITY_BITS || bits == NEGATIVE_ZERO_BITS
}

/// The pattern under which a distance is kept: negative zero becomes zero,
/// every other pattern stays.
pub open spec fn canonical_bits(bits: u64) -> u64 {
    if bits == NEGATIVE_ZERO_BITS {
        0
    } else {
        bits
    }
}

/// A finite, non-negative distance, kept as its IEEE 754 binary64 bit
/// pattern.
///
/// Among such patterns the unsigned order is the numeric order of the numbers
/// they encode, so distances are compared as integers.
#[derive(Clone, Copy, Debug)]
pub struct Dist {
    bits: u64,
}

impl Dist {
    #[verifier::type_invariant]
    spec fn finite(self) -> bool {
        self.bits < INFINITY_BITS
    }

    /// The bit pattern of this distance.
    pub closed spec fn bits(self) -> u64 {
        self.bits
    }

    /// The distance zero.
    pub fn zero() -> (d: Dist)
        ensures
            d.bits() == 0,
    {
        Dist { bits: 0 }
    }

    /// Accepts the pattern of a finite number that is not below zero, and
    /// refuses every other pattern (negative numbers, the infinities, NaN).
    pub fn from_bits(bits: u64) -> (r: Result<Dist, KnnError>)
        ensures
            r is Ok <==> is_distance_bits(bits),
            r matches Ok(d) ==> d.bits() == canonical_bits(bits),
            r matches Err(e) ==> e == KnnError::InvalidPoint,
    {
        if bits == NEGATIVE_ZERO_BITS {
            Ok(Dist { bits: 0 })
        } else if bits < INFINITY_BITS {
            Ok(Dist { bits })
        } else {
            Err(KnnError::InvalidPoint)
        }
    }

    /// The bit pattern, for turning the distance back into a number.
    pub fn to_bits(&self) -> (bits: u64)
        ensures
            bits == self.bits(),
            bits < INFINITY_BITS,
    {
        proof {
            use_type_invariant(self);
        }
        self.bits
    }
}

} // verus!
