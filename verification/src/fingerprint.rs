//! The two fingerprint widths a filter can store.

use vstd::prelude::*;

verus! {

/// Specifies the fingerprint size for the filter.
///
/// - 8-bit: half the memory, a higher false positive rate
/// - 16-bit: the default
#[derive(Debug, Clone, Copy, PartialEq, Eq, Structural)]
pub enum FingerprintSize {
    /// 8-bit fingerprints
    Bits8,
    /// 16-bit fingerprints (default)
    Bits16,
}

impl FingerprintSize {
    /// The number of bits of a fingerprint.
    pub open spec fn spec_bits(self) -> nat {
        match self {
            FingerprintSize::Bits8 => 8,
            FingerprintSize::Bits16 => 16,
        }
    }

    /// The number of bytes a fingerprint takes in the fingerprint array.
    pub open spec fn spec_bytes(self) -> nat {
        self.spec_bits() / 8
    }

    /// The mask with the lower `spec_bits()` bits set.
    pub open spec fn spec_mask(self) -> u64 {
        match self {
            FingerprintSize::Bits8 => 0xffu64,
            FingerprintSize::Bits16 => 0xffffu64,
        }
    }

    /// Returns the number of bits for this fingerprint size (8 or 16).
    pub fn bits(&self) -> (r: usize)
        ensures
            r == self.spec_bits(),
    {
        match self {
            FingerprintSize::Bits8 => 8,
            FingerprintSize::Bits16 => 16,
        }
    }

    /// Returns the mask for extracting fingerprints of this size: the lower
    /// `bits()` bits set.
    pub fn mask(&self) -> (r: u64)
        ensures
            r == self.spec_mask(),
            r as int == vstd::arithmetic::power2::pow2(self.spec_bits()) - 1,
    {
        let b = self.bits();
        proof {
            vstd::arithmetic::power2::lemma2_to64();
        }
        match self {
            FingerprintSize::Bits8 => {
                assert((1u64 << 8u64) - 1 == 0xffu64) by (bit_vector);
            },
            FingerprintSize::Bits16 => {
                assert((1u64 << 16u64) - 1 == 0xffffu64) by (bit_vector);
            },
        }
        (1u64 << b) - 1
    }
}

impl Default for FingerprintSize {
    /// 16-bit fingerprints.
    fn default() -> (r: Self)
        ensures
            r == FingerprintSize::Bits16,
    {
        FingerprintSize::Bits16
    }
}

} // verus!
