//! A totally-ordered, hash-consistent stand-in for a 64-bit float.
//!
//! Row fields that hold floating values participate in equality and hashing
//! (they are part of Markov-model context keys), so the library never stores a
//! raw float. Instead it keeps the IEEE-754 bit pattern in a `u64` in a
//! canonical form: every NaN collapses to one pattern (NaN then equals itself
//! and nothing else), and negative zero collapses to positive zero (the two
//! are equal as floats). Equality, ordering and hashing are then plain
//! integer operations that agree with float equality. The external
//! delimited-text layer converts between field text and bit patterns; this
//! module owns the canonical form.

use vstd::prelude::*;

verus! {

/// The canonical quiet-NaN bit pattern every NaN is collapsed to.
pub const NAN_BITS: u64 = 0x7ff8_0000_0000_0000;

/// The bit pattern of negative zero, which equals positive zero as a float
/// and so collapses to it.
pub const NEG_ZERO_BITS: u64 = 0x8000_0000_0000_0000;

/// Whether a `u64` is the bit pattern of an IEEE-754 double NaN:
/// exponent all ones and a non-zero mantissa.
pub open spec fn is_nan_bits(bits: u64) -> bool {
    (bits >> 52) & 0x7ff == 0x7ff && bits & 0x000f_ffff_ffff_ffff != 0
}

/// The bit pattern actually stored for `bits`: NaNs collapse to `NAN_BITS`,
/// negative zero to positive zero.
pub open spec fn canonical_bits(bits: u64) -> u64 {
    if is_nan_bits(bits) {
        NAN_BITS
    } else if bits == NEG_ZERO_BITS {
        0
    } else {
        bits
    }
}

/// A float usable as a key: the canonical bit pattern of the value.
#[derive(Clone, Copy, PartialEq, Eq, Structural, Hash, Debug)]
pub struct FloatKey {
    bits: u64,
}

/// The key that wrapping `b` yields: `b` made canonical.
pub closed spec fn key_of_bits(b: u64) -> FloatKey {
    FloatKey { bits: canonical_bits(b) }
}

/// Zero's pattern is not a NaN pattern.
proof fn lemma_zero_not_nan()
    ensures
        !is_nan_bits(0),
{
    assert(0u64 & 0x000f_ffff_ffff_ffff == 0) by (bit_vector);
}

/// What `key_of_bits` stores.
pub proof fn lemma_key_of_bits(b: u64)
    ensures
        key_of_bits(b).spec_bits() == canonical_bits(b),
        key_of_bits(b).canonical(),
{
    lemma_zero_not_nan();
}

/// Keys are equal exactly when their stored bit patterns are.
pub proof fn lemma_key_eq(a: FloatKey, b: FloatKey)
    ensures
        (a == b) <==> (a.spec_bits() == b.spec_bits()),
{
}

/// A canonical key stores a fixed point of canonicalization.
pub proof fn lemma_canonical_fixpoint(k: FloatKey)
    requires
        k.canonical(),
    ensures
        k.spec_bits() == canonical_bits(k.spec_bits()),
{
}

impl FloatKey {
    /// The stored bit pattern.
    pub closed spec fn spec_bits(self) -> u64 {
        self.bits
    }

    /// A stored pattern is always canonical.
    #[verifier::type_invariant]
    pub closed spec fn canonical(self) -> bool {
        self.bits == canonical_bits(self.bits)
    }

    /// Wraps a raw IEEE-754 bit pattern, collapsing NaNs and negative zero.
    pub fn from_bits(bits: u64) -> (r: FloatKey)
        ensures
            r == key_of_bits(bits),
            r.spec_bits() == canonical_bits(bits),
    {
        let exponent_all_ones: bool = (bits >> 52) & 0x7ff == 0x7ff;
        let mantissa_nonzero: bool = bits & 0x000f_ffff_ffff_ffff != 0;
        if exponent_all_ones && mantissa_nonzero {
            FloatKey { bits: NAN_BITS }
        } else if bits == NEG_ZERO_BITS {
            proof {
                lemma_zero_not_nan();
            }
            FloatKey { bits: 0 }
        } else {
            FloatKey { bits }
        }
    }

    /// The stored (canonical) bit pattern.
    pub fn bits(&self) -> (r: u64)
        ensures
            r == self.spec_bits(),
            r == canonical_bits(r),
    {
        proof {
            use_type_invariant(self);
        }
        self.bits
    }
}

} // verus!
