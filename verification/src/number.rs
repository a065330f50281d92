//! Floating-point numbers by their bit patterns.
//!
//! Scales and offsets are IEEE 754 double-precision numbers. The library decides by their bits
//! and never computes with them.
use vstd::prelude::*;

verus! {

/// The bit pattern of one.
pub const ONE: u64 = 0x3ff0_0000_0000_0000;

/// The bit pattern of positive zero.
pub const ZERO: u64 = 0;

/// The bit pattern of negative zero.
pub const NEGATIVE_ZERO: u64 = 0x8000_0000_0000_0000;

/// Whether the bits stand for a number, and not for an infinity or for no number at all: the
/// eleven exponent bits are not all set.
pub open spec fn finite(bits: u64) -> bool {
    (bits / 0x10_0000_0000_0000) % 0x800 != 0x7ff
}

/// Whether the bits stand for zero, of either sign.
pub open spec fn zero(bits: u64) -> bool {
    bits == ZERO || bits == NEGATIVE_ZERO
}

/// Whether the bits stand for a number.
pub fn is_finite(bits: u64) -> (is: bool)
    ensures
        is == finite(bits),
{
    (bits / 0x10_0000_0000_0000) % 0x800 != 0x7ff
}

/// Whether the bits stand for zero.
pub fn is_zero(bits: u64) -> (is: bool)
    ensures
        is == zero(bits),
{
    bits == ZERO || bits == NEGATIVE_ZERO
}

/// A linear conversion: a value is multiplied by `scale`, then `offset` is added.
#[derive(Debug, Clone, Copy, PartialEq, Eq, Structural)]
pub struct Affine {
    pub scale: u64,
    pub offset: u64,
}

/// The conversion that changes nothing.
pub open spec fn identity() -> Affine {
    Affine { scale: ONE, offset: ZERO }
}

impl Affine {
    /// Whether the conversion leaves every value as it is.
    pub open spec fn changes_nothing(self) -> bool {
        self.scale == ONE && zero(self.offset)
    }

    /// Whether the conversion leaves every value as it is.
    pub fn is_identity(&self) -> (is: bool)
        ensures
            is == self.changes_nothing(),
    {
        self.scale == ONE && is_zero(self.offset)
    }
}

} // verus!
