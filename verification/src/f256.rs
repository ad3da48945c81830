//! The constants of the field GF(2^8).
use vstd::prelude::*;

verus! {

/// Number of bits of a field element.
pub const FIELD_BITS: usize = 8;

/// Number of bytes of a field element on the wire.
pub const FIELD_BYTES: usize = 1;

/// Number of field elements.
pub const FIELD_SIZE: usize = 256;

/// The all-ones element; also the order of the multiplicative group.
pub const ONEMASK: u16 = 0xFF;

/// Tail of the irreducible polynomial `x^8 + x^4 + x^3 + x^2 + 1`.
pub const GENERATOR: u16 = 0x1D;

/// Last element of the Cantor basis, from which the others follow.
pub const BASE_FINAL: u16 = 230;

} // verus!
