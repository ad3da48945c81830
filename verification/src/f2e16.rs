//! The constants of the field GF(2^16).
use vstd::prelude::*;

verus! {

/// Number of bits of a field element.
pub const FIELD_BITS: usize = 16;

/// Number of bytes of a field element on the wire.
pub const FIELD_BYTES: usize = 2;

/// Number of field elements.
pub const FIELD_SIZE: usize = 65536;

/// The all-ones element; also the order of the multiplicative group.
pub const ONEMASK: u16 = 0xFFFF;

/// Tail of the irreducible polynomial `x^16 + x^5 + x^3 + x^2 + 1`.
pub const GENERATOR: u16 = 0x2D;

/// Last element of the Cantor basis, from which the others follow.
pub const BASE_FINAL: u16 = 39198;

} // verus!
