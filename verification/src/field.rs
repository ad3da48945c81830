//! The fields GF(2^8) and GF(2^16), the two forms of a field element, and
//! arithmetic on logarithms.
use vstd::prelude::*;

verus! {

/// The field that the coder works over.
#[derive(Debug, Clone, Copy, PartialEq, Eq, Structural)]
pub enum Field {
    /// GF(2^8), with one byte to an element.
    F256,
    /// GF(2^16), with two bytes to an element.
    F2e16,
}

impl Field {
    /// Number of bits of a field element.
    pub open spec fn spec_bits(self) -> u32 {
        match self {
            Field::F256 => 8,
            Field::F2e16 => 16,
        }
    }

    /// Number of field elements.
    pub open spec fn spec_size(self) -> nat {
        match self {
            Field::F256 => 0x100,
            Field::F2e16 => 0x10000,
        }
    }

    /// The all-ones element; also the order of the multiplicative group.
    pub open spec fn spec_onemask(self) -> u16 {
        match self {
            Field::F256 => 0xFF,
            Field::F2e16 => 0xFFFF,
        }
    }

    /// Tail of the irreducible polynomial that defines the field.
    pub open spec fn spec_generator(self) -> u16 {
        match self {
            Field::F256 => crate::f256::GENERATOR,
            Field::F2e16 => crate::f2e16::GENERATOR,
        }
    }

    /// Last element of the Cantor basis of the field.
    pub open spec fn spec_base_final(self) -> u16 {
        match self {
            Field::F256 => crate::f256::BASE_FINAL,
            Field::F2e16 => crate::f2e16::BASE_FINAL,
        }
    }

    /// Number of bytes of a field element on the wire.
    pub open spec fn spec_field_bytes(self) -> nat {
        match self {
            Field::F256 => 1,
            Field::F2e16 => 2,
        }
    }

    /// Number of bits of a field element.
    pub fn bits(self) -> (r: u32)
        ensures
            r == self.spec_bits(),
    {
        match self {
            Field::F256 => 8,
            Field::F2e16 => 16,
        }
    }

    /// Number of field elements.
    pub fn size(self) -> (r: usize)
        ensures
            r == self.spec_size(),
    {
        match self {
            Field::F256 => crate::f256::FIELD_SIZE,
            Field::F2e16 => crate::f2e16::FIELD_SIZE,
        }
    }

    /// The all-ones element; also the order of the multiplicative group.
    pub fn onemask(self) -> (r: u16)
        ensures
            r == self.spec_onemask(),
            r + 1 == self.spec_size(),
    {
        match self {
            Field::F256 => crate::f256::ONEMASK,
            Field::F2e16 => crate::f2e16::ONEMASK,
        }
    }

    /// Tail of the irreducible polynomial that defines the field.
    pub fn generator(self) -> (r: u16)
        ensures
            r == self.spec_generator(),
    {
        match self {
            Field::F256 => crate::f256::GENERATOR,
            Field::F2e16 => crate::f2e16::GENERATOR,
        }
    }

    /// Last element of the Cantor basis of the field.
    pub fn base_final(self) -> (r: u16)
        ensures
            r == self.spec_base_final(),
    {
        match self {
            Field::F256 => crate::f256::BASE_FINAL,
            Field::F2e16 => crate::f2e16::BASE_FINAL,
        }
    }

    /// Number of bytes of a field element on the wire.
    pub fn field_bytes(self) -> (r: usize)
        ensures
            r == self.spec_field_bytes(),
    {
        match self {
            Field::F256 => crate::f256::FIELD_BYTES,
            Field::F2e16 => crate::f2e16::FIELD_BYTES,
        }
    }

    /// The place of the element or logarithm `x` in a table of the field: `x`
    /// itself where it is one of the field, and what is left of it modulo the
    /// size of the field where it is none.
    pub open spec fn spec_index(self, x: u16) -> int {
        (x as int) % (self.spec_size() as int)
    }

    /// The place of the element or logarithm `x` in a table of the field.
    pub fn index(self, x: u16) -> (i: usize)
        ensures
            i == self.spec_index(x),
            i < self.spec_size(),
    {
        match self {
            Field::F256 => (x % 0x100) as usize,
            Field::F2e16 => x as usize,
        }
    }

    /// Brings a sum `s` of two residues back towards `0..=ONEMASK` without
    /// changing it modulo `ONEMASK`: the sum of its digits to the base of the
    /// size of the field. A sum of two logarithms of the field comes back
    /// into that range.
    pub open spec fn spec_fold(self, s: int) -> int {
        s % (self.spec_size() as int) + s / (self.spec_size() as int)
    }

    /// Masking the low bits and adding the carry folds a sum of two residues.
    pub fn fold(self, s: u32) -> (r: u16)
        requires
            s <= 2 * 0xFFFF,
        ensures
            r == self.spec_fold(s as int),
    {
        match self {
            Field::F256 => {
                let lo: u32 = s & 0xFF;
                let hi: u32 = s >> 8;
                assert(lo == s % 0x100 && hi == s / 0x100 && lo + hi <= 0xFFFF) by (bit_vector)
                    requires
                        s <= 2 * 0xFFFF,
                        lo == s & 0xFF,
                        hi == s >> 8,
                ;
                (lo + hi) as u16
            },
            Field::F2e16 => {
                let lo: u32 = s & 0xFFFF;
                let hi: u32 = s >> 16;
                assert(lo == s % 0x10000 && hi == s / 0x10000 && lo + hi <= 0xFFFF)
                    by (bit_vector)
                    requires
                        s <= 2 * 0xFFFF,
                        lo == s & 0xFFFF,
                        hi == s >> 16,
                ;
                (lo + hi) as u16
            },
        }
    }
}

/// A field element in additive form: addition is XOR, zero is `0`.
#[derive(Debug, Clone, Copy, PartialEq, Eq, Structural)]
pub struct Additive(pub u16);

/// A field element in logarithm form: a multiplier given by its discrete
/// logarithm, counted modulo `ONEMASK`. Both `0` and `ONEMASK` stand for the
/// residue zero. The zero element of the field has no logarithm.
#[derive(Debug, Clone, Copy, PartialEq, Eq, Structural)]
pub struct Logarithm(pub u16);

/// Sum of two elements in additive form.
pub open spec fn spec_xor(a: Additive, b: Additive) -> Additive {
    Additive(a.0 ^ b.0)
}

/// Sum of two logarithms.
pub open spec fn spec_log_add(f: Field, a: Logarithm, b: Logarithm) -> Logarithm {
    Logarithm(f.spec_fold(a.0 + b.0) as u16)
}

/// Difference of two logarithms.
pub open spec fn spec_log_sub(f: Field, a: Logarithm, b: Logarithm) -> Logarithm {
    Logarithm(f.spec_fold(a.0 + f.spec_onemask() - f.spec_index(b.0)) as u16)
}

/// Folding keeps a sum of two logarithms of the field in range and in its
/// residue class.
pub proof fn lemma_fold(f: Field, s: int)
    requires
        0 <= s <= 2 * f.spec_onemask(),
    ensures
        0 <= f.spec_fold(s) <= f.spec_onemask(),
        f.spec_fold(s) % (f.spec_onemask() as int) == s % (f.spec_onemask() as int),
{
    match f {
        Field::F256 => {
            if s >= 0x100 {
                assert(s / 0x100 == 1);
                assert((s - 0xFF) % 0xFF == s % 0xFF) by {
                    vstd::arithmetic::div_mod::lemma_mod_multiples_vanish(-1, s, 0xFF);
                }
            }
        },
        Field::F2e16 => {
            if s >= 0x10000 {
                assert(s / 0x10000 == 1);
                assert((s - 0xFFFF) % 0xFFFF == s % 0xFFFF) by {
                    vstd::arithmetic::div_mod::lemma_mod_multiples_vanish(-1, s, 0xFFFF);
                }
            }
        },
    }
}

/// The element that the bytes `bytes` stand for on the wire, most significant
/// byte first.
pub open spec fn spec_from_be_bytes(f: Field, bytes: Seq<u8>) -> Additive {
    match f {
        Field::F256 => Additive(bytes[0] as u16),
        Field::F2e16 => Additive((bytes[0] * 256 + bytes[1]) as u16),
    }
}

/// The bytes that stand for `a` on the wire, most significant first.
pub open spec fn spec_to_be_bytes(f: Field, a: Additive) -> Seq<u8> {
    match f {
        Field::F256 => seq![(a.0 % 256) as u8],
        Field::F2e16 => seq![(a.0 / 256) as u8, (a.0 % 256) as u8],
    }
}

/// An element read from the wire is written back as the same bytes.
pub proof fn lemma_be_bytes_round_trip(f: Field, bytes: Seq<u8>)
    requires
        bytes.len() == f.spec_field_bytes(),
    ensures
        spec_to_be_bytes(f, spec_from_be_bytes(f, bytes)) == bytes,
{
    assert(spec_to_be_bytes(f, spec_from_be_bytes(f, bytes)) =~= bytes);
}

/// The wire form of an element of the field gives the element back.
pub proof fn lemma_be_bytes_of_element(f: Field, a: Additive)
    requires
        a.0 < f.spec_size(),
    ensures
        spec_to_be_bytes(f, a).len() == f.spec_field_bytes(),
        spec_from_be_bytes(f, spec_to_be_bytes(f, a)) == a,
{
}

impl Additive {
    /// The zero element.
    pub fn zero() -> (a: Additive)
        ensures
            a == Additive(0),
    {
        Additive(0)
    }

    /// The element as a wide integer.
    pub fn to_wide(self) -> (w: u32)
        ensures
            w == self.0,
    {
        self.0 as u32
    }

    /// The element whose bits are the low 16 bits of `x`.
    pub fn from_wide(x: u32) -> (a: Additive)
        ensures
            a.0 == x % 0x10000,
    {
        Additive((x % 0x10000) as u16)
    }

    /// The two bytes of an element of GF(2^16), most significant first.
    pub fn to_be_bytes(&self) -> (bytes: [u8; 2])
        ensures
            bytes@ == spec_to_be_bytes(Field::F2e16, *self),
    {
        let bytes: [u8; 2] = [(self.0 / 256) as u8, (self.0 % 256) as u8];
        assert(bytes@ =~= spec_to_be_bytes(Field::F2e16, *self));
        bytes
    }

    /// The element of GF(2^16) that two bytes stand for, most significant
    /// first.
    pub fn from_be_bytes(bytes: [u8; 2]) -> (a: Additive)
        ensures
            a == spec_from_be_bytes(Field::F2e16, bytes@),
    {
        Additive((bytes[0] as u16) * 256 + (bytes[1] as u16))
    }

    /// Sum of two elements.
    pub fn bitxor(self, other: Additive) -> (r: Additive)
        ensures
            r == spec_xor(self, other),
    {
        Additive(self.0 ^ other.0)
    }
}

impl Logarithm {
    /// The logarithm as a wide integer.
    pub fn to_wide(self) -> (w: u32)
        ensures
            w == self.0,
    {
        self.0 as u32
    }

    /// The logarithm whose bits are the low 16 bits of `x`.
    pub fn from_wide(x: u32) -> (l: Logarithm)
        ensures
            l.0 == x % 0x10000,
    {
        Logarithm((x % 0x10000) as u16)
    }

    /// Sum of two logarithms of the field `f`.
    pub fn add(self, other: Logarithm, f: Field) -> (r: Logarithm)
        ensures
            r == spec_log_add(f, self, other),
    {
        Logarithm(f.fold(self.0 as u32 + other.0 as u32))
    }

    /// Difference of two logarithms of the field `f`.
    pub fn sub(self, other: Logarithm, f: Field) -> (r: Logarithm)
        ensures
            r == spec_log_sub(f, self, other),
    {
        let subtrahend: usize = f.index(other.0);
        Logarithm(f.fold(self.0 as u32 + f.onemask() as u32 - subtrahend as u32))
    }
}

} // verus!
