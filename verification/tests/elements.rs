use reed_solomon_novelpoly::cantor::{bitpoly_mul, bitpoly_mul16, gf_mul_0x1002d, gf_mul_bitpoly_reduced};
use reed_solomon_novelpoly::field::{Additive, Field, Logarithm};
use reed_solomon_novelpoly::tables::FieldTables;

#[test]
fn embedded_gf256() {
    let tables = FieldTables::new(Field::F2e16).unwrap();
    // We've a leaky to_multiplier abstraction that spoils zero, so start at 1.
    for i in 1..=255 {
        let i = Additive(i as u16);
        let log_i = tables.to_multiplier(i);
        for j in 0..256 {
            let j = Additive(j as u16);
            assert!(tables.mul(j, log_i).0 != 257);
        }
    }
}

#[test]
fn products_of_the_first_256_elements_stay_among_them() {
    let tables = FieldTables::new(Field::F2e16).unwrap();
    let mask: u16 = !0xFF;
    for i in 1..=255 {
        let log_i = tables.to_multiplier(Additive(i as u16));
        for j in 0..256 {
            assert!(tables.mul(Additive(j as u16), log_i).0 & mask == 0);
        }
    }
}

#[test]
fn inc_log_mul_embedded_gf16() {
    let tables = FieldTables::new(Field::F2e16).unwrap();
    // We've a leaky to_multiplier abstraction that spoils zero, so start at 1.
    let mask: u16 = !0xF;
    for i in 1..16 {
        let i = tables.to_multiplier(Additive(i as u16));
        for j in 0..16 {
            let j = Additive(j as u16);
            assert!(tables.mul(j, i).0 & mask == 0);
        }
    }
}

#[test]
fn inc_log_x2_mul_embedded_gf16() {
    let tables = FieldTables::new(Field::F2e16).unwrap();
    // We've a leaky to_multiplier abstraction that spoils zero, so start at 1.
    let mask: u16 = !0xF;
    for i in 1..16 {
        let i = tables.to_multiplier(Additive(i as u16));
        for j in 0..16 {
            let j = Additive(j as u16);
            assert!(tables.mul(j, i).0 & mask == 0);
        }
    }
}

#[test]
fn inc_logarithm_embedded_gf16() {
    let tables = FieldTables::new(Field::F2e16).unwrap();
    // We've a leaky to_multiplier abstraction that spoils zero, so start at 1.
    let mask: u16 = !0xF;
    for i in 1..16 {
        let i = tables.to_multiplier(Additive(i as u16));
        for j in 0..16 {
            let j = Additive(j as u16);
            assert!(tables.log_mul(tables.to_multiplier(j), i).0 & mask == 0 || j.0 == 0);
            assert!(tables.mul(j, i).0 & mask == 0);
        }
    }
}

#[test]
fn bytes_of_an_element_are_big_endian() {
    assert_eq!(Additive(0x1234).to_be_bytes(), [0x12, 0x34]);
    assert_eq!(Additive(0x00FF).to_be_bytes(), [0x00, 0xFF]);
    assert_eq!(Additive(0xFF00).to_be_bytes(), [0xFF, 0x00]);
    assert_eq!(Additive::from_be_bytes([0x12, 0x34]), Additive(0x1234));
    assert_eq!(Additive::from_be_bytes([0xFF, 0xFF]), Additive(0xFFFF));
    for x in [0u16, 1, 255, 256, 0x8000, 0xFFFF] {
        assert_eq!(Additive::from_be_bytes(Additive(x).to_be_bytes()), Additive(x));
        assert_eq!(Additive(x).to_be_bytes(), x.to_be_bytes());
    }
}

#[test]
fn wide_forms_of_elements_and_logarithms() {
    assert_eq!(Additive(0xABCD).to_wide(), 0xABCD_u32);
    assert_eq!(Additive::from_wide(0x1_ABCD), Additive(0xABCD));
    assert_eq!(Additive::zero(), Additive(0));
    assert_eq!(Additive(0b1100).bitxor(Additive(0b1010)), Additive(0b0110));
    assert_eq!(Logarithm(0xABCD).to_wide(), 0xABCD_u32);
    assert_eq!(Logarithm::from_wide(0xFFFF_0001), Logarithm(1));
}

#[test]
fn logarithms_add_modulo_65535() {
    assert_eq!(Field::F2e16.fold(0), 0);
    assert_eq!(Field::F2e16.fold(65535), 65535);
    assert_eq!(Field::F2e16.fold(65536), 1);
    assert_eq!(Field::F2e16.fold(2 * 65535), 65535);
    assert_eq!(Logarithm(3).add(Logarithm(4), Field::F2e16), Logarithm(7));
    assert_eq!(Logarithm(65534).add(Logarithm(2), Field::F2e16), Logarithm(1));
    assert_eq!(Logarithm(65535).add(Logarithm(65535), Field::F2e16), Logarithm(65535));
    assert_eq!(Logarithm(7).sub(Logarithm(4), Field::F2e16), Logarithm(3));
    assert_eq!(Logarithm(4).sub(Logarithm(7), Field::F2e16), Logarithm(65532));
    // a difference of equal logarithms is the zero residue in its other form
    assert_eq!(Logarithm(4).sub(Logarithm(4), Field::F2e16), Logarithm(65535));
}

#[test]
fn polynomial_products_over_gf2() {
    // (x + 1)^2 = x^2 + 1
    assert_eq!(bitpoly_mul16(0b11, 0b11), 0b101);
    assert_eq!(bitpoly_mul16(0xFFFF, 1), 0xFFFF);
    assert_eq!(bitpoly_mul16(0x8000, 0x8000), 0x4000_0000);
    assert_eq!(bitpoly_mul16(0, 0xFFFF), 0);
    // x^15 * x = x^16 = x^5 + x^3 + x^2 + 1
    assert_eq!(gf_mul_0x1002d(0x8000, 2), 0x2D);
    assert_eq!(gf_mul_0x1002d(1, 0xBEEF), 0xBEEF);
    assert_eq!(gf_mul_0x1002d(0, 0xBEEF), 0);
    assert_eq!(gf_mul_0x1002d(0x1234, 0x5678), gf_mul_0x1002d(0x5678, 0x1234));
    assert_eq!(gf_mul_bitpoly_reduced(0x1234, 0x5678, 16, 0x2D), gf_mul_0x1002d(0x1234, 0x5678));
    // in GF(2^8): x^7 * x = x^8 = x^4 + x^3 + x^2 + 1
    assert_eq!(bitpoly_mul(0x80, 2, 8), 0x100);
    assert_eq!(gf_mul_bitpoly_reduced(0x80, 2, 8, 0x1D), 0x1D);
    assert_eq!(gf_mul_bitpoly_reduced(0xFF, 1, 8, 0x1D), 0xFF);
    // only the coefficients of the field count in the second factor
    assert_eq!(gf_mul_bitpoly_reduced(0xFF, 0x101, 8, 0x1D), 0xFF);
}

#[test]
fn multiplication_distributes_over_addition() {
    let tables = FieldTables::new(Field::F2e16).unwrap();
    for (a, b, c) in [(1u16, 2u16, 3u16), (0x1234, 0x5678, 0x9ABC), (0xFFFF, 0x8000, 1), (7, 0, 7)] {
        if c == 0 {
            continue;
        }
        let m = tables.to_multiplier(Additive(c));
        let left = tables.mul(Additive(a ^ b), m);
        let right = tables.mul(Additive(a), m).bitxor(tables.mul(Additive(b), m));
        assert_eq!(left, right);
    }
}
