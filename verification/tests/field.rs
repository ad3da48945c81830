use reed_solomon_novelpoly::cantor::{generate_cantor_basis, gf_mul_0x1002d, gf_mul_bitpoly_reduced, is_cantor_basis};
use reed_solomon_novelpoly::f256;
use reed_solomon_novelpoly::f2e16::{BASE_FINAL, GENERATOR};
use reed_solomon_novelpoly::field::{Additive, Field, Logarithm};
use reed_solomon_novelpoly::tables::FieldTables;

const BASE: [u16; 16] =
    [1_u16, 44234, 15374, 5694, 50562, 60718, 37196, 16402, 27800, 4312, 27250, 47360, 64952, 64308, 65336, 39198];

const BASE_F256: [u16; 8] = [1, 214, 152, 146, 86, 200, 88, 230];

#[test]
fn cantor_basis() {
    for w in BASE.windows(2) {
        let b = w[1];
        let square = gf_mul_0x1002d(b, b);
        let a = w[0];
        assert_eq!(a, square ^ b);
    }
}

#[test]
fn inc_cantor_basis_is_cantor_basis() {
    let tables = FieldTables::new(Field::F2e16).unwrap();
    for i in 0..15 {
        let b = tables.get_base_table(i + 1);
        let square = gf_mul_bitpoly_reduced(b, b, 16, GENERATOR);
        let a = tables.get_base_table(i);
        assert_eq!(a, square ^ b);
    }
}

#[test]
fn traits_is_cantor_basis() {
    assert!(is_cantor_basis(&BASE, 16, GENERATOR));
    let mut broken = BASE;
    broken[3] ^= 1;
    assert!(!is_cantor_basis(&broken, 16, GENERATOR));
    assert!(is_cantor_basis(&BASE_F256, 8, f256::GENERATOR));
    let mut broken = BASE_F256;
    broken[2] ^= 1;
    assert!(!is_cantor_basis(&broken, 8, f256::GENERATOR));
}

#[test]
fn cantor_basis_grows_from_its_last_element() {
    assert_eq!(generate_cantor_basis(BASE_FINAL, 16, GENERATOR), Some(BASE.to_vec()));
    assert_eq!(generate_cantor_basis(0, 16, GENERATOR), None);
    assert_eq!(generate_cantor_basis(1, 16, GENERATOR), None);
    assert_eq!(generate_cantor_basis(f256::BASE_FINAL, 8, f256::GENERATOR), Some(BASE_F256.to_vec()));
    assert_eq!(generate_cantor_basis(238, 8, f256::GENERATOR), Some(vec![1, 215, 79, 220, 92, 13, 16, 238]));
    // 2 is the last element of no Cantor basis of this field
    assert_eq!(generate_cantor_basis(2, 8, f256::GENERATOR), None);
}

#[test]
fn tables_are_inverse_of_each_other() {
    let tables = FieldTables::new(Field::F2e16).unwrap();
    for x in 1..=u16::MAX {
        assert_eq!(tables.get_exp_table(tables.get_log_table(x)), x);
    }
    for l in 0..u16::MAX {
        assert_eq!(tables.get_log_table(tables.get_exp_table(l)), l);
    }
    assert_eq!(tables.get_exp_table(u16::MAX), tables.get_exp_table(0));
    assert_eq!(tables.get_log_table(0), u16::MAX);
}

#[test]
fn table_multiplication_is_field_multiplication() {
    let tables = FieldTables::new(Field::F2e16).unwrap();
    // In Cantor coordinates the element 1 is the one of the field.
    for x in [1u16, 2, 3, 100, 0x8000, 0xFFFF] {
        let one = tables.to_multiplier(Additive(1));
        assert_eq!(tables.mul(Additive(x), one), Additive(x));
        assert_eq!(tables.mul(Additive(0), tables.to_multiplier(Additive(x))), Additive(0));
    }
    assert_eq!(tables.mul(Additive(7), Logarithm(0)), Additive(7));
    assert_eq!(tables.mul(Additive(7), Logarithm(0xFFFF)), Additive(7));
}
