use reed_solomon_novelpoly::errors::Error;
use reed_solomon_novelpoly::field::Field;
use reed_solomon_novelpoly::novel_poly_basis::ReedSolomon;
use reed_solomon_novelpoly::params::CodeParams;
use reed_solomon_novelpoly::tables::FieldTables;
use reed_solomon_novelpoly::util::{
    is_nonzero_power_of_2, is_power_of_2, log2, next_higher_power_of_2, next_lower_power_of_2,
    recoverability_subset_size,
};

#[test]
fn novel_poly_basis_base_2_powers_of_2() {
    assert!(!is_nonzero_power_of_2(0));
    for i in 0..20 {
        assert!(is_nonzero_power_of_2(1 << i));
    }
    for i in 0..20 {
        assert!(!is_nonzero_power_of_2(7 << i));
    }
    let mut f = 3;
    for _i in 0..20 {
        f *= 7;
        assert!(!is_nonzero_power_of_2(f));
    }
    assert_eq!(is_nonzero_power_of_2(3), false);
}

#[test]
fn novel_poly_basis_base_2_upper_bound() {
    for i in 1_usize..=1024 {
        let upper = next_higher_power_of_2(i);
        if is_nonzero_power_of_2(i) {
            assert_eq!(upper, i);
        } else {
            assert!(upper > i);
        }
    }
}

#[test]
fn tests_base_2_powers_of_2() {
    assert!(!is_power_of_2(0));
    for i in 0..20 {
        assert!(is_power_of_2(1 << i));
    }
    for i in 0..20 {
        assert!(!is_power_of_2(7 << i));
    }
    let mut f = 3;
    for _i in 0..20 {
        f *= 7;
        assert!(!is_power_of_2(f));
    }
    assert_eq!(is_power_of_2(3), false);
}

#[test]
fn tests_base_2_upper_bound() {
    for i in 1_usize..=1024 {
        let upper = next_higher_power_of_2(i);
        if is_power_of_2(i) {
            assert_eq!(upper, i);
        } else {
            assert!(upper > i);
        }
    }
}

#[test]
fn k_n_construction() {
    // skip the two, it's a special case
    let tables = FieldTables::new(Field::F2e16).unwrap();
    for validator_count in 3_usize..=8200 {
        let rs = ReedSolomon::new(&tables, validator_count, recoverability_subset_size(validator_count)).unwrap();

        assert_eq!(rs.get_number_of_all_shards(), validator_count);
        let n = rs.get_code_length();
        assert!(validator_count <= n, "vc={} <= n={} violated", validator_count, n);
        // a third of the shards, rounded up, is the most that reconstruction may ask for
        assert!(
            (validator_count + 2) / 3 >= rs.get_number_of_data_shards(),
            "(vc={} + 2) / 3 >= k={} violated",
            validator_count,
            rs.get_number_of_data_shards()
        );
        assert!(
            validator_count + 2 >= rs.get_number_of_data_shards() * 3,
            "vc={} + 2 >= k={} * 3 violated",
            validator_count,
            rs.get_number_of_data_shards()
        );
        let derived = CodeParams::derive_from_third_plus_epsilon(validator_count).unwrap();
        assert_eq!((derived.n, derived.k), (n, rs.get_number_of_data_shards()));
    }
}

#[test]
fn test_code_params() {
    assert!(matches!(CodeParams::derive_from_third_plus_epsilon(0), Err(_)));

    assert!(matches!(CodeParams::derive_from_third_plus_epsilon(1), Err(_)));

    assert_eq!(CodeParams::derive_from_third_plus_epsilon(2), Ok(CodeParams { n: 2, k: 1, real_n: 2 }));

    assert_eq!(CodeParams::derive_from_third_plus_epsilon(3), Ok(CodeParams { n: 4, k: 1, real_n: 3 }));

    assert_eq!(CodeParams::derive_from_third_plus_epsilon(4), Ok(CodeParams { n: 4, k: 2, real_n: 4 }));

    assert_eq!(CodeParams::derive_from_third_plus_epsilon(100), Ok(CodeParams { n: 128, k: 32, real_n: 100 }));
}

#[test]
fn derive_rejects_shard_counts_out_of_range() {
    assert_eq!(CodeParams::derive_from_third_plus_epsilon(0), Err(Error::WantedShardCountTooLow(0)));
    assert_eq!(CodeParams::derive_from_third_plus_epsilon(1), Err(Error::WantedShardCountTooLow(1)));
    assert_eq!(
        CodeParams::derive_from_third_plus_epsilon(65536),
        Ok(CodeParams { n: 65536, k: 16384, real_n: 65536 })
    );
    assert_eq!(CodeParams::derive_from_third_plus_epsilon(65537), Err(Error::WantedShardCountTooHigh(65537)));
    assert_eq!(
        CodeParams::derive_from_third_plus_epsilon(usize::MAX),
        Err(Error::WantedShardCountTooHigh(usize::MAX))
    );
}

#[test]
fn derived_parameters_follow_the_policy() {
    for real_n in 2_usize..=2050 {
        let p = CodeParams::derive_from_third_plus_epsilon(real_n).unwrap();
        assert_eq!(p.n, real_n.next_power_of_two());
        let third = (real_n + 2) / 3;
        assert_eq!(third, recoverability_subset_size(real_n));
        assert!(p.k.is_power_of_two());
        assert!(p.k <= third && third < 2 * p.k);
        assert!(2 * p.k <= p.n);
        assert!(p.check().is_ok());
    }
}

#[test]
fn check_rejects_lengths_that_are_no_powers_of_two() {
    assert_eq!(
        CodeParams { n: 12, k: 4, real_n: 10 }.check().err(),
        Some(Error::ParameterMustBePowerOf2 { n: 12, k: 4 })
    );
    assert_eq!(
        CodeParams { n: 16, k: 0, real_n: 10 }.check().err(),
        Some(Error::ParameterMustBePowerOf2 { n: 16, k: 0 })
    );
    let checked = CodeParams { n: 16, k: 4, real_n: 10 }.check().unwrap();
    assert_eq!(*checked.params(), CodeParams { n: 16, k: 4, real_n: 10 });
}

#[test]
fn rounding_to_powers_of_two() {
    assert_eq!(log2(0), 0);
    assert_eq!(log2(1), 0);
    assert_eq!(log2(2), 1);
    assert_eq!(log2(3), 1);
    assert_eq!(log2(1024), 10);
    assert_eq!(log2(usize::MAX), usize::BITS as usize - 1);
    assert_eq!(next_lower_power_of_2(0), 1);
    assert_eq!(next_lower_power_of_2(1), 1);
    assert_eq!(next_lower_power_of_2(5), 4);
    assert_eq!(next_lower_power_of_2(8), 8);
    assert_eq!(next_lower_power_of_2(usize::MAX), 1 << (usize::BITS - 1));
    assert_eq!(next_higher_power_of_2(0), 2);
    assert_eq!(next_higher_power_of_2(1), 1);
    assert_eq!(next_higher_power_of_2(5), 8);
    assert_eq!(next_higher_power_of_2(8), 8);
    assert_eq!(recoverability_subset_size(0), 0);
    assert_eq!(recoverability_subset_size(1), 1);
    assert_eq!(recoverability_subset_size(3), 1);
    assert_eq!(recoverability_subset_size(4), 2);
    assert_eq!(recoverability_subset_size(usize::MAX), usize::MAX / 3);
}
