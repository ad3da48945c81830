use reed_solomon_novelpoly::decode::{decode_main, eval_error_polynomial};
use reed_solomon_novelpoly::encode::encode_high;
use reed_solomon_novelpoly::f2e16::FIELD_SIZE;
use reed_solomon_novelpoly::field::{Additive, Field, Logarithm};
use reed_solomon_novelpoly::novel_poly_basis::ReedSolomon;
use reed_solomon_novelpoly::tables::FieldTables;

fn high_rate_round_trip(n: usize, k: usize, erased: &[usize]) {
    let tables = FieldTables::new(Field::F2e16).unwrap();
    let t = n - k;
    let data: Vec<Additive> = (0..k).map(|i| Additive((i * i * 31 + 7 * i + 1) as u16)).collect();
    let mut parity = vec![Additive(0); t];
    let mut mem = vec![Additive(0); t];
    encode_high(&tables, &data, k, &mut parity, &mut mem, n);

    // the codeword: parity first, payload behind it
    let mut codeword: Vec<Additive> = parity.clone();
    codeword.extend_from_slice(&data);
    let untouched = codeword.clone();

    let mut erasure = vec![false; n];
    for i in erased {
        erasure[*i] = true;
        codeword[*i] = Additive(0);
    }
    let mut log_walsh2 = vec![Logarithm(0); FIELD_SIZE];
    eval_error_polynomial(&tables, &erasure[..], &mut log_walsh2, FIELD_SIZE);
    decode_main(&tables, &mut codeword, n, &erasure[..], &log_walsh2[..], n);
    for i in erased {
        assert_eq!(codeword[*i], untouched[*i], "symbol {} of n={} k={}", i, n, k);
    }
}

#[test]
fn high_rate_parity_recovers_erased_symbols() {
    high_rate_round_trip(16, 12, &[4, 9, 15]);
    high_rate_round_trip(16, 12, &[0, 1, 2, 3]);
    high_rate_round_trip(16, 8, &[0, 3, 8, 9, 10, 11, 14, 15]);
    high_rate_round_trip(256, 192, &[5, 64, 100, 255]);
    high_rate_round_trip(8, 7, &[6]);
}

#[test]
fn a_coder_with_half_of_the_codeword_as_payload_encodes_at_the_high_rate() {
    for field in [Field::F256, Field::F2e16] {
        let tables = FieldTables::new(field).unwrap();
        for (n, k) in [(2usize, 1usize), (4, 2), (16, 8), (64, 32)] {
            let rs = ReedSolomon::new(&tables, n, k).unwrap();
            assert_eq!((rs.get_code_length(), rs.get_number_of_data_shards()), (n, k));
            let t = n - k;
            let data: Vec<Additive> = (0..k).map(|i| Additive(((i * 29 + 3) % 251) as u16)).collect();
            let mut parity = vec![Additive(7); t];
            let mut mem = vec![Additive(9); t];
            rs.encode_high(&data, &mut parity, &mut mem);
            let mut expected = vec![Additive(0); t];
            let mut work = vec![Additive(0); t];
            encode_high(&tables, &data, k, &mut expected, &mut work, n);
            assert_eq!(parity, expected);

            // the codeword: parity first, payload behind it; lose the payload
            let mut codeword = parity.clone();
            codeword.extend_from_slice(&data);
            let untouched = codeword.clone();
            let mut erasure = vec![false; n];
            for i in t..n {
                erasure[i] = true;
                codeword[i] = Additive(0);
            }
            let mut logs = vec![Logarithm(0); field.size()];
            eval_error_polynomial(&tables, &erasure[..], &mut logs, field.size());
            decode_main(&tables, &mut codeword, n, &erasure[..], &logs[..], n);
            for i in t..n {
                assert_eq!(codeword[i], untouched[i], "symbol {} of n={} k={}", i, n, k);
            }
        }
    }
}

#[test]
fn coders_at_any_rate_decode_a_column_up_to_the_payload() {
    let tables = FieldTables::new(Field::F2e16).unwrap();
    // all of the codeword is payload: nothing can be erased, and nothing is changed but to zero
    let rs = ReedSolomon::new(&tables, 4, 4).unwrap();
    let mut codeword = vec![Additive(5), Additive(6), Additive(7), Additive(8)];
    let erasure = vec![false; 4];
    let mut logs = vec![Logarithm(0); FIELD_SIZE];
    rs.eval_error_polynomial(&erasure[..], &mut logs);
    rs.decode_main(&mut codeword, &erasure[..], &logs[..]);
    assert_eq!(codeword, vec![Additive(0); 4]);
}
