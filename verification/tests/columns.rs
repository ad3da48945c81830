use rand::rngs::SmallRng;
use rand::{RngCore, SeedableRng};
use reed_solomon_novelpoly::afft::{afft, inverse_afft};
use reed_solomon_novelpoly::decode::{decode_main, eval_error_polynomial, reconstruct_sub};
use reed_solomon_novelpoly::derivative::{formal_derivative, lowest_set_bit, tweaked_formal_derivative};
use reed_solomon_novelpoly::encode::{encode_low, encode_sub};
use reed_solomon_novelpoly::f2e16::{FIELD_SIZE, ONEMASK};
use reed_solomon_novelpoly::field::{Additive, Field, Logarithm};
use reed_solomon_novelpoly::tables::FieldTables;
use reed_solomon_novelpoly::walsh::walsh;

const SMALL_RNG_SEED: [u8; 32] = [
    0, 6, 0xFA, 0, 0x37, 3, 19, 89, 32, 032, 0x37, 0x77, 77, 0b11, 112, 52, 12, 40, 82, 34, 0, 0, 0, 1, 4, 4, 1, 4, 99,
    127, 121, 107,
];

fn rand_gf_element(rng: &mut SmallRng) -> Additive {
    Additive((rng.next_u32() & 0xFFFF) as u16)
}

#[test]
fn f2e16_flt_roundtrip_small() {
    const N: usize = 16;
    let expected: Vec<Additive> =
        [1_u16, 2, 3, 5, 8, 13, 21, 44, 65, 0, 0xFFFF, 2, 3, 5, 7, 11].iter().map(|x| Additive(*x)).collect();
    let tables = FieldTables::new(Field::F2e16).unwrap();

    let mut data = expected.clone();

    afft(&tables, &mut data, N, N / 4);

    inverse_afft(&tables, &mut data, N, N / 4);

    assert_eq!(data, expected);
}

#[test]
fn novel_poly_basis_flt_roundtrip_small() {
    const N: usize = 16;
    let expected: Vec<Additive> =
        [1_u16, 2, 3, 5, 8, 13, 21, 44, 65, 0, 0xFFFF, 2, 3, 5, 7, 11].iter().map(|x| Additive(*x)).collect();
    let tables = FieldTables::new(Field::F2e16).unwrap();

    let mut data = expected.clone();

    afft(&tables, &mut data, N, N / 4);

    println!("novel basis(rust):");
    data.iter().for_each(|sym| {
        println!(" {:04X}", sym.0);
    });

    inverse_afft(&tables, &mut data, N, N / 4);
    assert_eq!(data, expected);
}

#[test]
fn inc_afft_flt_back_and_forth() {
    let tables = FieldTables::new(Field::F2e16).unwrap();
    let mut rng = SmallRng::from_seed(SMALL_RNG_SEED);

    const N: usize = 128;
    for (k, n) in &[(N / 4, N)] {
        let mut data = (0..*n).into_iter().map(|_| rand_gf_element(&mut rng)).collect::<Vec<Additive>>();
        let expected = data.clone();

        afft(&tables, &mut data, *n, *k);

        // make sure something is done
        assert!(data.iter().zip(expected.iter()).filter(|(a, b)| { a != b }).count() > 0);

        inverse_afft(&tables, &mut data, *n, *k);

        assert_eq!(data, expected);
    }
}

#[test]
fn novel_poly_basis_flt_back_and_forth() {
    const N: usize = 128;
    let tables = FieldTables::new(Field::F2e16).unwrap();
    let mut rng = SmallRng::from_seed(SMALL_RNG_SEED);

    let mut data = (0..N).into_iter().map(|_x| rand_gf_element(&mut rng)).collect::<Vec<Additive>>();
    let expected = data.clone();

    afft(&tables, &mut data, N, N / 4);

    // make sure something is done
    assert!(data.iter().zip(expected.iter()).filter(|(a, b)| { a != b }).count() > 0);

    inverse_afft(&tables, &mut data, N, N / 4);

    assert_eq!(data, expected);
}

#[test]
fn inverse_then_forward_is_the_identity_too() {
    let tables = FieldTables::new(Field::F2e16).unwrap();
    let mut rng = SmallRng::from_seed(SMALL_RNG_SEED);
    for (size, index) in [(1usize, 0usize), (2, 0), (8, 8), (64, 192), (256, 65280)] {
        let mut data = (0..size + 3).map(|_| rand_gf_element(&mut rng)).collect::<Vec<Additive>>();
        let expected = data.clone();
        inverse_afft(&tables, &mut data, size, index);
        assert_eq!(&data[size..], &expected[size..]);
        afft(&tables, &mut data, size, index);
        assert_eq!(data, expected);
    }
}

#[test]
fn sub_encode_decode() {
    let tables = FieldTables::new(Field::F2e16).unwrap();
    let mut rng = SmallRng::from_seed(SMALL_RNG_SEED);

    const N: usize = 32;
    const K: usize = 4;

    const K2: usize = K * 2;
    let mut data = [0u8; K2];
    rng.fill_bytes(&mut data[..]);

    let codewords = encode_sub(&tables, &data, N, K).unwrap();
    let mut codewords = codewords.into_iter().map(|x| Some(x)).collect::<Vec<_>>();
    assert_eq!(codewords.len(), N);
    codewords[0] = None;
    codewords[1] = None;
    codewords[2] = None;
    codewords[N - 3] = None;
    codewords[N - 2] = None;
    codewords[N - 1] = None;

    let erasures = codewords.iter().map(|x| x.is_none()).collect::<Vec<bool>>();

    // Evaluate error locator polynomial only once
    let mut error_poly_in_log = vec![Logarithm(0); FIELD_SIZE];
    eval_error_polynomial(&tables, &erasures[..], &mut error_poly_in_log, FIELD_SIZE);

    let reconstructed = reconstruct_sub(&tables, &codewords[..], &erasures[..], N, K, &error_poly_in_log).unwrap();
    assert_eq!(&data[..], &reconstructed[..K2]);
}

#[test]
fn ported_c_test() {
    const N: usize = 256;
    const K: usize = 8;
    let tables = FieldTables::new(Field::F2e16).unwrap();

    //-----------Generating message----------
    //message array
    let mut data = vec![Additive(0); N];

    for i in 0..K {
        //filled with random numbers
        data[i] = Additive((i * i % ONEMASK as usize) as u16);
    }

    assert_eq!(data.len(), N);

    println!("Message(Last n-k are zeros): ");
    for i in 0..K {
        println!("{:04x} ", data[i].0);
    }

    //---------encoding----------
    let mut codeword = vec![Additive(0); N];

    encode_low(&tables, &data, K, &mut codeword, N);

    //--------erasure simulation---------

    // Array indicating erasures
    let mut erasure = [false; N];

    let erasures_iv = (0..(N - K)).into_iter().collect::<Vec<usize>>();
    assert_eq!(erasures_iv.len(), N - K);

    for i in erasures_iv {
        //erasure codeword symbols
        erasure[i] = true;
        codeword[i] = Additive(0);
    }

    //---------Erasure decoding----------------
    let mut log_walsh2: Vec<Logarithm> = vec![Logarithm(0); FIELD_SIZE];

    eval_error_polynomial(&tables, &erasure[..], &mut log_walsh2, FIELD_SIZE);

    decode_main(&tables, &mut codeword, K, &erasure[..], &log_walsh2[..], N);

    println!("Decoded result:");
    for i in 0..N {
        // the data word plus a few more
        println!("{:04x} ", codeword[i].0);
    }

    for i in 0..K {
        //Check the correctness of the result
        if data[i] != codeword[i] {
            panic!("Decoding ERROR! value at [{}] should={:04x} vs is={:04x}", i, data[i].0, codeword[i].0);
        }
    }
}

#[test]
fn b_is_one() {
    let tables = FieldTables::new(Field::F2e16).unwrap();
    let test_b = |b: Logarithm| {
        for x in 0..FIELD_SIZE {
            let x = Additive(x as u16);
            assert_eq!(x, tables.mul(x, b));
        }
    };
    let mut old_b = None;
    for i in (0..FIELD_SIZE).into_iter().step_by(256) {
        let b = tables.get_b(i >> 1);
        if old_b != Some(b) {
            test_b(Logarithm(ONEMASK - b.0));
            test_b(b);
            old_b = Some(b);
        }
    }
}

#[test]
fn twisted_derivative_is_the_plain_one_in_this_field() {
    let tables = FieldTables::new(Field::F2e16).unwrap();
    let mut rng = SmallRng::from_seed(SMALL_RNG_SEED);
    for n in [2usize, 4, 16, 128] {
        let mut plain = (0..n).map(|_| rand_gf_element(&mut rng)).collect::<Vec<Additive>>();
        let mut twisted = plain.clone();
        formal_derivative(Field::F2e16, &mut plain, n);
        tweaked_formal_derivative(&tables, &mut twisted, n);
        assert_eq!(plain, twisted);
    }
}

#[test]
fn formal_derivative_on_small_vectors() {
    // size 1: nothing before position 1 to fold, nothing behind to wrap in.
    let mut one = vec![Additive(7)];
    formal_derivative(Field::F2e16, &mut one, 1);
    assert_eq!(one, vec![Additive(7)]);
    // size 2: element 0 takes up element 1.
    let mut two = vec![Additive(1), Additive(2)];
    formal_derivative(Field::F2e16, &mut two, 2);
    assert_eq!(two, vec![Additive(3), Additive(2)]);
    // size 4: steps 1, 2, 3 with spans 1, 2, 1.
    let mut four = vec![Additive(1), Additive(2), Additive(4), Additive(8)];
    formal_derivative(Field::F2e16, &mut four, 4);
    assert_eq!(four, vec![Additive(1 ^ 2 ^ 4), Additive(2 ^ 8), Additive(4 ^ 8), Additive(8)]);
    // size 2 in a longer vector: the wrap steps at distance 2 and 4 fold the tail in.
    let mut tail = vec![Additive(1), Additive(2), Additive(4), Additive(8), Additive(16), Additive(32)];
    formal_derivative(Field::F2e16, &mut tail, 2);
    assert_eq!(
        tail,
        vec![Additive(1 ^ 2 ^ 4 ^ 16), Additive(2 ^ 8 ^ 32), Additive(4), Additive(8), Additive(16), Additive(32)]
    );
    assert_eq!(lowest_set_bit(1), 1);
    assert_eq!(lowest_set_bit(12), 4);
    assert_eq!(lowest_set_bit(1 << 40), 1 << 40);
}

#[test]
fn walsh_on_small_vectors() {
    let mut x = vec![Logarithm(1), Logarithm(2), Logarithm(3), Logarithm(4), Logarithm(9)];
    walsh(Field::F2e16, &mut x, 4);
    // Sums and differences modulo 65535, with 65535 itself for a zero that a difference leaves.
    assert_eq!(x, vec![Logarithm(10), Logarithm(65533), Logarithm(65531), Logarithm(65535), Logarithm(9)]);
    let mut y = vec![Logarithm(5)];
    walsh(Field::F2e16, &mut y, 1);
    assert_eq!(y, vec![Logarithm(5)]);
    // Twice the transform of size 4 scales by 4.
    let mut z = vec![Logarithm(1), Logarithm(2), Logarithm(3), Logarithm(4)];
    walsh(Field::F2e16, &mut z, 4);
    walsh(Field::F2e16, &mut z, 4);
    assert_eq!(z.iter().map(|l| l.0 % 65535).collect::<Vec<u16>>(), vec![4, 8, 12, 16]);
}

#[test]
fn walsh_twice_scales_by_the_size() {
    let mut rng = SmallRng::from_seed(SMALL_RNG_SEED);
    let untouched = (0..FIELD_SIZE).map(|_| Logarithm((rng.next_u32() & 0xFFFF) as u16)).collect::<Vec<Logarithm>>();
    let mut x = untouched.clone();
    walsh(Field::F2e16, &mut x, FIELD_SIZE);
    walsh(Field::F2e16, &mut x, FIELD_SIZE);
    for (a, b) in untouched.iter().zip(x.iter()) {
        assert_eq!((a.0 as u64 * FIELD_SIZE as u64) % 65535, b.0 as u64 % 65535);
    }
}

#[test]
fn columns_are_packed_big_endian_and_padded_with_zeros() {
    let tables = FieldTables::new(Field::F2e16).unwrap();
    // three payload bytes in a code with n = 4, k = 2
    let codeword = encode_sub(&tables, &[0x12, 0x34, 0x56], 4, 2).unwrap();
    assert_eq!(codeword.len(), 4);
    assert_eq!(codeword[0], Additive(0x1234));
    assert_eq!(codeword[1], Additive(0x5600));
    // the parity symbols are those of the padded payload
    let same = encode_sub(&tables, &[0x12, 0x34, 0x56, 0x00], 4, 2).unwrap();
    assert_eq!(codeword, same);
    let other = encode_sub(&tables, &[0x12, 0x34, 0x57], 4, 2).unwrap();
    assert_ne!(codeword[2], other[2]);
    // an empty column is a column of zeros
    assert_eq!(encode_sub(&tables, &[], 4, 2).unwrap(), vec![Additive(0); 4]);
}

#[test]
fn received_payload_symbols_are_returned_as_received() {
    let tables = FieldTables::new(Field::F2e16).unwrap();
    // what was received need not be a codeword: the payload places are handed back as they came
    let mut codewords: Vec<Option<Additive>> = (0..8).map(|i| Some(Additive(0x0101 * (i + 1) as u16))).collect();
    codewords[5] = None;
    codewords[6] = None;
    let erasures: Vec<bool> = codewords.iter().map(|c| c.is_none()).collect();
    let mut error_poly = vec![Logarithm(0); FIELD_SIZE];
    eval_error_polynomial(&tables, &erasures[..], &mut error_poly, FIELD_SIZE);
    let bytes = reconstruct_sub(&tables, &codewords[..], &erasures[..], 8, 2, &error_poly).unwrap();
    assert_eq!(bytes, vec![0x01, 0x01, 0x02, 0x02]);
}

#[test]
fn error_polynomial_of_no_erasures() {
    let tables = FieldTables::new(Field::F2e16).unwrap();
    let erasures = vec![false; 16];
    let mut error_poly = vec![Logarithm(5); FIELD_SIZE];
    eval_error_polynomial(&tables, &erasures[..], &mut error_poly, FIELD_SIZE);
    // the empty product: every value is one, whose logarithm is the residue zero
    assert!(error_poly.iter().all(|l| l.0 % 65535 == 0));
}
