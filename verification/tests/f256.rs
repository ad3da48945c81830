use reed_solomon_novelpoly::afft::{afft, inverse_afft};
use reed_solomon_novelpoly::availability_util::{encode, reconstruct};
use reed_solomon_novelpoly::decode::{decode_main, eval_error_polynomial, reconstruct_sub};
use reed_solomon_novelpoly::derivative::{formal_derivative, tweaked_formal_derivative};
use reed_solomon_novelpoly::encode::{encode_low, encode_sub};
use reed_solomon_novelpoly::errors::Error;
use reed_solomon_novelpoly::f256;
use reed_solomon_novelpoly::field::{Additive, Field, Logarithm};
use reed_solomon_novelpoly::novel_poly_basis::ReedSolomon;
use reed_solomon_novelpoly::params::CodeParams;
use reed_solomon_novelpoly::shard::Shard;
use reed_solomon_novelpoly::tables::FieldTables;
use reed_solomon_novelpoly::walsh::walsh;
use reed_solomon_novelpoly::wrapped_shard::WrappedShard;

fn payload(len: usize) -> Vec<u8> {
    (0..len).map(|i| (i * 13 + 5) as u8).collect()
}

#[test]
fn constants_of_the_small_field() {
    assert_eq!(Field::F256.bits(), 8);
    assert_eq!(Field::F256.size(), 256);
    assert_eq!(Field::F256.onemask(), 255);
    assert_eq!(Field::F256.generator(), f256::GENERATOR);
    assert_eq!(Field::F256.base_final(), 230);
    assert_eq!(Field::F256.field_bytes(), 1);
    assert_eq!(Field::F2e16.bits(), 16);
    assert_eq!(Field::F2e16.size(), 65536);
    assert_eq!(Field::F2e16.onemask(), 65535);
    assert_eq!(Field::F2e16.generator(), 0x2D);
    assert_eq!(Field::F2e16.base_final(), 39198);
    assert_eq!(Field::F2e16.field_bytes(), 2);
    assert_eq!(Field::F256.index(0x1234), 0x34);
    assert_eq!(Field::F2e16.index(0x1234), 0x1234);
    assert_eq!(Field::F256.fold(255 + 255), 255);
    assert_eq!(Field::F256.fold(256), 1);
    assert_eq!(Field::F256.fold(7), 7);
    assert_eq!(Logarithm(200).add(Logarithm(100), Field::F256), Logarithm(45));
    assert_eq!(Logarithm(100).sub(Logarithm(200), Field::F256), Logarithm(155));
}

#[test]
fn small_tables_are_inverse_of_each_other() {
    let tables = FieldTables::new(Field::F256).unwrap();
    assert_eq!(tables.field(), Field::F256);
    for x in 1..=255u16 {
        assert!(tables.get_log_table(x) < 255);
        assert_eq!(tables.get_exp_table(tables.get_log_table(x)), x);
    }
    for l in 0..255u16 {
        assert_eq!(tables.get_log_table(tables.get_exp_table(l)), l);
    }
    assert_eq!(tables.get_exp_table(255), tables.get_exp_table(0));
    assert_eq!(tables.get_log_table(0), 255);
    let base: Vec<u16> = (0..8).map(|i| tables.get_base_table(i)).collect();
    assert_eq!(base, vec![1, 214, 152, 146, 86, 200, 88, 230]);
    // the twist of the formal derivative is trivial in this field too
    for i in 0..128 {
        assert_eq!(tables.get_b(i), Logarithm(0));
    }
    // the element 1 is the one of the field
    for x in 0..256u16 {
        assert_eq!(tables.mul(Additive(x), tables.to_multiplier(Additive(1))), Additive(x));
    }
    // GF(16) lies in the first 16 elements
    for i in 1..16u16 {
        for j in 0..16u16 {
            assert!(tables.mul(Additive(j), tables.to_multiplier(Additive(i))).0 < 16);
        }
    }
}

#[test]
fn small_field_transforms_undo_each_other() {
    let tables = FieldTables::new(Field::F256).unwrap();
    for (size, index) in [(1usize, 0usize), (2, 6), (16, 4), (64, 192), (256, 0)] {
        let expected: Vec<Additive> = (0..size + 2).map(|i| Additive(((i * 37 + 11) % 256) as u16)).collect();
        let mut data = expected.clone();
        afft(&tables, &mut data, size, index);
        if size >= 16 {
            assert_ne!(data, expected);
        }
        inverse_afft(&tables, &mut data, size, index);
        assert_eq!(data, expected);
        inverse_afft(&tables, &mut data, size, index);
        afft(&tables, &mut data, size, index);
        assert_eq!(data, expected);
    }
}

#[test]
fn small_field_walsh_twice_is_the_identity_on_residues() {
    let untouched: Vec<Logarithm> = (0..256).map(|i| Logarithm(((i * 91 + 17) % 256) as u16)).collect();
    let mut x = untouched.clone();
    walsh(Field::F256, &mut x, 256);
    assert!(x.iter().all(|l| l.0 <= 255));
    walsh(Field::F256, &mut x, 256);
    for (a, b) in untouched.iter().zip(x.iter()) {
        assert_eq!(a.0 % 255, b.0 % 255);
    }
    let mut y = vec![Logarithm(1), Logarithm(2), Logarithm(3), Logarithm(4)];
    walsh(Field::F256, &mut y, 4);
    assert_eq!(y, vec![Logarithm(10), Logarithm(253), Logarithm(251), Logarithm(255)]);
}

#[test]
fn small_field_columns_round_trip() {
    let tables = FieldTables::new(Field::F256).unwrap();
    for (n, k) in [(2usize, 1usize), (4, 2), (16, 4), (256, 64), (256, 8)] {
        let bytes = payload(k);
        let codeword = encode_sub(&tables, &bytes, n, k).unwrap();
        assert_eq!(codeword.len(), n);
        for i in 0..k {
            assert_eq!(codeword[i], Additive(bytes[i] as u16));
        }
        // keep the last k symbols only
        let received: Vec<Option<Additive>> =
            codeword.iter().enumerate().map(|(i, c)| if i >= n - k { Some(*c) } else { None }).collect();
        let erasures: Vec<bool> = received.iter().map(|c| c.is_none()).collect();
        let mut error_poly = vec![Logarithm(0); 256];
        eval_error_polynomial(&tables, &erasures[..], &mut error_poly, 256);
        let recovered = reconstruct_sub(&tables, &received[..], &erasures[..], n, k, &error_poly).unwrap();
        assert_eq!(recovered, bytes, "n={} k={}", n, k);

        let mut dense: Vec<Additive> = received.iter().map(|c| c.unwrap_or(Additive(0))).collect();
        decode_main(&tables, &mut dense, k, &erasures[..], &error_poly[..], n);
        assert_eq!(&dense[..k], &codeword[..k]);

        let data: Vec<Additive> = codeword[..k].iter().copied().chain(std::iter::repeat(Additive(0)).take(n - k)).collect();
        let mut again = vec![Additive(0); n];
        encode_low(&tables, &data, k, &mut again, n);
        assert_eq!(again, codeword);
    }
}

#[test]
fn small_field_derivative() {
    let tables = FieldTables::new(Field::F256).unwrap();
    let mut plain: Vec<Additive> = (0..16).map(|i| Additive(((i * 17 + 3) % 256) as u16)).collect();
    let mut twisted = plain.clone();
    formal_derivative(Field::F256, &mut plain, 16);
    tweaked_formal_derivative(&tables, &mut twisted, 16);
    assert_eq!(plain, twisted);
    // the wrap steps stop at the size of the field: distance 256 is not folded in
    let mut small: Vec<Additive> = (0..600).map(|i| Additive((i % 251) as u16)).collect();
    formal_derivative(Field::F256, &mut small, 128);
    let mut wide: Vec<Additive> = (0..600).map(|i| Additive((i % 251) as u16)).collect();
    formal_derivative(Field::F2e16, &mut wide, 128);
    assert_eq!(wide[0].0, small[0].0 ^ (256 % 251) ^ (512 % 251));
}

#[test]
fn small_field_round_trips() {
    let tables = FieldTables::new(Field::F256).unwrap();
    for (len, n_req) in [(1usize, 2usize), (2, 3), (9, 6), (64, 100), (1000, 256), (5, 200)] {
        let bytes = payload(len);
        let params = CodeParams::derive_for(Field::F256, n_req).unwrap();
        let shards = encode::<Vec<u8>>(&tables, &bytes, n_req).unwrap();
        assert_eq!(shards.len(), n_req);
        let columns = (len + params.k - 1) / params.k;
        for shard in &shards {
            assert_eq!(Shard::len(shard), columns);
        }
        // the payload shards hold the payload, one byte to a symbol
        for i in 0..params.k {
            for col in 0..columns {
                let at = col * params.k + i;
                assert_eq!(shards[i][col], if at < len { bytes[at] } else { 0 });
            }
        }
        // all shards
        let all: Vec<Option<Vec<u8>>> = shards.iter().cloned().map(Some).collect();
        let reconstructed = reconstruct(&tables, all, n_req).unwrap();
        assert_eq!(reconstructed.len(), columns * params.k);
        assert_eq!(&reconstructed[..len], &bytes[..]);
        assert!(reconstructed[len..].iter().all(|b| *b == 0));
        // the last k shards only
        let few: Vec<Option<Vec<u8>>> =
            shards.iter().cloned().enumerate().map(|(i, s)| if i + params.k >= n_req { Some(s) } else { None }).collect();
        let reconstructed = reconstruct(&tables, few, n_req).unwrap();
        assert_eq!(&reconstructed[..len], &bytes[..]);
    }
}

#[test]
fn small_field_erasure_tolerance_for_every_choice_of_four_of_six_shards() {
    let tables = FieldTables::new(Field::F256).unwrap();
    // n_req = 6: n = 8, k = 2
    let bytes = payload(7);
    let shards = encode::<Vec<u8>>(&tables, &bytes, 6).unwrap();
    for mask in 0u32..64 {
        if mask.count_ones() > 4 {
            continue;
        }
        let received: Vec<Option<Vec<u8>>> =
            shards.iter().enumerate().map(|(i, s)| if mask & (1 << i) != 0 { None } else { Some(s.clone()) }).collect();
        let reconstructed = reconstruct(&tables, received, 6).unwrap();
        assert_eq!(&reconstructed[..7], &bytes[..], "mask {:#b}", mask);
    }
}

#[test]
fn small_field_limits() {
    let tables = FieldTables::new(Field::F256).unwrap();
    assert_eq!(ReedSolomon::new(&tables, 257, 3).err(), Some(Error::WantedShardCountTooHigh(257)));
    assert_eq!(CodeParams::derive_for(Field::F256, 257), Err(Error::WantedShardCountTooHigh(257)));
    assert_eq!(CodeParams::derive_for(Field::F256, 256), Ok(CodeParams { n: 256, k: 64, real_n: 256 }));
    assert_eq!(encode::<Vec<u8>>(&tables, &[1, 2, 3], 300).err(), Some(Error::WantedShardCountTooHigh(300)));
    let rs = ReedSolomon::new(&tables, 256, 128).unwrap();
    assert_eq!((rs.get_code_length(), rs.get_number_of_data_shards()), (256, 128));
    // one byte to a symbol: 100 payload bytes over 128 payload shards fit into one column
    assert_eq!(rs.shard_len(100), 1);
    assert_eq!(rs.shard_len(129), 2);
    assert_eq!(rs.tables().field(), Field::F256);
    // a shard of odd length is fine where a symbol is one byte
    let shards = encode::<Vec<u8>>(&tables, &payload(3), 4).unwrap();
    assert_eq!(Shard::len(&shards[0]), 2);
    let shards = encode::<Vec<u8>>(&tables, &payload(5), 4).unwrap();
    assert_eq!(Shard::len(&shards[0]), 3);
    let received: Vec<Option<Vec<u8>>> = shards.into_iter().map(Some).collect();
    assert_eq!(&reconstruct(&tables, received, 4).unwrap()[..5], &payload(5)[..]);
    // a wrapped shard rounds its length up to an even number of bytes
    let wrapped = encode::<WrappedShard>(&tables, &payload(5), 4).unwrap();
    assert_eq!(wrapped[0].len(), 4);
    assert_eq!(wrapped[0].get_byte(3), 0);
}
