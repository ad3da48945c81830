use rand::rngs::SmallRng;
use rand::SeedableRng;
use reed_solomon_novelpoly::field::Field;
use reed_solomon_novelpoly::availability_util::{encode, reconstruct};
use reed_solomon_novelpoly::errors::Error;
use reed_solomon_novelpoly::novel_poly_basis::ReedSolomon;
use reed_solomon_novelpoly::params::CodeParams;
use reed_solomon_novelpoly::shard::Shard;
use reed_solomon_novelpoly::tables::FieldTables;
use reed_solomon_novelpoly::tester::{
    deterministic_drop_shards, deterministic_drop_shards_clone, drop_indices, drop_random_max, SMALL_RNG_SEED,
};
use reed_solomon_novelpoly::wrapped_shard::WrappedShard;

/// A shard that keeps whatever bytes it is given, odd lengths too.
type RawShard = Vec<u8>;

fn payload(len: usize) -> Vec<u8> {
    (0..len).map(|i| (i * 7 + 3) as u8).collect()
}

#[test]
fn wrapped_shard_pads_odd_lengths() {
    assert_eq!(WrappedShard::new(vec![1, 2, 3]).into_inner(), vec![1, 2, 3, 0]);
    assert_eq!(WrappedShard::new(vec![1, 2]).into_inner(), vec![1, 2]);
    assert_eq!(WrappedShard::new(vec![]).into_inner(), Vec::<u8>::new());
    let mut shard = WrappedShard::new(vec![1, 2, 3, 4]);
    assert_eq!(shard.len(), 4);
    assert_eq!(shard.get_chunk(1), [3, 4]);
    shard.set_chunk(0, [9, 8]);
    assert_eq!(shard.as_bytes(), &[9, 8, 3, 4]);
    assert_eq!(shard.get_byte(2), 3);
    assert_eq!(<WrappedShard as Shard>::from_vec(vec![5]).into_inner(), vec![5, 0]);
}

#[test]
fn coder_parameters() {
    let tables = FieldTables::new(Field::F2e16).unwrap();
    assert_eq!(ReedSolomon::new(&tables, 0, 1).err(), Some(Error::WantedShardCountTooLow(0)));
    assert_eq!(ReedSolomon::new(&tables, 1, 1).err(), Some(Error::WantedShardCountTooLow(1)));
    assert_eq!(ReedSolomon::new(&tables, 1, 0).err(), Some(Error::WantedShardCountTooLow(1)));
    assert_eq!(ReedSolomon::new(&tables, 10, 0).err(), Some(Error::WantedPayloadShardCountTooLow(0)));
    assert_eq!(ReedSolomon::new(&tables, 65537, 3).err(), Some(Error::WantedShardCountTooHigh(65537)));
    assert_eq!(ReedSolomon::new(&tables, usize::MAX, 3).err(), Some(Error::WantedShardCountTooHigh(usize::MAX)));
    // whatever fits the field is taken, the payload shards rounded down to a power of two
    let taken: [(usize, usize, usize, usize); 6] =
        [(2, 2, 2, 2), (4, 4, 4, 4), (5, 8, 8, 8), (4, 3, 4, 2), (2, 9, 2, 8), (65536, 70000, 65536, 65536)];
    for (n, k, code_length, data_shards) in taken {
        let rs = ReedSolomon::new(&tables, n, k).unwrap();
        assert_eq!(rs.get_number_of_all_shards(), n);
        assert_eq!(rs.get_code_length(), code_length);
        assert_eq!(rs.get_number_of_data_shards(), data_shards);
        assert!(rs.get_number_of_data_shards() <= k);
    }
    let small = FieldTables::new(Field::F256).unwrap();
    assert_eq!(ReedSolomon::new(&small, 256, 256).map(|rs| rs.get_number_of_data_shards()).ok(), Some(256));
    assert_eq!(ReedSolomon::new(&small, 257, 1).err(), Some(Error::WantedShardCountTooHigh(257)));

    let rs = ReedSolomon::new(&tables, 100, 34).unwrap();
    assert_eq!(rs.get_number_of_all_shards(), 100);
    assert_eq!(rs.get_number_of_data_shards(), 32);
    assert_eq!(rs.get_code_length(), 128);
    let rs = ReedSolomon::new(&tables, 65536, 65536 / 2).unwrap();
    assert_eq!(rs.get_code_length(), 65536);
    assert_eq!(rs.get_number_of_data_shards(), 32768);
    let rs = ReedSolomon::new(&tables, 2, 1).unwrap();
    assert_eq!((rs.get_code_length(), rs.get_number_of_data_shards()), (2, 1));
    let rs = CodeParams { n: 16, k: 4, real_n: 5 }.make_encoder(&tables);
    assert_eq!((rs.get_code_length(), rs.get_number_of_data_shards(), rs.get_number_of_all_shards()), (16, 4, 5));
}

#[test]
fn k_n_construction_of_the_coder() {
    let tables = FieldTables::new(Field::F2e16).unwrap();
    // skip the two, it's a special case
    for validator_count in 3_usize..=8200 {
        let rs = ReedSolomon::new(&tables, validator_count, (validator_count + 2) / 3).unwrap();

        assert_eq!(rs.get_number_of_all_shards(), validator_count);
        assert!(validator_count <= rs.get_code_length());
        assert!(validator_count / 3 >= rs.get_number_of_data_shards() - 1);
        assert!(validator_count >= (rs.get_number_of_data_shards() - 1) * 3);
    }
}

#[test]
fn encode_rejects_what_it_cannot_encode() {
    let tables = FieldTables::new(Field::F2e16).unwrap();
    assert_eq!(encode::<WrappedShard>(&tables, &[], 2003).err(), Some(Error::PayloadSizeIsZero));
    assert_eq!(encode::<WrappedShard>(&tables, &[1, 2, 3], 1).err(), Some(Error::WantedShardCountTooLow(1)));
    assert_eq!(encode::<WrappedShard>(&tables, &[1, 2, 3], 70000).err(), Some(Error::WantedShardCountTooHigh(70000)));
    // the parameters are looked at first
    assert_eq!(encode::<WrappedShard>(&tables, &[], 1).err(), Some(Error::WantedShardCountTooLow(1)));
}

#[test]
fn payload_shards_hold_the_payload() {
    let tables = FieldTables::new(Field::F2e16).unwrap();
    // n = 16, k = 4: columns of 8 payload bytes
    let bytes = payload(21);
    let shards = encode::<WrappedShard>(&tables, &bytes, 10).unwrap();
    assert_eq!(shards.len(), 10);
    // 21 bytes are 11 symbols, which take 3 columns of 4 payload symbols
    for shard in &shards {
        assert_eq!(shard.len(), 6);
    }
    let mut padded = bytes.clone();
    padded.resize(24, 0);
    for i in 0..4 {
        for col in 0..3 {
            let at = col * 8 + 2 * i;
            assert_eq!(shards[i].get_chunk(col), [padded[at], padded[at + 1]]);
        }
    }
    // the parity shards differ from shard to shard
    assert_ne!(shards[4], shards[5]);
}

#[test]
fn round_trip_of_all_shards() {
    let tables = FieldTables::new(Field::F2e16).unwrap();
    for (len, n_req) in [(1usize, 2usize), (2, 2), (16, 10), (17, 10), (100, 4), (1, 100), (333, 65)] {
        let bytes = payload(len);
        let shards = encode::<WrappedShard>(&tables, &bytes, n_req).unwrap();
        assert_eq!(shards.len(), n_req);
        let params = CodeParams::derive_from_third_plus_epsilon(n_req).unwrap();
        let received: Vec<Option<WrappedShard>> = shards.into_iter().map(Some).collect();
        let reconstructed = reconstruct(&tables, received, n_req).unwrap();
        let columns = ((len + 1) / 2 + params.k - 1) / params.k;
        assert_eq!(reconstructed.len(), columns * 2 * params.k);
        assert_eq!(&reconstructed[..len], &bytes[..]);
        assert!(reconstructed[len..].iter().all(|b| *b == 0));
    }
}

#[test]
fn round_trip_without_the_parity_shards() {
    let tables = FieldTables::new(Field::F2e16).unwrap();
    let bytes = payload(50);
    let params = CodeParams::derive_from_third_plus_epsilon(20).unwrap();
    let shards = encode::<WrappedShard>(&tables, &bytes, 20).unwrap();
    let received: Vec<Option<WrappedShard>> =
        shards.into_iter().enumerate().map(|(i, s)| if i < params.k { Some(s) } else { None }).collect();
    let reconstructed = reconstruct(&tables, received, 20).unwrap();
    assert_eq!(&reconstructed[..50], &bytes[..]);
}

#[test]
fn round_trip_without_the_payload_shards() {
    let tables = FieldTables::new(Field::F2e16).unwrap();
    let bytes = payload(50);
    let params = CodeParams::derive_from_third_plus_epsilon(20).unwrap();
    assert_eq!((params.n, params.k), (32, 4));
    let shards = encode::<WrappedShard>(&tables, &bytes, 20).unwrap();
    // any 4 shards do: take the last 4
    let received: Vec<Option<WrappedShard>> =
        shards.into_iter().enumerate().map(|(i, s)| if i >= 16 { Some(s) } else { None }).collect();
    let reconstructed = reconstruct(&tables, received, 20).unwrap();
    assert_eq!(&reconstructed[..50], &bytes[..]);
    assert!(reconstructed[50..].iter().all(|b| *b == 0));
}

#[test]
fn erasure_tolerance_for_every_choice_of_four_of_six_shards() {
    let tables = FieldTables::new(Field::F2e16).unwrap();
    // n_req = 6: n = 8, k = 2
    let bytes = payload(9);
    let shards = encode::<WrappedShard>(&tables, &bytes, 6).unwrap();
    for mask in 0u32..64 {
        if mask.count_ones() > 4 {
            continue;
        }
        let received: Vec<Option<WrappedShard>> =
            shards.iter().enumerate().map(|(i, s)| if mask & (1 << i) != 0 { None } else { Some(s.clone()) }).collect();
        let reconstructed = reconstruct(&tables, received, 6).unwrap();
        assert_eq!(&reconstructed[..9], &bytes[..], "mask {:#b}", mask);
    }
}

#[test]
fn reconstruct_rejects_what_it_cannot_reconstruct() {
    let tables = FieldTables::new(Field::F2e16).unwrap();
    let bytes = payload(40);
    // n_req = 10: n = 16, k = 4
    let shards = encode::<RawShard>(&tables, &bytes, 10).unwrap();
    let all: Vec<Option<RawShard>> = shards.into_iter().map(Some).collect();

    let none: Vec<Option<RawShard>> = vec![None; 10];
    assert_eq!(reconstruct(&tables, none, 10).err(), Some(Error::NeedMoreShards { have: 0, min: 4, all: 16 }));
    let empty: Vec<Option<RawShard>> = vec![];
    assert_eq!(reconstruct(&tables, empty, 10).err(), Some(Error::NeedMoreShards { have: 0, min: 4, all: 16 }));

    let mut few = all.clone();
    for i in 0..7 {
        few[i] = None;
    }
    assert_eq!(reconstruct(&tables, few, 10).err(), Some(Error::NeedMoreShards { have: 3, min: 4, all: 16 }));

    let mut zero = all.clone();
    zero[0] = None;
    zero[1] = Some(vec![]);
    assert_eq!(reconstruct(&tables, zero, 10).err(), Some(Error::ZeroLengthShards));

    let mut odd = all.clone();
    odd[0] = Some(vec![1, 2, 3]);
    assert_eq!(
        reconstruct(&tables, odd, 10).err(),
        Some(Error::UndivisableShardLength { shard_length: 3, field_bytes: 2 })
    );

    let mut uneven = all.clone();
    uneven[5] = Some(vec![1, 2]);
    uneven[6] = Some(vec![1, 2, 3, 4]);
    let first = Shard::len(all[0].as_ref().unwrap());
    assert_eq!(
        reconstruct(&tables, uneven, 10).err(),
        Some(Error::InconsistentShardLengths { first, other: 2 })
    );

    // the lengths are looked at before the shards are counted
    let mut few_and_uneven: Vec<Option<RawShard>> = vec![None; 10];
    few_and_uneven[2] = Some(vec![1, 2]);
    few_and_uneven[3] = Some(vec![1, 2, 3, 4]);
    assert_eq!(
        reconstruct(&tables, few_and_uneven, 10).err(),
        Some(Error::InconsistentShardLengths { first: 2, other: 4 })
    );

    assert_eq!(reconstruct(&tables, all.clone(), 1).err(), Some(Error::WantedShardCountTooLow(1)));
    assert_eq!(reconstruct(&tables, all.clone(), 70000).err(), Some(Error::WantedShardCountTooHigh(70000)));
    assert_eq!(&reconstruct(&tables, all, 10).unwrap()[..40], &bytes[..]);
}

#[test]
fn shards_behind_the_codeword_are_left_out() {
    let tables = FieldTables::new(Field::F2e16).unwrap();
    let bytes = payload(12);
    // n_req = 4: n = 4, k = 2
    let shards = encode::<WrappedShard>(&tables, &bytes, 4).unwrap();
    let mut received: Vec<Option<WrappedShard>> = shards.into_iter().map(Some).collect();
    received.push(Some(WrappedShard::new(vec![0xAA; 6])));
    received.push(None);
    assert_eq!(&reconstruct(&tables, received, 4).unwrap()[..12], &bytes[..]);
}

#[test]
fn deterministic_drops() {
    let mut rng = SmallRng::from_seed(SMALL_RNG_SEED);
    let mut codewords: Vec<Option<u8>> = (0..10).map(Some).collect();
    // n = 16, k = 4: half of the 12 spare shards in front, and those of the last 6 places that exist
    let dropped = deterministic_drop_shards(&mut codewords, 16, 4, &mut rng);
    assert_eq!(dropped, vec![0, 1, 2, 3, 4, 5]);
    assert_eq!(codewords, vec![None, None, None, None, None, None, Some(6), Some(7), Some(8), Some(9)]);

    let mut codewords: Vec<Option<u8>> = (0..16).map(Some).collect();
    let dropped = deterministic_drop_shards(&mut codewords, 16, 4, &mut rng);
    assert_eq!(dropped, vec![0, 1, 2, 3, 4, 5, 10, 11, 12, 13, 14, 15]);
    assert_eq!(codewords.iter().filter(|c| c.is_some()).count(), 4);

    let mut codewords: Vec<Option<u8>> = (0..12).map(Some).collect();
    let dropped = deterministic_drop_shards(&mut codewords, 16, 5, &mut rng);
    assert_eq!(dropped, vec![0, 1, 2, 3, 4, 11]);

    let (codewords, dropped) = deterministic_drop_shards_clone(&vec![7u8, 8, 9, 10], 4, 2);
    assert_eq!(dropped, vec![0, 3]);
    assert_eq!(codewords, vec![None, Some(8), Some(9), None]);
}

#[test]
fn random_drops() {
    let mut rng = SmallRng::from_seed(SMALL_RNG_SEED);
    let mut shards: Vec<Option<usize>> = (0..40).map(Some).collect();
    let dropped = drop_random_max(&mut shards, 32, 8, &mut rng);
    assert_eq!(dropped.len(), 24);
    let mut sorted = dropped.clone();
    sorted.sort();
    sorted.dedup();
    assert_eq!(sorted.len(), 24);
    assert!(dropped.iter().all(|i| *i < 40));
    for (i, shard) in shards.iter().enumerate() {
        if dropped.contains(&i) {
            assert_eq!(*shard, None);
        } else {
            assert_eq!(*shard, Some(i));
        }
    }
    // nothing to drop
    let mut shards: Vec<Option<usize>> = (0..4).map(Some).collect();
    assert_eq!(drop_random_max(&mut shards, 4, 4, &mut rng), Vec::<usize>::new());
    assert_eq!(shards.iter().filter(|s| s.is_some()).count(), 4);

    let mut shards: Vec<Option<usize>> = (0..5).map(Some).collect();
    drop_indices(&mut shards, &vec![4, 1, 4]);
    assert_eq!(shards, vec![Some(0), None, Some(2), Some(3), None]);
}
