use rand::rngs::SmallRng;
use rand::{RngCore, SeedableRng};
use reed_solomon_novelpoly::availability_util::{encode, reconstruct};
use reed_solomon_novelpoly::decode::{eval_error_polynomial, reconstruct_sub};
use reed_solomon_novelpoly::encode::encode_sub;
use reed_solomon_novelpoly::errors::Error;
use reed_solomon_novelpoly::f2e16::FIELD_SIZE;
use reed_solomon_novelpoly::field::{Additive, Field, Logarithm};
use reed_solomon_novelpoly::novel_poly_basis::ReedSolomon;
use reed_solomon_novelpoly::params::CodeParams;
use reed_solomon_novelpoly::shard::Shard;
use reed_solomon_novelpoly::tables::FieldTables;
use reed_solomon_novelpoly::tester::{
    assert_recovery as recovery_holds, deterministic_drop_shards, deterministic_drop_shards_clone, drop_random_max,
    roundtrip as proved_roundtrip, roundtrip_w_drop_closure as proved_roundtrip_w_drop, DropPattern, SMALL_RNG_SEED,
};
use reed_solomon_novelpoly::wrapped_shard::WrappedShard;

const N_SHARDS: usize = 123;
const TEST_DATA_CHUNK_SIZE: usize = 1337;

/// Demo test data: bytes of a seeded generator.
fn test_bytes(len: usize) -> Vec<u8> {
    let mut rng = SmallRng::from_seed([7u8; 32]);
    let mut data = vec![0u8; len];
    rng.fill_bytes(&mut data[..]);
    data
}

/// Assert the byte ranges derived from the dropped indices are recovered properly
fn assert_recovery(payload: &[u8], reconstructed_payload: &[u8], dropped_indices: Vec<usize>) {
    assert!(reconstructed_payload.len() >= payload.len());

    dropped_indices.into_iter().for_each(|dropped_idx| {
        let byteoffset = dropped_idx * 2;
        let range = byteoffset..(byteoffset + 2);
        // dropped indices are over `n`, but our data indices are just of length `k * 2`
        if payload.len() >= range.end {
            assert_eq!(
                &payload[range.clone()],
                &reconstructed_payload[range.clone()],
                "Data at bytes {:?} must match:",
                range
            );
        }
    });
}

fn drop_random(shards: &mut Vec<Option<WrappedShard>>, n: usize, k: usize, rng: &mut SmallRng) -> Vec<usize> {
    let iv = drop_random_max(shards, n, k, rng);
    assert_eq!(iv.len(), n - k);
    let kept_count = shards.iter().map(Option::is_some).count();
    assert!(kept_count >= k);
    iv
}

fn roundtrip_w_drop_closure<DropFun>(
    tables: &FieldTables,
    payload: &[u8],
    validator_count: usize,
    mut drop_rand: DropFun,
) -> Result<(), Error>
where
    DropFun: FnMut(&mut Vec<Option<WrappedShard>>, usize, usize, &mut SmallRng) -> Vec<usize>,
{
    let mut rng = SmallRng::from_seed(SMALL_RNG_SEED);

    // Construct the shards
    let shards = encode::<WrappedShard>(tables, payload, validator_count)?;

    // Make a copy and transform it into option shards arrangement
    // for feeding into reconstruct_shards
    let mut received_shards = shards.into_iter().map(Some).collect::<Vec<Option<WrappedShard>>>();

    let dropped_indices = drop_rand(&mut received_shards, validator_count, validator_count / 3, &mut rng);

    let recovered_payload = reconstruct(tables, received_shards, validator_count)?;

    assert_recovery(&payload[..], &recovered_payload[..], dropped_indices);
    Ok(())
}

fn roundtrip(tables: &FieldTables, payload: &[u8], validator_count: usize) -> Result<(), Error> {
    roundtrip_w_drop_closure(tables, payload, validator_count, drop_random)
}

fn deterministic(codewords: &mut Vec<Option<WrappedShard>>, n: usize, k: usize, rng: &mut SmallRng) -> Vec<usize> {
    deterministic_drop_shards(codewords, n, k, rng)
}

// for shards of length 1
fn wrapped_shard_len1_as_gf_sym(w: &WrappedShard) -> Additive {
    Additive(u16::from_be_bytes(w.get_chunk(0)))
}

#[test]
fn novelpoly_roundtrip() {
    let tables = FieldTables::new(Field::F2e16).unwrap();
    let bytes = test_bytes(TEST_DATA_CHUNK_SIZE);
    roundtrip(&tables, &bytes[..TEST_DATA_CHUNK_SIZE], N_SHARDS).unwrap();
}

#[test]
fn sub_eq_big_for_small_messages() {
    const N_VALIDATORS: usize = 128;
    const N: usize = N_VALIDATORS;
    const K: usize = 32;
    let tables = FieldTables::new(Field::F2e16).unwrap();

    const K2: usize = K * 2;

    // assure the derived sizes match
    let rs = CodeParams::derive_from_third_plus_epsilon(N_VALIDATORS).unwrap();
    assert_eq!(rs.n, N);
    assert_eq!(rs.k, K);

    // create random predictable bytes
    // and create a message that results in 1 GF element symbols
    // per validator
    let data = {
        let mut rng = SmallRng::from_seed(SMALL_RNG_SEED);
        let mut data = [0u8; K2];
        rng.fill_bytes(&mut data[..]);
        data
    };

    let codewords = encode::<WrappedShard>(&tables, &data, rs.n).unwrap();
    let codewords_sub = encode_sub(&tables, &data, N, K).unwrap();

    assert_eq!(codewords.iter().map(wrapped_shard_len1_as_gf_sym).collect::<Vec<_>>(), codewords_sub);

    let (codewords, _) = deterministic_drop_shards_clone(&codewords, N, K);
    let (codewords_sub, _) = deterministic_drop_shards_clone(&codewords_sub, N, K);

    assert_eq!(
        codewords.iter().map(|w| w.as_ref().map(wrapped_shard_len1_as_gf_sym)).collect::<Vec<_>>(),
        codewords_sub
    );

    let erasures = codewords.iter().map(|x| x.is_none()).collect::<Vec<bool>>();

    // Evaluate error locator polynomial only once
    let mut error_poly_in_log = vec![Logarithm(0); FIELD_SIZE];
    eval_error_polynomial(&tables, &erasures[..], &mut error_poly_in_log, FIELD_SIZE);

    let reconstructed_sub =
        reconstruct_sub(&tables, &codewords_sub[..], &erasures[..], N, K, &error_poly_in_log).unwrap();
    let reconstructed = reconstruct(&tables, codewords, rs.n).unwrap();
    assert_eq!(&reconstructed[..K2], &reconstructed_sub[..K2]);
    assert_eq!(&reconstructed[..K2], &data[..]);
    assert_eq!(&reconstructed_sub[..K2], &data[..]);
}

#[test]
fn roundtrip_for_large_messages() {
    const N_VALIDATORS: usize = 2000;
    const N: usize = 2048;
    const K: usize = 512;
    let tables = FieldTables::new(Field::F2e16).unwrap();

    const K2: usize = K * 2;

    // assure the derived sizes match
    let rs = CodeParams::derive_from_third_plus_epsilon(N_VALIDATORS).unwrap();
    assert_eq!(rs.n, N);
    assert_eq!(rs.k, K);

    // make sure each shard is more than one byte to
    // test the shard size
    // in GF symbols
    let shard_length: usize = 23;

    let bytes = test_bytes(K2 * shard_length);
    let payload = &bytes[0..K2 * shard_length];

    let shards = encode::<WrappedShard>(&tables, payload, N_VALIDATORS).unwrap();

    for (idx, shard) in shards.iter().enumerate() {
        let sl = shard.len() / 2;
        assert_eq!(shard_length, sl, "Shard #{} has an unxpected length {} (expected: {})", idx, sl, shard_length);
    }
    let (received_shards, dropped_indices) = deterministic_drop_shards_clone(&shards, rs.n, rs.k);

    let reconstructed_payload = reconstruct(&tables, received_shards, N_VALIDATORS).unwrap();

    assert_recovery(payload, &reconstructed_payload, dropped_indices);
    assert_eq!(payload, &reconstructed_payload[..]);

    // verify integrity with criterion tests
    roundtrip_w_drop_closure(&tables, payload, N_VALIDATORS, deterministic).unwrap();

    roundtrip_w_drop_closure(&tables, payload, N_VALIDATORS, drop_random).unwrap();
}

#[test]
fn case_0() {
    let tables = FieldTables::new(Field::F2e16).unwrap();
    let bytes = test_bytes(0);
    let res = roundtrip_w_drop_closure(&tables, &bytes[0..0], 2003, deterministic);
    assert!(matches!(res, Err(Error::PayloadSizeIsZero)));
}

#[test]
fn case_0p5() {
    let tables = FieldTables::new(Field::F2e16).unwrap();
    let bytes = test_bytes(1);
    let res = roundtrip_w_drop_closure(&tables, &bytes[0..1], 3, deterministic);
    assert!(matches!(res, Ok(_)));
}

#[test]
fn case_0p75() {
    let tables = FieldTables::new(Field::F2e16).unwrap();
    let bytes = test_bytes(2);
    let res = roundtrip_w_drop_closure(&tables, &bytes[0..2], 4, deterministic);
    assert!(matches!(res, Ok(_)));
}

// Roughly one Elt per validator payload
#[test]
fn case_1() {
    let tables = FieldTables::new(Field::F2e16).unwrap();
    let bytes = test_bytes(16);
    let res = roundtrip_w_drop_closure(&tables, &bytes[0..16], 10, deterministic);
    assert!(matches!(res, Ok(_)));
}

// Unit payload, but many validators
#[test]
fn case_2() {
    let tables = FieldTables::new(Field::F2e16).unwrap();
    let bytes = test_bytes(1);
    let res = roundtrip_w_drop_closure(&tables, &bytes[0..1], 100, deterministic);
    assert!(matches!(res, Ok(_)));
}

// Common case of way more payload than validators
#[test]
fn case_3() {
    let tables = FieldTables::new(Field::F2e16).unwrap();
    let bytes = test_bytes(100);
    let res = roundtrip_w_drop_closure(&tables, &bytes[0..100], 4, deterministic);
    assert!(matches!(res, Ok(_)));
}

// Way more validators than payload bytes
#[test]
fn case_4() {
    let tables = FieldTables::new(Field::F2e16).unwrap();
    let bytes = test_bytes(17);
    let res = roundtrip_w_drop_closure(&tables, &bytes[0..17], 2003, deterministic);
    assert!(matches!(res, Ok(_)));
}

#[test]
fn shard_len_is_reasonable() {
    let tables = FieldTables::new(Field::F2e16).unwrap();
    let rs = CodeParams { n: 16, k: 4, real_n: 5 }.make_encoder(&tables);

    // since n must be a power of 2
    // the chunk sizes becomes slightly larger
    // than strictly necessary
    assert_eq!(rs.shard_len(100), 26);
    assert_eq!(rs.shard_len(99), 26);

    // see if it rounds up to 2.
    assert_eq!(rs.shard_len(95), 24);
    assert_eq!(rs.shard_len(94), 24);

    assert_eq!(rs.shard_len(90), 24);

    // needs 3 bytes to fit, rounded up to next even number.
    assert_eq!(rs.shard_len(19), 6);

    let rs = ReedSolomon::new(&tables, 5, 4).unwrap();
    assert_eq!(rs.shard_len(100), 26);
    assert_eq!(rs.shard_len(19), 6);
}

#[test]
fn proved_round_trip_with_random_drops() {
    let tables = FieldTables::new(Field::F2e16).unwrap();
    let bytes = test_bytes(TEST_DATA_CHUNK_SIZE);
    assert_eq!(proved_roundtrip(&tables, &bytes[..], N_SHARDS), Ok(()));
    assert_eq!(proved_roundtrip(&tables, &bytes[..17], 2003), Ok(()));
    assert_eq!(proved_roundtrip(&tables, &bytes[..0], 2003), Err(Error::PayloadSizeIsZero));
    // ten shards keep three, and the coder needs four
    assert_eq!(
        proved_roundtrip(&tables, &bytes[..16], 10),
        Err(Error::NeedMoreShards { have: 3, min: 4, all: 16 })
    );
    // two shards keep none
    assert_eq!(
        proved_roundtrip(&tables, &bytes[..16], 2),
        Err(Error::NeedMoreShards { have: 0, min: 1, all: 2 })
    );
    assert_eq!(proved_roundtrip(&tables, &bytes[..16], 1), Err(Error::WantedShardCountTooLow(1)));
    let small = FieldTables::new(Field::F256).unwrap();
    assert_eq!(proved_roundtrip(&small, &bytes[..100], 200), Ok(()));
    assert_eq!(proved_roundtrip_w_drop(&small, &bytes[..33], 100, DropPattern::Random), Ok(()));
}

#[test]
fn proved_round_trip_with_drops_at_both_ends() {
    let tables = FieldTables::new(Field::F2e16).unwrap();
    let bytes = test_bytes(200);
    assert_eq!(
        proved_roundtrip_w_drop(&tables, &bytes[..0], 2003, DropPattern::Deterministic),
        Err(Error::PayloadSizeIsZero)
    );
    assert_eq!(proved_roundtrip_w_drop(&tables, &bytes[..1], 3, DropPattern::Deterministic), Ok(()));
    assert_eq!(proved_roundtrip_w_drop(&tables, &bytes[..2], 4, DropPattern::Deterministic), Ok(()));
    assert_eq!(proved_roundtrip_w_drop(&tables, &bytes[..16], 10, DropPattern::Deterministic), Ok(()));
    assert_eq!(proved_roundtrip_w_drop(&tables, &bytes[..1], 100, DropPattern::Deterministic), Ok(()));
    assert_eq!(proved_roundtrip_w_drop(&tables, &bytes[..100], 4, DropPattern::Deterministic), Ok(()));
    assert_eq!(proved_roundtrip_w_drop(&tables, &bytes[..17], 2003, DropPattern::Deterministic), Ok(()));
}

#[test]
fn recovery_is_told_from_the_dropped_places() {
    let payload = [1u8, 2, 3, 4, 5, 6, 7];
    let same = [1u8, 2, 3, 4, 5, 6, 7, 0];
    let other = [1u8, 2, 9, 4, 5, 6, 7, 0];
    assert!(recovery_holds(&payload, &same, &vec![0, 1, 2, 3, 50]));
    assert!(recovery_holds(&payload, &other, &vec![0, 2, 3]));
    assert!(!recovery_holds(&payload, &other, &vec![0, 1]));
    // the last symbol of the payload is not whole, and so is not compared
    let tail = [1u8, 2, 3, 4, 5, 6, 9, 0];
    assert!(recovery_holds(&payload, &tail, &vec![3]));
    assert!(!recovery_holds(&payload, &payload[..6], &vec![]));
    assert!(recovery_holds(&payload, &same, &vec![usize::MAX]));
}
