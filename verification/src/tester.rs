//! Ways to lose shards, and round trips through the coder that lose as many
//! shards as the default policy lets them.
use crate::availability_util::{encode, lemma_default_policy, reconstruct};
use crate::errors::Error;
use crate::field::Field;
use crate::novel_poly_basis::{spec_count_present, spec_received, ReedSolomon};
use crate::params::CodeParams;
use crate::round_trip::{
    lemma_check_of_nothing, lemma_check_of_what_is_left, lemma_erasure_tolerance,
    spec_is_left_of,
};
use crate::tables::FieldTables;
use rand::rngs::SmallRng;
use rand::SeedableRng;
use vstd::prelude::*;

verus! {

/// The small fast generator of rand. Nothing is known of what it holds.
#[verifier::external_type_specification]
#[verifier::external_body]
pub struct ExSmallRng(SmallRng);

/// The seed of the generators that drive the drop patterns.
pub const SMALL_RNG_SEED: [u8; 32] = [
    0, 6, 0xFA, 0, 0x37, 3, 19, 89, 32, 32, 0x37, 0x77, 77, 0b11, 112, 52, 12, 40, 82, 34, 0, 0, 0,
    1, 4, 4, 1, 4, 99, 127, 121, 107,
];

/// A generator started from `seed`, by `SeedableRng::from_seed` of rand.
/// Nothing is claimed of it.
#[verifier::external_body]
pub(crate) fn rng_from_seed(seed: [u8; 32]) -> SmallRng {
    SmallRng::from_seed(seed)
}

/// Whether no index occurs twice in `indices`.
pub open spec fn spec_distinct(indices: Seq<usize>) -> bool {
    forall|i: int, j: int|
        0 <= i < indices.len() && 0 <= j < indices.len() && i != j ==> indices[i] != indices[j]
}

/// `amount` indices below `length`, drawn by `rand::seq::index::sample`:
/// whatever the generator yields, there are exactly `amount` of them, each is
/// below `length`, and no two are the same. The call panics where `amount`
/// exceeds `length`, and for a `length` above `u32::MAX` it takes a path of
/// its own, which in a debug build panics where `amount` is `length`; both
/// are ruled out.
#[verifier::external_body]
fn sample_indices(rng: &mut SmallRng, length: usize, amount: usize) -> (indices: Vec<usize>)
    requires
        amount <= length,
        length <= u32::MAX,
    ensures
        indices@.len() == amount,
        forall|i: int| 0 <= i < indices@.len() ==> indices@[i] < length,
        spec_distinct(indices@),
{
    rand::seq::index::sample(rng, length, amount).into_vec()
}

/// Whether the place `i` is among `indices`.
pub open spec fn spec_is_dropped(indices: Seq<usize>, i: int) -> bool {
    exists|w: int| 0 <= w < indices.len() && #[trigger] indices[w] == i
}

/// `shards` with nothing left at the places `indices`.
pub open spec fn spec_dropped<T>(shards: Seq<Option<T>>, indices: Seq<usize>) -> Seq<Option<T>> {
    Seq::new(
        shards.len(),
        |i: int|
            if spec_is_dropped(indices, i) {
                None
            } else {
                shards[i]
            },
    )
}

/// Drops the shards at the places `indices`.
pub fn drop_indices<T>(shards: &mut Vec<Option<T>>, indices: &Vec<usize>)
    requires
        forall|i: int| 0 <= i < indices@.len() ==> indices@[i] < old(shards)@.len(),
    ensures
        final(shards)@ == spec_dropped(old(shards)@, indices@),
{
    let mut j: usize = 0;
    while j < indices.len()
        invariant
            j <= indices@.len(),
            shards@.len() == old(shards)@.len(),
            forall|i: int| 0 <= i < indices@.len() ==> indices@[i] < shards@.len(),
            shards@ == spec_dropped(old(shards)@, indices@.subrange(0, j as int)),
        decreases indices@.len() - j,
    {
        let ghost before = indices@.subrange(0, j as int);
        let ghost after = indices@.subrange(0, j + 1);
        let idx: usize = indices[j];
        shards.set(idx, None);
        proof {
            assert(after =~= before.push(idx));
            assert forall|i: int| 0 <= i < shards@.len() implies shards@[i] == spec_dropped(
                old(shards)@,
                after,
            )[i] by {
                if spec_is_dropped(before, i) {
                    let w = choose|w: int| 0 <= w < before.len() && #[trigger] before[w] == i;
                    assert(after[w] == i);
                }
                if i == idx {
                    assert(after[j as int] == idx);
                }
                if spec_is_dropped(after, i) && i != idx {
                    let w = choose|w: int| 0 <= w < after.len() && #[trigger] after[w] == i;
                    assert(before[w] == i);
                }
            }
            assert(shards@ =~= spec_dropped(old(shards)@, after));
        }
        j += 1;
    }
    assert(indices@.subrange(0, indices@.len() as int) =~= indices@);
}

/// The places that `deterministic_drop_shards` drops of `l` shards: the
/// first half of the `n - k` shards that can be spared, and the last half of
/// them as far as there are shards at their places.
pub open spec fn spec_deterministic_drops(l: nat, n: nat, k: nat) -> Seq<usize> {
    let half = (n - k) / 2;
    let tail = if l >= n {
        half
    } else if l >= n - half {
        l - (n - half)
    } else {
        0
    };
    Seq::new(
        (half + tail) as nat,
        |i: int|
            if i < half {
                i as usize
            } else {
                (n - half + (i - half)) as usize
            },
    )
}

/// Drops half of the shards that can be spared at the beginning and half of
/// them at the end of the codeword of length `n`, and returns the places
/// that were dropped. The generator is not used.
pub fn deterministic_drop_shards<T>(
    codewords: &mut Vec<Option<T>>,
    n: usize,
    k: usize,
    _rng: &mut SmallRng,
) -> (dropped: Vec<usize>)
    requires
        k <= n,
        (n - k) / 2 <= old(codewords)@.len(),
    ensures
        dropped@ == spec_deterministic_drops(old(codewords)@.len(), n as nat, k as nat),
        final(codewords)@ == spec_dropped(old(codewords)@, dropped@),
        dropped@.len() <= n - k,
{
    let l: usize = codewords.len();
    let mut v: Vec<usize> = Vec::new();
    // k is a power of 2
    let half: usize = (n - k) / 2;
    let ghost target = spec_deterministic_drops(l as nat, n as nat, k as nat);
    let mut i: usize = 0;
    while i < half
        invariant
            i <= half <= l,
            half == (n - k) / 2,
            k <= n,
            target == spec_deterministic_drops(l as nat, n as nat, k as nat),
            v@.len() == i,
            forall|t: int| 0 <= t < i ==> v@[t] == target[t],
        decreases half - i,
    {
        v.push(i);
        i += 1;
    }
    // if the codewords is shorter than n
    // the remaining ones were
    // already dropped implicitly
    let mut i: usize = n - half;
    while i < n
        invariant
            n - half <= i <= n,
            half == (n - k) / 2,
            half <= l,
            k <= n,
            target == spec_deterministic_drops(l as nat, n as nat, k as nat),
            v@.len() == half + (if i <= l {
                i - (n - half)
            } else if l >= n - half {
                l - (n - half)
            } else {
                0
            }),
            forall|t: int| 0 <= t < v@.len() ==> v@[t] == target[t],
        decreases n - i,
    {
        if i < l {
            v.push(i);
        }
        i += 1;
    }
    assert(v@ =~= target);
    drop_indices(codewords, &v);
    v
}

/// Wraps every codeword into `Some` and drops as `deterministic_drop_shards`
/// does.
pub fn deterministic_drop_shards_clone<T: Clone>(codewords: &Vec<T>, n: usize, k: usize) -> (res: (
    Vec<Option<T>>,
    Vec<usize>,
))
    requires
        k <= n,
        (n - k) / 2 <= codewords@.len(),
    ensures
        res.1@ == spec_deterministic_drops(codewords@.len(), n as nat, k as nat),
        res.0@.len() == codewords@.len(),
        forall|i: int|
            0 <= i < codewords@.len() ==> if spec_is_dropped(res.1@, i) {
                (#[trigger] res.0@[i]) is None
            } else {
                res.0@[i] is Some && cloned(codewords@[i], res.0@[i]->Some_0)
            },
{
    let mut rng: SmallRng = rng_from_seed(SMALL_RNG_SEED);
    let mut wrapped: Vec<Option<T>> = Vec::new();
    let mut i: usize = 0;
    while i < codewords.len()
        invariant
            i <= codewords@.len(),
            wrapped@.len() == i,
            forall|t: int|
                0 <= t < i ==> (#[trigger] wrapped@[t]) is Some && cloned(
                    codewords@[t],
                    wrapped@[t]->Some_0,
                ),
        decreases codewords@.len() - i,
    {
        wrapped.push(Some(codewords[i].clone()));
        i += 1;
    }
    let idx: Vec<usize> = deterministic_drop_shards(&mut wrapped, n, k, &mut rng);
    (wrapped, idx)
}

/// Drops `n - k` shards that the generator picks, and returns the places
/// that were dropped: `n - k` different places, whichever they are. There
/// are no more shards than the generator draws places for without a
/// panic, which is `u32::MAX`.
pub fn drop_random_max<T>(
    shards: &mut Vec<Option<T>>,
    n: usize,
    k: usize,
    rng: &mut SmallRng,
) -> (dropped: Vec<usize>)
    requires
        k <= n <= old(shards)@.len() <= u32::MAX,
    ensures
        dropped@.len() == n - k,
        forall|i: int| 0 <= i < dropped@.len() ==> dropped@[i] < old(shards)@.len(),
        spec_distinct(dropped@),
        final(shards)@ == spec_dropped(old(shards)@, dropped@),
{
    let l: usize = shards.len();
    let iv: Vec<usize> = sample_indices(rng, l, n - k);
    drop_indices(shards, &iv);
    iv
}

/// Whether the two bytes of the symbol at place `idx` of the payload, where
/// the payload has them, came back.
pub open spec fn spec_symbol_recovered(
    payload: Seq<u8>,
    reconstructed: Seq<u8>,
    idx: usize,
) -> bool {
    idx * 2 + 2 <= payload.len() ==> payload[idx * 2] == reconstructed[idx * 2] && payload[idx
        * 2 + 1] == reconstructed[idx * 2 + 1]
}

/// Whether the payload came back at the places that were dropped: what
/// was reconstructed is at least as long as the payload, and holds the
/// bytes of the payload at the symbols of the dropped places.
pub open spec fn spec_recovered(
    payload: Seq<u8>,
    reconstructed: Seq<u8>,
    dropped: Seq<usize>,
) -> bool {
    &&& reconstructed.len() >= payload.len()
    &&& forall|w: int|
        0 <= w < dropped.len() ==> spec_symbol_recovered(
            payload,
            reconstructed,
            #[trigger] dropped[w],
        )
}

/// Tells whether the payload came back at the places that were dropped.
pub fn assert_recovery(
    payload: &[u8],
    reconstructed_payload: &[u8],
    dropped_indices: &Vec<usize>,
) -> (ok: bool)
    ensures
        ok == spec_recovered(payload@, reconstructed_payload@, dropped_indices@),
{
    if reconstructed_payload.len() < payload.len() {
        return false;
    }
    let mut w: usize = 0;
    while w < dropped_indices.len()
        invariant
            w <= dropped_indices@.len(),
            reconstructed_payload@.len() >= payload@.len(),
            forall|t: int|
                0 <= t < w ==> spec_symbol_recovered(
                    payload@,
                    reconstructed_payload@,
                    #[trigger] dropped_indices@[t],
                ),
        decreases dropped_indices@.len() - w,
    {
        let dropped_idx: usize = dropped_indices[w];
        // dropped indices are over `n`, but our data indices are just of length `k * 2`
        if payload.len() >= 2 && dropped_idx <= (payload.len() - 2) / 2 {
            let byteoffset: usize = dropped_idx * 2;
            if payload[byteoffset] != reconstructed_payload[byteoffset] || payload[byteoffset + 1]
                != reconstructed_payload[byteoffset + 1] {
                assert(!spec_symbol_recovered(
                    payload@,
                    reconstructed_payload@,
                    dropped_indices@[w as int],
                ));
                return false;
            }
        }
        w += 1;
    }
    true
}

/// Which shards a round trip drops.
#[derive(Debug, Clone, Copy, PartialEq, Eq)]
pub enum DropPattern {
    /// As many shards as can be spared, at places that a generator picks.
    Random,
    /// Half of the shards that can be spared at the beginning, and half of
    /// them at the end.
    Deterministic,
}

/// Number of places below `upto` that are among `indices`.
pub open spec fn spec_count_dropped(indices: Seq<usize>, upto: int) -> nat
    decreases upto,
{
    if upto <= 0 {
        0
    } else {
        spec_count_dropped(indices, upto - 1) + if spec_is_dropped(indices, upto - 1) {
            1nat
        } else {
            0nat
        }
    }
}

/// One more place that is dropped is one more place that is counted.
proof fn lemma_count_dropped_push(indices: Seq<usize>, x: usize, upto: int)
    requires
        !spec_is_dropped(indices, x as int),
    ensures
        spec_count_dropped(indices.push(x), upto) == spec_count_dropped(indices, upto) + if x
            < upto {
            1nat
        } else {
            0nat
        },
    decreases upto,
{
    if upto > 0 {
        lemma_count_dropped_push(indices, x, upto - 1);
        let i = upto - 1;
        let more = indices.push(x);
        if spec_is_dropped(indices, i) {
            let w = choose|w: int| 0 <= w < indices.len() && #[trigger] indices[w] == i;
            assert(more[w] == i);
        }
        if i == x {
            assert(more[indices.len() as int] == i);
        }
        if spec_is_dropped(more, i) && i != x {
            let w = choose|w: int| 0 <= w < more.len() && #[trigger] more[w] == i;
            assert(indices[w] == i);
        }
    }
}

/// As many places are dropped as there are different indices.
pub proof fn lemma_count_dropped(indices: Seq<usize>, n: int)
    requires
        spec_distinct(indices),
        forall|i: int| 0 <= i < indices.len() ==> indices[i] < n,
    ensures
        spec_count_dropped(indices, n) == indices.len(),
    decreases indices.len(),
{
    if indices.len() == 0 {
        lemma_count_dropped_of_none(indices, n);
    } else {
        let init = indices.drop_last();
        let x = indices.last();
        assert(indices =~= init.push(x));
        assert(spec_distinct(init)) by {
            assert forall|i: int, j: int|
                0 <= i < init.len() && 0 <= j < init.len() && i != j implies init[i]
                != init[j] by {
                assert(indices[i] != indices[j]);
            }
        }
        if spec_is_dropped(init, x as int) {
            let w = choose|w: int| 0 <= w < init.len() && #[trigger] init[w] == x as int;
            assert(indices[w] != indices[indices.len() - 1]);
        }
        lemma_count_dropped(init, n);
        lemma_count_dropped_push(init, x, n);
    }
}

/// Where nothing is dropped, nothing is counted.
proof fn lemma_count_dropped_of_none(indices: Seq<usize>, upto: int)
    requires
        indices.len() == 0,
    ensures
        spec_count_dropped(indices, upto) == 0,
    decreases upto,
{
    if upto > 0 {
        lemma_count_dropped_of_none(indices, upto - 1);
    }
}

/// Of shards that were all there, so many are left as were not dropped.
proof fn lemma_present_and_dropped(
    before: Seq<Option<Vec<u8>>>,
    indices: Seq<usize>,
    upto: int,
    n: int,
)
    requires
        forall|i: int| 0 <= i < before.len() ==> (#[trigger] before[i]) is Some,
        0 <= upto <= n,
    ensures
        upto <= before.len() ==> spec_count_present(
            spec_received(spec_dropped(before, indices)),
            upto,
        ) + spec_count_dropped(indices, upto) == upto,
        n >= before.len() ==> spec_count_present(spec_received(spec_dropped(before, indices)), n)
            + spec_count_dropped(indices, before.len() as int) == before.len(),
    decreases n,
{
    let rec = spec_received(spec_dropped(before, indices));
    if n > 0 {
        if upto == n {
            lemma_present_and_dropped(before, indices, upto - 1, n - 1);
        } else {
            lemma_present_and_dropped(before, indices, upto, n - 1);
        }
        if n - 1 < before.len() {
            lemma_present_and_dropped(before, indices, n - 1, n - 1);
            assert(before[n - 1] is Some);
        }
    }
}

/// Number of shards that a round trip leaves of `validator_count` shards.
pub open spec fn spec_kept(validator_count: nat, pattern: DropPattern) -> nat {
    let k = validator_count / 3;
    match pattern {
        DropPattern::Random => k,
        DropPattern::Deterministic => (validator_count - 2 * ((validator_count - k) / 2)) as nat,
    }
}

/// What a round trip returns: what the policy or the encoder turns down,
/// a call for more shards where the round trip leaves fewer shards than the
/// coder needs, and success wherever it leaves enough.
pub open spec fn spec_roundtrip(
    f: Field,
    payload: Seq<u8>,
    validator_count: usize,
    pattern: DropPattern,
) -> Result<(), Error> {
    match CodeParams::spec_derive_for(f, validator_count) {
        Err(e) => Err(e),
        Ok(params) => if payload.len() == 0 {
            Err(Error::PayloadSizeIsZero)
        } else if spec_kept(validator_count as nat, pattern) < params.k {
            Err(
                Error::NeedMoreShards {
                    have: spec_kept(validator_count as nat, pattern) as usize,
                    min: params.k,
                    all: params.n,
                },
            )
        } else {
            Ok(())
        },
    }
}

/// The places that are dropped at both ends are all different.
proof fn lemma_deterministic_drops(n: nat, k: nat)
    requires
        k <= n <= usize::MAX,
    ensures
        spec_distinct(spec_deterministic_drops(n, n, k)),
        spec_deterministic_drops(n, n, k).len() == 2 * ((n - k) / 2),
        forall|i: int|
            0 <= i < spec_deterministic_drops(n, n, k).len() ==> spec_deterministic_drops(
                n,
                n,
                k,
            )[i] < n,
{
    let drops = spec_deterministic_drops(n, n, k);
    let half = (n - k) / 2;
    assert forall|i: int, j: int|
        0 <= i < drops.len() && 0 <= j < drops.len() && i != j implies drops[i] != drops[j] by {
        assert(drops[i] == (if i < half {
            i
        } else {
            n - half + (i - half)
        }));
        assert(drops[j] == (if j < half {
            j
        } else {
            n - half + (j - half)
        }));
    }
}

/// Encodes the payload into `validator_count` shards under the default
/// policy, drops shards as `pattern` says, with `validator_count / 3` as
/// the number of shards to keep, and reconstructs. Wherever enough shards
/// are left, the payload comes back; this is proved, not tested.
pub fn roundtrip_w_drop_closure(
    tables: &FieldTables,
    payload: &[u8],
    validator_count: usize,
    pattern: DropPattern,
) -> (res: Result<(), Error>)
    requires
        payload@.len() < usize::MAX,
    ensures
        res == spec_roundtrip(tables@.field, payload@, validator_count, pattern),
{
    let f: Field = tables.field();
    let mut rng: SmallRng = rng_from_seed(SMALL_RNG_SEED);
    proof {
        lemma_default_policy(f, validator_count);
    }
    // Construct the shards
    let shards: Vec<Vec<u8>> = match encode::<Vec<u8>>(tables, payload, validator_count) {
        Ok(shards) => shards,
        Err(e) => {
            return Err(e);
        },
    };
    let ghost params = CodeParams::spec_derive_for(f, validator_count)->Ok_0;
    let ghost encoded = ReedSolomon::spec_encode(f, params, payload@)->Ok_0;
    // Make a copy and transform it into option shards arrangement
    // for feeding into reconstruct_shards
    let mut received_shards: Vec<Option<Vec<u8>>> = Vec::new();
    let mut i: usize = 0;
    while i < shards.len()
        invariant
            i <= shards@.len(),
            received_shards@.len() == i,
            forall|t: int|
                0 <= t < i ==> (#[trigger] received_shards@[t]) is Some
                    && received_shards@[t]->Some_0@ == shards@[t]@,
        decreases shards@.len() - i,
    {
        let copy: Vec<u8> = shards[i].clone();
        assert(copy@ =~= shards@[i as int]@);
        received_shards.push(Some(copy));
        i += 1;
    }
    let ghost before = received_shards@;
    let dropped_indices: Vec<usize> = match pattern {
        DropPattern::Random => drop_random_max(
            &mut received_shards,
            validator_count,
            validator_count / 3,
            &mut rng,
        ),
        DropPattern::Deterministic => {
            proof {
                lemma_deterministic_drops(validator_count as nat, (validator_count / 3) as nat);
            }
            deterministic_drop_shards(
                &mut received_shards,
                validator_count,
                validator_count / 3,
                &mut rng,
            )
        },
    };
    let ghost left = spec_received(received_shards@);
    proof {
        let kept = spec_kept(validator_count as nat, pattern);
        lemma_count_dropped(dropped_indices@, validator_count as int);
        lemma_present_and_dropped(
            before,
            dropped_indices@,
            validator_count as int,
            params.n as int,
        );
        assert(spec_count_present(left, params.n as int) == kept);
        assert(spec_is_left_of(left, encoded)) by {
            assert forall|t: int| 0 <= t < left.len() implies #[trigger] left[t] is None || left[t]
                == Some(encoded[t]) by {
                assert(before[t] is Some);
            }
        }
        if kept == 0 {
            lemma_present_and_dropped(
                before,
                dropped_indices@,
                validator_count as int,
                validator_count as int,
            );
            lemma_check_of_nothing(f, params, left);
        } else {
            lemma_check_of_what_is_left(f, params, payload@, left);
            if kept >= params.k {
                lemma_erasure_tolerance(f, params, payload@, left);
            }
        }
    }
    let recovered_payload: Vec<u8> = match reconstruct::<Vec<u8>>(
        tables,
        received_shards,
        validator_count,
    ) {
        Ok(recovered) => recovered,
        Err(e) => {
            return Err(e);
        },
    };
    let ok: bool = assert_recovery(payload, recovered_payload.as_slice(), &dropped_indices);
    assert(ok);
    Ok(())
}

/// Encodes the payload into `validator_count` shards under the default
/// policy, drops all but `validator_count / 3` shards at places that a
/// generator picks, and reconstructs.
pub fn roundtrip(tables: &FieldTables, payload: &[u8], validator_count: usize) -> (res: Result<
    (),
    Error,
>)
    requires
        payload@.len() < usize::MAX,
    ensures
        res == spec_roundtrip(tables@.field, payload@, validator_count, DropPattern::Random),
{
    roundtrip_w_drop_closure(tables, payload, validator_count, DropPattern::Random)
}

} // verus!
