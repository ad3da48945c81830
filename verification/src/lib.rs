//! Reed-Solomon erasure coding over GF(2^8) and GF(2^16) in the novel
//! polynomial basis.
//!
//! A payload is split into `n` equally sized shards such that any `k` of them
//! suffice to recover it. Encoding and decoding run in `O(n log n)` field
//! operations by way of an additive FFT.
//!
//! The coder is in `novel_poly_basis` and `availability_util`, on top of
//! the tables of a field (`tables`), the transforms (`walsh`, `afft`), the
//! formal derivative (`derivative`) and the column coders (`encode`,
//! `decode`).
//!
//! What the coder is good for is proved in the other modules: the tables
//! give the arithmetic of a field (`field_laws`), the skew factors are
//! values of the subspace polynomials (`subspace`), the additive FFT takes
//! the coefficients of a polynomial in the novel basis to its values
//! (`evaluation`), the formal derivative is a derivative
//! (`derivative_laws`, `linear_factor`), the Walsh-Hadamard transforms give
//! the values of the error locator polynomial (`walsh_laws`, `hadamard`,
//! `locator`), the decoder recovers what was erased of a codeword
//! (`decode_laws`, `encode_laws`), and any `k` shards give the payload back
//! (`round_trip`). The round trips of `tester` lose as many shards as they
//! may, at places that a random generator picks, and return success
//! without a look at what comes back: that it is the payload is proved.
pub mod afft;
pub mod availability_util;
pub mod blocks;
pub mod cantor;
pub mod decode;
pub mod decode_laws;
pub mod derivative;
pub mod derivative_laws;
pub mod encode;
pub mod encode_laws;
pub mod errors;
pub mod evaluation;
pub mod f256;
pub mod f2e16;
pub mod field;
pub mod field_laws;
pub mod hadamard;
pub mod linear_factor;
pub mod locator;
pub mod novel_poly_basis;
pub mod params;
pub mod round_trip;
pub mod shard;
pub mod subspace;
pub mod tables;
pub mod tester;
pub mod util;
pub mod walsh;
pub mod walsh_laws;
pub mod wrapped_shard;
