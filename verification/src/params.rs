//! The fixed parameter set of the scheme and its derived quantities.
//!
//! The parameters are constants; the derived quantities are powers of two,
//! computed by repeated doubling so that their values are verified against
//! `pow2` rather than trusted.

use vstd::prelude::*;
use vstd::arithmetic::power2::{pow2, lemma_pow2_unfold, lemma2_to64};
use crate::bignum::{big_value, big_from_usize, big_mul, big_div};

verus! {

/// Security parameter of the parameter set.
pub const LAMBDA: usize = 42;

/// Bit length of the noise drawn at key generation time in the reference
/// parameter derivation.
pub const RHO: usize = 27;

/// Bit length of the secret modulus: a private key has about `ETA` bits.
pub const ETA: usize = 1026;

/// Number of encryptions of zero a public key is built from in the reference
/// parameter derivation.
pub const GAMMA: usize = 150000;

/// The integer square root of `ETA`, fixed here and proved correct by
/// `lemma_eta_sqrt`.
pub const ETA_SQRT: usize = 32;

/// `ETA_SQRT` really is the integer square root of `ETA`.
pub proof fn lemma_eta_sqrt()
    ensures
        ETA_SQRT * ETA_SQRT <= ETA < (ETA_SQRT + 1) * (ETA_SQRT + 1),
{
}

/// Lower bound of the private-key range: `2^(ETA - 1)`.
pub open spec fn key_size_spec() -> int {
    pow2((ETA - 1) as nat) as int
}

/// Half-width of the range fresh per-encryption noise is drawn from:
/// `2^(floor(sqrt(ETA)) - 1)`.
pub open spec fn initial_noise_spec() -> int {
    pow2((ETA_SQRT - 1) as nat) as int
}

/// Scale of the random blinding multiplier of the private key: `2^ETA`.
pub open spec fn blinding_modulus_spec() -> int {
    pow2(ETA as nat) as int
}

/// Largest noise bound `Add` and `Multiply` accept for message modulus `n`:
/// `key_size / (2 n)`.
pub open spec fn noise_threshold(n: int) -> int {
    key_size_spec() / (2 * n)
}

/// `2^k`, computed by repeated doubling.
pub(crate) fn pow2_big(k: usize) -> (r: num_bigint::BigInt)
    ensures
        big_value(r) == pow2(k as nat),
{
    let two = big_from_usize(2);
    let mut acc = big_from_usize(1);
    let mut i: usize = 0;
    proof {
        lemma2_to64();
    }
    while i < k
        invariant
            i <= k,
            big_value(two) == 2,
            big_value(acc) == pow2(i as nat),
        decreases k - i,
    {
        acc = big_mul(&acc, &two);
        i = i + 1;
        proof {
            lemma_pow2_unfold(i as nat);
        }
    }
    acc
}

/// The key-space lower bound `2^(ETA - 1)` as a big integer.
pub(crate) fn key_size() -> (r: num_bigint::BigInt)
    ensures
        big_value(r) == key_size_spec(),
{
    pow2_big(ETA - 1)
}

/// The fresh-noise half-width `2^(floor(sqrt(ETA)) - 1)` as a big integer.
pub fn initial_noise_size() -> (r: num_bigint::BigInt)
    ensures
        big_value(r) == initial_noise_spec(),
{
    pow2_big(ETA_SQRT - 1)
}

/// The blinding-multiplier scale `2^ETA` as a big integer.
pub(crate) fn blinding_modulus_bound() -> (r: num_bigint::BigInt)
    ensures
        big_value(r) == blinding_modulus_spec(),
{
    pow2_big(ETA)
}

/// The noise threshold `key_size / (2 n)` as a big integer.
pub(crate) fn noise_threshold_big(n: usize) -> (r: num_bigint::BigInt)
    requires
        1 <= n,
    ensures
        big_value(r) == noise_threshold(n as int),
{
    let ks = key_size();
    let two = big_from_usize(2);
    let n_big = big_from_usize(n);
    let denom = big_mul(&two, &n_big);
    proof {
        vstd::arithmetic::power2::lemma_pow2_pos((ETA - 1) as nat);
    }
    big_div(&ks, &denom)
}

} // verus!
