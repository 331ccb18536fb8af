//! A somewhat-homomorphic encryption scheme over the integers.
//!
//! Ciphertexts hide a message `m` modulo `N` as `c = p*q + N*r + m` for a
//! secret modulus `p`, a large random blinding multiple `q` and small random
//! noise `r`.  Ciphertexts can be added and multiplied while the tracked
//! noise bound stays under a safety threshold; once the budget is exhausted
//! the operators refuse to produce a result.  A public-key form encrypts by
//! summing a random subset of published encryptions of zero.

use vstd::prelude::*;

pub mod bignum;
pub mod params;
pub mod arith;
pub mod encoding;
pub mod symetric_integer_encryption;
pub mod asymmetric_integer_encryption;
pub mod symetric_bit_encryption;
pub mod asymetric_bit_encryption;
pub mod asymetric_byte_encryption;

pub use symetric_integer_encryption::SymetricallyEncryptedInteger;
pub use asymmetric_integer_encryption::AsymetricallyEncryptedInteger;
pub use symetric_bit_encryption::SymetricallyEncryptedBit;
pub use asymetric_bit_encryption::AsymetricallyEncryptedBit;
pub use asymetric_byte_encryption::AsymetricallyEncryptedByte;

verus! {

/// A symmetric encryption scheme: one key both encrypts and decrypts.
///
/// The specification side describes which keys and messages the scheme
/// accepts, what a freshly encrypted ciphertext looks like, and what value a
/// ciphertext decrypts to under a given key.
pub trait SymetricEncryption: Sized {
    type KeyType;

    type MessageType;

    /// The scheme's fixed parameters are sensible (for these ciphers: the
    /// message modulus is at least 2).
    spec fn scheme_ok() -> bool;

    /// `key` is a key this scheme's `key_gen` could have produced.
    spec fn valid_key(key: &Self::KeyType) -> bool;

    /// `message` lies in the scheme's message space.
    spec fn valid_message(message: &Self::MessageType) -> bool;

    /// Structural facts every ciphertext produced by this scheme satisfies.
    spec fn well_formed(&self) -> bool;

    /// `self` is a fresh encryption of `message` under `key`.
    spec fn encryption_of(&self, message: &Self::MessageType, key: &Self::KeyType) -> bool;

    /// The value `self` decrypts to under `key`.
    spec fn decrypted(&self, key: &Self::KeyType) -> Self::MessageType;

    fn key_gen() -> (key: Self::KeyType)
        requires
            Self::scheme_ok(),
        ensures
            Self::valid_key(&key),
    ;

    fn encrypt(message: Self::MessageType, key: &Self::KeyType) -> (ciphertext: Self)
        requires
            Self::scheme_ok(),
            Self::valid_key(key),
            Self::valid_message(&message),
        ensures
            ciphertext.well_formed(),
            ciphertext.encryption_of(&message, key),
    ;

    fn decrypt(&self, key: &Self::KeyType) -> (message: Self::MessageType)
        requires
            Self::scheme_ok(),
            Self::valid_key(key),
            self.well_formed(),
        ensures
            message == self.decrypted(key),
    ;
}

/// An asymmetric encryption scheme: a public key encrypts, a private key
/// decrypts.
pub trait AsymetricEncryption: Sized {
    type PublicKeyType;

    type PrivateKeyType;

    type MessageType;

    /// The scheme's fixed parameters are sensible.
    spec fn scheme_ok() -> bool;

    /// `pk` is a public key this scheme's `key_gen` could have produced.
    spec fn valid_public_key(pk: &Self::PublicKeyType) -> bool;

    /// `sk` is a private key this scheme's `key_gen` could have produced.
    spec fn valid_private_key(sk: &Self::PrivateKeyType) -> bool;

    /// `pk` publishes encryptions of zero under the private modulus `p`.
    spec fn key_pair_consistent(pk: &Self::PublicKeyType, p: int) -> bool;

    /// The secret modulus a private key holds.
    spec fn private_modulus(sk: &Self::PrivateKeyType) -> int;

    /// `message` lies in the scheme's message space.
    spec fn valid_message(message: &Self::MessageType) -> bool;

    /// Structural facts every ciphertext produced by this scheme satisfies.
    spec fn well_formed(&self) -> bool;

    /// `self` is a fresh public-key encryption of `message` under `pk`.
    spec fn encryption_of(&self, message: &Self::MessageType, pk: &Self::PublicKeyType) -> bool;

    /// The value `self` decrypts to under `sk`.
    spec fn decrypted(&self, sk: &Self::PrivateKeyType) -> Self::MessageType;

    fn key_gen() -> (keys: (Self::PublicKeyType, Self::PrivateKeyType))
        requires
            Self::scheme_ok(),
        ensures
            Self::valid_public_key(&keys.0),
            Self::valid_private_key(&keys.1),
            Self::key_pair_consistent(&keys.0, Self::private_modulus(&keys.1)),
    ;

    fn encrypt(message: Self::MessageType, pk: &Self::PublicKeyType) -> (ciphertext: Self)
        requires
            Self::scheme_ok(),
            Self::valid_public_key(pk),
            Self::valid_message(&message),
        ensures
            ciphertext.well_formed(),
            ciphertext.encryption_of(&message, pk),
    ;

    fn decrypt(&self, sk: &Self::PrivateKeyType) -> (message: Self::MessageType)
        requires
            Self::scheme_ok(),
            Self::valid_private_key(sk),
            self.well_formed(),
        ensures
            message == self.decrypted(sk),
    ;
}

/// Access to the raw cipher value and noise tag of an encrypted integer.
pub trait EncryptedInteger<const N: usize> {
    type CipherType;

    type NoiseType;

    fn cipher(&self) -> &Self::CipherType;

    fn noise_level(&self) -> &Self::NoiseType;
}

} // verus!
