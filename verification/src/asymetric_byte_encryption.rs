//! The public-key cipher specialized to bytes: subset-sum masking at
//! message modulus 256, with `u8` messages.

use vstd::prelude::*;
use vstd::arithmetic::div_mod::lemma_mod_bound;
use crate::bignum::big_value;
use crate::params::noise_threshold;
use crate::encoding::{encodes};
use crate::symetric_integer_encryption::SymetricallyEncryptedInteger;
use crate::asymmetric_integer_encryption::AsymetricallyEncryptedInteger;
use crate::AsymetricEncryption;

verus! {

/// An asymmetric byte ciphertext: the generic asymmetric ciphertext at
/// modulus 256, over a public key of `N` zero-encryptions.
pub struct AsymetricallyEncryptedByte<const N: usize> {
    c: AsymetricallyEncryptedInteger<N, 256>,
}

impl<const N: usize> AsymetricallyEncryptedByte<N> {
    /// The wrapped modulus-256 asymmetric ciphertext.
    pub closed spec fn inner(&self) -> AsymetricallyEncryptedInteger<N, 256> {
        self.c
    }

    /// Wrap a symmetric byte ciphertext as an asymmetric one.
    pub fn new(c: SymetricallyEncryptedInteger<256>) -> (r: Self)
        ensures
            r.inner().inner() == c,
    {
        AsymetricallyEncryptedByte { c: AsymetricallyEncryptedInteger::from_cipher(c) }
    }

    /// Homomorphic addition modulo 256, delegated.
    pub fn add(&self, other: &Self) -> (result: Option<Self>)
        ensures
            match result {
                Some(ct) => {
                    &&& ct.inner().inner().cipher_val() == self.inner().inner().cipher_val()
                        + other.inner().inner().cipher_val()
                    &&& ct.inner().inner().noise_val() == self.inner().inner().noise_val()
                        + other.inner().inner().noise_val()
                    &&& ct.inner().inner().noise_val() <= noise_threshold(256)
                    &&& (self.inner().inner().wf() && other.inner().inner().wf())
                        ==> ct.inner().inner().wf()
                    &&& forall|p: int, m1: int, m2: int|
                        #![trigger encodes(self.inner().inner().cipher_val(), self.inner().inner().noise_val(), p, 256, m1), encodes(other.inner().inner().cipher_val(), other.inner().inner().noise_val(), p, 256, m2)]
                        (encodes(
                            self.inner().inner().cipher_val(),
                            self.inner().inner().noise_val(),
                            p,
                            256,
                            m1,
                        ) && encodes(
                            other.inner().inner().cipher_val(),
                            other.inner().inner().noise_val(),
                            p,
                            256,
                            m2,
                        )) ==> encodes(
                            ct.inner().inner().cipher_val(),
                            ct.inner().inner().noise_val(),
                            p,
                            256,
                            (m1 + m2) % 256,
                        )
                },
                None => self.inner().inner().noise_val() + other.inner().inner().noise_val()
                    > noise_threshold(256),
            },
    {
        match self.c.add(&other.c) {
            None => None,
            Some(c) => Some(AsymetricallyEncryptedByte { c }),
        }
    }

    /// Homomorphic multiplication modulo 256, delegated.
    pub fn mul(&self, other: &Self) -> (result: Option<Self>)
        ensures
            match result {
                Some(ct) => {
                    &&& ct.inner().inner().cipher_val() == self.inner().inner().cipher_val()
                        * other.inner().inner().cipher_val()
                    &&& ct.inner().inner().noise_val() == self.inner().inner().noise_val()
                        * other.inner().inner().noise_val()
                    &&& ct.inner().inner().noise_val() <= noise_threshold(256)
                    &&& (self.inner().inner().wf() && other.inner().inner().wf())
                        ==> ct.inner().inner().wf()
                    &&& forall|p: int, m1: int, m2: int|
                        #![trigger encodes(self.inner().inner().cipher_val(), self.inner().inner().noise_val(), p, 256, m1), encodes(other.inner().inner().cipher_val(), other.inner().inner().noise_val(), p, 256, m2)]
                        (encodes(
                            self.inner().inner().cipher_val(),
                            self.inner().inner().noise_val(),
                            p,
                            256,
                            m1,
                        ) && encodes(
                            other.inner().inner().cipher_val(),
                            other.inner().inner().noise_val(),
                            p,
                            256,
                            m2,
                        )) ==> encodes(
                            ct.inner().inner().cipher_val(),
                            256 * (self.inner().inner().noise_val() + 1) * (
                            other.inner().inner().noise_val() + 1),
                            p,
                            256,
                            (m1 * m2) % 256,
                        )
                },
                None => self.inner().inner().noise_val() * other.inner().inner().noise_val()
                    > noise_threshold(256),
            },
    {
        match self.c.mul(&other.c) {
            None => None,
            Some(c) => Some(AsymetricallyEncryptedByte { c }),
        }
    }
}

impl<const N: usize> AsymetricEncryption for AsymetricallyEncryptedByte<N> {
    type PublicKeyType = Vec<SymetricallyEncryptedInteger<256>>;

    type PrivateKeyType = num_bigint::BigInt;

    type MessageType = u8;

    open spec fn scheme_ok() -> bool {
        <AsymetricallyEncryptedInteger<N, 256> as AsymetricEncryption>::scheme_ok()
    }

    open spec fn valid_public_key(pk: &Vec<SymetricallyEncryptedInteger<256>>) -> bool {
        <AsymetricallyEncryptedInteger<N, 256> as AsymetricEncryption>::valid_public_key(pk)
    }

    open spec fn valid_private_key(sk: &num_bigint::BigInt) -> bool {
        <AsymetricallyEncryptedInteger<N, 256> as AsymetricEncryption>::valid_private_key(sk)
    }

    open spec fn key_pair_consistent(pk: &Vec<SymetricallyEncryptedInteger<256>>, p: int) -> bool {
        <AsymetricallyEncryptedInteger<N, 256> as AsymetricEncryption>::key_pair_consistent(pk, p)
    }

    open spec fn private_modulus(sk: &num_bigint::BigInt) -> int {
        <AsymetricallyEncryptedInteger<N, 256> as AsymetricEncryption>::private_modulus(sk)
    }

    open spec fn valid_message(message: &u8) -> bool {
        true
    }

    open spec fn well_formed(&self) -> bool {
        self.inner().well_formed()
    }

    open spec fn encryption_of(&self, message: &u8, pk: &Vec<SymetricallyEncryptedInteger<256>>) -> bool {
        self.inner().encryption_of(&((*message) as usize), pk)
    }

    open spec fn decrypted(&self, sk: &num_bigint::BigInt) -> u8 {
        self.inner().decrypted(sk) as u8
    }

    fn key_gen() -> (keys: (Vec<SymetricallyEncryptedInteger<256>>, num_bigint::BigInt)) {
        AsymetricallyEncryptedInteger::<N, 256>::key_gen()
    }

    fn encrypt(
        message: u8,
        pk: &Vec<SymetricallyEncryptedInteger<256>>,
    ) -> (ciphertext: Self) {
        AsymetricallyEncryptedByte {
            c: AsymetricallyEncryptedInteger::<N, 256>::encrypt(message as usize, pk),
        }
    }

    fn decrypt(&self, sk: &num_bigint::BigInt) -> (message: u8) {
        let residue = self.c.decrypt(sk);
        proof {
            lemma_mod_bound(
                ((self.inner().inner().cipher_val() + big_value(*sk) / 2) % big_value(*sk))
                    - big_value(*sk) / 2,
                256,
            );
        }
        residue as u8
    }
}

} // verus!
