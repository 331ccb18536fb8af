//! The public-key cipher specialized to single bits: subset-sum masking at
//! message modulus 2, with `bool` messages.

use vstd::prelude::*;
use crate::params::noise_threshold;
use crate::encoding::encodes;
use crate::symetric_integer_encryption::SymetricallyEncryptedInteger;
use crate::asymmetric_integer_encryption::AsymetricallyEncryptedInteger;
use crate::symetric_bit_encryption::bit_message;
use crate::AsymetricEncryption;

verus! {

/// An asymmetric bit ciphertext: the generic asymmetric ciphertext at
/// modulus 2, over a public key of `N` zero-encryptions.
pub struct AsymetricallyEncryptedBit<const N: usize> {
    c: AsymetricallyEncryptedInteger<N, 2>,
}

impl<const N: usize> AsymetricallyEncryptedBit<N> {
    /// The wrapped modulus-2 asymmetric ciphertext.
    pub closed spec fn inner(&self) -> AsymetricallyEncryptedInteger<N, 2> {
        self.c
    }

    /// Homomorphic addition (exclusive-or on bits), delegated.
    pub fn add(&self, other: &Self) -> (result: Option<Self>)
        ensures
            match result {
                Some(ct) => {
                    &&& ct.inner().inner().cipher_val() == self.inner().inner().cipher_val()
                        + other.inner().inner().cipher_val()
                    &&& ct.inner().inner().noise_val() == self.inner().inner().noise_val()
                        + other.inner().inner().noise_val()
                    &&& ct.inner().inner().noise_val() <= noise_threshold(2)
                    &&& (self.inner().inner().wf() && other.inner().inner().wf())
                        ==> ct.inner().inner().wf()
                    &&& forall|p: int, m1: int, m2: int|
                        #![trigger encodes(self.inner().inner().cipher_val(), self.inner().inner().noise_val(), p, 2, m1), encodes(other.inner().inner().cipher_val(), other.inner().inner().noise_val(), p, 2, m2)]
                        (encodes(
                            self.inner().inner().cipher_val(),
                            self.inner().inner().noise_val(),
                            p,
                            2,
                            m1,
                        ) && encodes(
                            other.inner().inner().cipher_val(),
                            other.inner().inner().noise_val(),
                            p,
                            2,
                            m2,
                        )) ==> encodes(
                            ct.inner().inner().cipher_val(),
                            ct.inner().inner().noise_val(),
                            p,
                            2,
                            (m1 + m2) % 2,
                        )
                },
                None => self.inner().inner().noise_val() + other.inner().inner().noise_val()
                    > noise_threshold(2),
            },
    {
        match self.c.add(&other.c) {
            None => None,
            Some(c) => Some(AsymetricallyEncryptedBit { c }),
        }
    }

    /// Homomorphic multiplication (conjunction on bits), delegated.
    pub fn mul(&self, other: &Self) -> (result: Option<Self>)
        ensures
            match result {
                Some(ct) => {
                    &&& ct.inner().inner().cipher_val() == self.inner().inner().cipher_val()
                        * other.inner().inner().cipher_val()
                    &&& ct.inner().inner().noise_val() == self.inner().inner().noise_val()
                        * other.inner().inner().noise_val()
                    &&& ct.inner().inner().noise_val() <= noise_threshold(2)
                    &&& (self.inner().inner().wf() && other.inner().inner().wf())
                        ==> ct.inner().inner().wf()
                    &&& forall|p: int, m1: int, m2: int|
                        #![trigger encodes(self.inner().inner().cipher_val(), self.inner().inner().noise_val(), p, 2, m1), encodes(other.inner().inner().cipher_val(), other.inner().inner().noise_val(), p, 2, m2)]
                        (encodes(
                            self.inner().inner().cipher_val(),
                            self.inner().inner().noise_val(),
                            p,
                            2,
                            m1,
                        ) && encodes(
                            other.inner().inner().cipher_val(),
                            other.inner().inner().noise_val(),
                            p,
                            2,
                            m2,
                        )) ==> encodes(
                            ct.inner().inner().cipher_val(),
                            2 * (self.inner().inner().noise_val() + 1) * (
                            other.inner().inner().noise_val() + 1),
                            p,
                            2,
                            (m1 * m2) % 2,
                        )
                },
                None => self.inner().inner().noise_val() * other.inner().inner().noise_val()
                    > noise_threshold(2),
            },
    {
        match self.c.mul(&other.c) {
            None => None,
            Some(c) => Some(AsymetricallyEncryptedBit { c }),
        }
    }
}

impl<const N: usize> AsymetricEncryption for AsymetricallyEncryptedBit<N> {
    type PublicKeyType = Vec<SymetricallyEncryptedInteger<2>>;

    type PrivateKeyType = num_bigint::BigInt;

    type MessageType = bool;

    open spec fn scheme_ok() -> bool {
        <AsymetricallyEncryptedInteger<N, 2> as AsymetricEncryption>::scheme_ok()
    }

    open spec fn valid_public_key(pk: &Vec<SymetricallyEncryptedInteger<2>>) -> bool {
        <AsymetricallyEncryptedInteger<N, 2> as AsymetricEncryption>::valid_public_key(pk)
    }

    open spec fn valid_private_key(sk: &num_bigint::BigInt) -> bool {
        <AsymetricallyEncryptedInteger<N, 2> as AsymetricEncryption>::valid_private_key(sk)
    }

    open spec fn key_pair_consistent(pk: &Vec<SymetricallyEncryptedInteger<2>>, p: int) -> bool {
        <AsymetricallyEncryptedInteger<N, 2> as AsymetricEncryption>::key_pair_consistent(pk, p)
    }

    open spec fn private_modulus(sk: &num_bigint::BigInt) -> int {
        <AsymetricallyEncryptedInteger<N, 2> as AsymetricEncryption>::private_modulus(sk)
    }

    open spec fn valid_message(message: &bool) -> bool {
        true
    }

    open spec fn well_formed(&self) -> bool {
        self.inner().well_formed()
    }

    open spec fn encryption_of(&self, message: &bool, pk: &Vec<SymetricallyEncryptedInteger<2>>) -> bool {
        self.inner().encryption_of(&bit_message(*message), pk)
    }

    open spec fn decrypted(&self, sk: &num_bigint::BigInt) -> bool {
        self.inner().decrypted(sk) == 1
    }

    fn key_gen() -> (keys: (Vec<SymetricallyEncryptedInteger<2>>, num_bigint::BigInt)) {
        AsymetricallyEncryptedInteger::<N, 2>::key_gen()
    }

    fn encrypt(
        message: bool,
        pk: &Vec<SymetricallyEncryptedInteger<2>>,
    ) -> (ciphertext: Self) {
        let bit: usize = if message {
            1
        } else {
            0
        };
        AsymetricallyEncryptedBit { c: AsymetricallyEncryptedInteger::<N, 2>::encrypt(bit, pk) }
    }

    fn decrypt(&self, sk: &num_bigint::BigInt) -> (message: bool) {
        let residue = self.c.decrypt(sk);
        residue == 1
    }
}

} // verus!
