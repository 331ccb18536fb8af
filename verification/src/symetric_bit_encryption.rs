//! The symmetric cipher specialized to single bits: the generic machinery
//! at message modulus 2, with `bool` messages.
//!
//! The design reserves an abort for a decryption whose centered residue is
//! congruent to neither 0 nor 1 modulo 2; here decryption reduces the
//! residue into `[0, 2)`, so that case is proved impossible and no abort
//! path exists.

use vstd::prelude::*;
use vstd::arithmetic::div_mod::lemma_mod_bound;
use vstd::arithmetic::power2::lemma_pow2_pos;
use crate::bignum::big_value;
use crate::params::{initial_noise_spec, noise_threshold, ETA};
use crate::encoding::{encodes, fresh_encryption, valid_key_int, decrypt_spec};
use crate::symetric_integer_encryption::SymetricallyEncryptedInteger;
use crate::SymetricEncryption;

verus! {

/// Key invariant at the bit modulus (law): a valid bit key is odd.
pub proof fn lemma_bit_key_odd(key: &num_bigint::BigInt)
    requires
        valid_key_int(big_value(*key), 2),
    ensures
        big_value(*key) % 2 == 1,
{
    lemma_pow2_pos((ETA - 1) as nat);
    crate::arith::lemma_coprime_two_odd(big_value(*key));
}

/// The message a bit stands for: 1 for `true`, 0 for `false`.
pub open spec fn bit_message(b: bool) -> usize {
    if b {
        1
    } else {
        0
    }
}

/// A symmetric bit ciphertext: the generic ciphertext at modulus 2.
pub struct SymetricallyEncryptedBit {
    c: SymetricallyEncryptedInteger<2>,
}

impl SymetricallyEncryptedBit {
    /// The wrapped modulus-2 ciphertext.
    pub closed spec fn inner(&self) -> SymetricallyEncryptedInteger<2> {
        self.c
    }

    /// Wrap a cipher value and a noise bound as a bit ciphertext.
    pub fn new(c: num_bigint::BigInt, n: num_bigint::BigInt) -> (ct: Self)
        ensures
            ct.inner().cipher_val() == big_value(c),
            ct.inner().noise_val() == big_value(n),
    {
        SymetricallyEncryptedBit { c: SymetricallyEncryptedInteger::new(c, n) }
    }

    /// Homomorphic addition (exclusive-or on bits), delegated to the
    /// generic layer.
    pub fn add(&self, other: &Self) -> (result: Option<Self>)
        ensures
            match result {
                Some(ct) => {
                    &&& ct.inner().cipher_val() == self.inner().cipher_val()
                        + other.inner().cipher_val()
                    &&& ct.inner().noise_val() == self.inner().noise_val()
                        + other.inner().noise_val()
                    &&& ct.inner().noise_val() <= noise_threshold(2)
                    &&& (self.inner().wf() && other.inner().wf()) ==> ct.inner().wf()
                    &&& forall|p: int, m1: int, m2: int|
                        #![trigger encodes(self.inner().cipher_val(), self.inner().noise_val(), p, 2, m1), encodes(other.inner().cipher_val(), other.inner().noise_val(), p, 2, m2)]
                        (encodes(self.inner().cipher_val(), self.inner().noise_val(), p, 2, m1)
                            && encodes(
                            other.inner().cipher_val(),
                            other.inner().noise_val(),
                            p,
                            2,
                            m2,
                        )) ==> encodes(
                            ct.inner().cipher_val(),
                            ct.inner().noise_val(),
                            p,
                            2,
                            (m1 + m2) % 2,
                        )
                },
                None => self.inner().noise_val() + other.inner().noise_val() > noise_threshold(2),
            },
    {
        match self.c.add(&other.c) {
            None => None,
            Some(c) => Some(SymetricallyEncryptedBit { c }),
        }
    }

    /// Homomorphic multiplication (conjunction on bits), delegated to the
    /// generic layer.
    pub fn mul(&self, other: &Self) -> (result: Option<Self>)
        ensures
            match result {
                Some(ct) => {
                    &&& ct.inner().cipher_val() == self.inner().cipher_val()
                        * other.inner().cipher_val()
                    &&& ct.inner().noise_val() == self.inner().noise_val()
                        * other.inner().noise_val()
                    &&& ct.inner().noise_val() <= noise_threshold(2)
                    &&& (self.inner().wf() && other.inner().wf()) ==> ct.inner().wf()
                    &&& forall|p: int, m1: int, m2: int|
                        #![trigger encodes(self.inner().cipher_val(), self.inner().noise_val(), p, 2, m1), encodes(other.inner().cipher_val(), other.inner().noise_val(), p, 2, m2)]
                        (encodes(self.inner().cipher_val(), self.inner().noise_val(), p, 2, m1)
                            && encodes(
                            other.inner().cipher_val(),
                            other.inner().noise_val(),
                            p,
                            2,
                            m2,
                        )) ==> encodes(
                            ct.inner().cipher_val(),
                            2 * (self.inner().noise_val() + 1) * (other.inner().noise_val() + 1),
                            p,
                            2,
                            (m1 * m2) % 2,
                        )
                },
                None => self.inner().noise_val() * other.inner().noise_val() > noise_threshold(2),
            },
    {
        match self.c.mul(&other.c) {
            None => None,
            Some(c) => Some(SymetricallyEncryptedBit { c }),
        }
    }
}

impl SymetricEncryption for SymetricallyEncryptedBit {
    type KeyType = num_bigint::BigInt;

    type MessageType = bool;

    open spec fn scheme_ok() -> bool {
        true
    }

    open spec fn valid_key(key: &num_bigint::BigInt) -> bool {
        valid_key_int(big_value(*key), 2)
    }

    open spec fn valid_message(message: &bool) -> bool {
        true
    }

    open spec fn well_formed(&self) -> bool {
        self.inner().wf()
    }

    open spec fn encryption_of(&self, message: &bool, key: &num_bigint::BigInt) -> bool {
        fresh_encryption(
            self.inner().cipher_val(),
            big_value(*key),
            2,
            bit_message(*message) as int,
        ) && self.inner().noise_val() == initial_noise_spec()
    }

    open spec fn decrypted(&self, key: &num_bigint::BigInt) -> bool {
        decrypt_spec(self.inner().cipher_val(), big_value(*key), 2) == 1
    }

    fn key_gen() -> (key: num_bigint::BigInt) {
        SymetricallyEncryptedInteger::<2>::key_gen()
    }

    fn encrypt(message: bool, key: &num_bigint::BigInt) -> (ciphertext: Self) {
        let bit: usize = if message {
            1
        } else {
            0
        };
        SymetricallyEncryptedBit { c: SymetricallyEncryptedInteger::<2>::encrypt_usize(bit, key) }
    }

    /// Decrypt and read the residue as a bit.  The residue is proved to lie
    /// in `[0, 2)`, so it is exactly 0 or 1: the inconsistency abort the
    /// design reserves for other residues cannot be reached.
    fn decrypt(&self, key: &num_bigint::BigInt) -> (message: bool) {
        proof {
            lemma_pow2_pos((ETA - 1) as nat);
        }
        let residue = self.c.decrypt_usize(key);
        proof {
            lemma_mod_bound(
                ((self.inner().cipher_val() + big_value(*key) / 2) % big_value(*key)) - big_value(
                    *key,
                ) / 2,
                2,
            );
        }
        residue == 1
    }
}

} // verus!
