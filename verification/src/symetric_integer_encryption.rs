//! The symmetric cipher for an arbitrary message modulus `N`.
//!
//! A ciphertext is a big integer `c = p*q + N*r + m` together with the
//! tracked noise bound; the private key is the big odd-ish modulus `p`
//! itself.  Homomorphic addition and multiplication combine cipher values
//! directly and refuse to produce a result once the tracked noise bound
//! would cross the safety threshold `key_size / (2 N)`.

use vstd::prelude::*;
use vstd::arithmetic::div_mod::{
    lemma_fundamental_div_mod,
    lemma_mod_bound,
    lemma_mod_add_multiples_vanish,
    lemma_sub_mod_noop,
    lemma_small_mod,
    lemma_div_pos_is_pos,
};
use vstd::arithmetic::mul::lemma_mul_nonnegative;
use vstd::arithmetic::power2::{pow2, lemma_pow2_pos, lemma_pow2_strictly_increases};
use crate::bignum::{
    big_value,
    big_from_usize,
    big_add,
    big_sub,
    big_neg,
    big_mul,
    big_rem,
    big_div,
    big_lt,
    big_to_usize,
    big_rand_range,
};
use crate::params::{
    key_size,
    key_size_spec,
    initial_noise_spec,
    blinding_modulus_bound,
    blinding_modulus_spec,
    noise_threshold,
    noise_threshold_big,
    ETA,
    ETA_SQRT,
};
use crate::arith::{is_coprime_usize, lemma_coprime_mod, lemma_coprime_of_unit_residue};
use crate::encoding::{
    encodes,
    fresh_encryption,
    fresh_encryption_with,
    valid_key_int,
    decrypt_spec,
    lemma_add_encodes,
    lemma_mul_encodes,
    lemma_fresh_is_encoding,
    lemma_add_homomorphic,
    lemma_fresh_mul_round_trip,
    lemma_fresh_ops_within_budget,
    lemma_usize_fits,
};
use crate::SymetricEncryption;

pub use crate::params::initial_noise_size;

verus! {

/// How many random candidates key generation tries before falling back to a
/// deterministic key congruent to 1 modulo `N`.
pub const MAX_KEY_GEN_ATTEMPTS: usize = 64;

/// A symmetric ciphertext for message modulus `N`: the cipher value and the
/// tracked noise bound.
#[derive(Clone)]
pub struct SymetricallyEncryptedInteger<const N: usize> {
    c: num_bigint::BigInt,
    noise_size: num_bigint::BigInt,
}

/// Round trip (law): a ciphertext that is a fresh encryption of `message`
/// under a valid key decrypts to `message`.
pub proof fn lemma_symmetric_round_trip<const N: usize>(
    ct: SymetricallyEncryptedInteger<N>,
    key: &num_bigint::BigInt,
    message: usize,
)
    requires
        2 <= N,
        valid_key_int(big_value(*key), N as int),
        ct.encryption_of(&message, key),
    ensures
        ct.decrypted(key) == message,
{
    lemma_usize_fits(N);
    crate::encoding::lemma_round_trip(
        ct.cipher_val(),
        big_value(*key),
        N as int,
        message as int,
    );
    lemma_mod_bound(
        ((ct.cipher_val() + big_value(*key) / 2) % big_value(*key)) - big_value(*key) / 2,
        N as int,
    );
}


/// Additive homomorphism at the API level (law): the sum of two fresh
/// encryptions under one key decrypts to the modular sum of the messages.
/// Fresh operands never exhaust the budget, so `add` always produces such a
/// sum.
pub proof fn lemma_add_round_trip<const N: usize>(
    a: SymetricallyEncryptedInteger<N>,
    b: SymetricallyEncryptedInteger<N>,
    sum: SymetricallyEncryptedInteger<N>,
    key: &num_bigint::BigInt,
    m1: usize,
    m2: usize,
)
    requires
        2 <= N,
        valid_key_int(big_value(*key), N as int),
        a.encryption_of(&m1, key),
        b.encryption_of(&m2, key),
        sum.cipher_val() == a.cipher_val() + b.cipher_val(),
        sum.noise_val() == a.noise_val() + b.noise_val(),
    ensures
        sum.decrypted(key) as int == (m1 + m2) % (N as int),
{
    let p = big_value(*key);
    let nv = N as int;
    lemma_usize_fits(N);
    lemma_fresh_is_encoding(a.cipher_val(), p, nv, m1 as int);
    lemma_fresh_is_encoding(b.cipher_val(), p, nv, m2 as int);
    lemma_fresh_ops_within_budget(nv);
    lemma_add_homomorphic(
        a.cipher_val(),
        initial_noise_spec(),
        m1 as int,
        b.cipher_val(),
        initial_noise_spec(),
        m2 as int,
        p,
        nv,
    );
    lemma_mod_bound(((sum.cipher_val() + p / 2) % p) - p / 2, nv);
}

/// Multiplicative homomorphism at the API level (law): the product of two
/// fresh encryptions under one key decrypts to the modular product of the
/// messages.  Fresh operands never exhaust the budget, so `mul` always
/// produces such a product.
pub proof fn lemma_mul_round_trip<const N: usize>(
    a: SymetricallyEncryptedInteger<N>,
    b: SymetricallyEncryptedInteger<N>,
    product: SymetricallyEncryptedInteger<N>,
    key: &num_bigint::BigInt,
    m1: usize,
    m2: usize,
)
    requires
        2 <= N,
        valid_key_int(big_value(*key), N as int),
        a.encryption_of(&m1, key),
        b.encryption_of(&m2, key),
        product.cipher_val() == a.cipher_val() * b.cipher_val(),
    ensures
        product.decrypted(key) as int == (m1 * m2) % (N as int),
{
    let p = big_value(*key);
    let nv = N as int;
    lemma_usize_fits(N);
    lemma_fresh_mul_round_trip(a.cipher_val(), m1 as int, b.cipher_val(), m2 as int, p, nv);
    lemma_mod_bound(((product.cipher_val() + p / 2) % p) - p / 2, nv);
}

impl<const N: usize> SymetricallyEncryptedInteger<N> {
    /// The integer value of the cipher component.
    pub closed spec fn cipher_val(&self) -> int {
        big_value(self.c)
    }

    /// The integer value of the tracked noise bound.
    pub closed spec fn noise_val(&self) -> int {
        big_value(self.noise_size)
    }

    /// Structural facts of every ciphertext the scheme produces: the cipher
    /// value is non-negative and the tracked bound covers at least one unit
    /// of noise.
    pub open spec fn wf(&self) -> bool {
        0 <= self.cipher_val() && 1 <= self.noise_val()
    }

    /// Wrap a cipher value and a noise bound as a ciphertext.
    pub fn new(c: num_bigint::BigInt, n: num_bigint::BigInt) -> (ct: Self)
        ensures
            ct.cipher_val() == big_value(c),
            ct.noise_val() == big_value(n),
    {
        SymetricallyEncryptedInteger { c, noise_size: n }
    }

    /// The cipher value.
    pub fn cipher(&self) -> (r: num_bigint::BigInt)
        ensures
            big_value(r) == self.cipher_val(),
    {
        self.c.clone()
    }

    /// The tracked noise bound.
    pub fn noise(&self) -> (r: num_bigint::BigInt)
        ensures
            big_value(r) == self.noise_val(),
    {
        self.noise_size.clone()
    }

    /// Encrypt `message` under the key `p`: draw fresh noise `r` from
    /// `[-2^(ETA_SQRT-1), 2^(ETA_SQRT-1))` and a blinding multiple `q` from
    /// `[2^ETA, 2^(ETA+1))`, and form `p*q + N*r + message`.
    pub fn encrypt_usize(message: usize, p: &num_bigint::BigInt) -> (ct: Self)
        requires
            2 <= N,
            (message as int) < N as int,
            key_size_spec() <= big_value(*p),
        ensures
            ct.wf(),
            ct.noise_val() == initial_noise_spec(),
            fresh_encryption(ct.cipher_val(), big_value(*p), N as int, message as int),
    {
        let bound = initial_noise_size();
        proof {
            lemma_pow2_pos((ETA_SQRT - 1) as nat);
        }
        let min_r = big_neg(&bound);
        let r = big_rand_range(&min_r, &bound);
        let min_q = blinding_modulus_bound();
        proof {
            lemma_pow2_pos(ETA as nat);
        }
        let zero = big_from_usize(0);
        let q_off = big_rand_range(&zero, &min_q);
        let q = big_add(&min_q, &q_off);
        let n_big = big_from_usize(N);
        let m_big = big_from_usize(message);
        let pq = big_mul(p, &q);
        let nr = big_mul(&n_big, &r);
        let c = big_add(&big_add(&pq, &nr), &m_big);
        proof {
            let cv = big_value(c);
            let pv = big_value(*p);
            let nv = N as int;
            let mv = message as int;
            let qv = big_value(q);
            let rv = big_value(r);
            let rho = initial_noise_spec();
            let blind = blinding_modulus_spec();
            assert(fresh_encryption_with(cv, pv, nv, mv, qv, rv));
            lemma_usize_fits(N);
            vstd::arithmetic::power2::lemma_pow2_adds(64, (ETA_SQRT - 1) as nat);
            lemma_pow2_strictly_increases((64 + ETA_SQRT - 1) as nat, ETA as nat);
            lemma_pow2_pos((ETA - 1) as nat);
            assert(0 <= cv) by (nonlinear_arith)
                requires
                    cv == pv * qv + nv * rv + mv,
                    1 <= pv,
                    blind <= qv,
                    -rho <= rv,
                    2 <= nv < pow2(64),
                    0 < rho,
                    pow2(64) * rho == pow2((64 + ETA_SQRT - 1) as nat),
                    pow2((64 + ETA_SQRT - 1) as nat) < blind,
                    0 <= mv,
            ;
        }
        SymetricallyEncryptedInteger { c, noise_size: bound }
    }

    /// Decrypt under the key `p`: the centered remainder of the cipher
    /// value modulo `p`, reduced into `[0, N)`.
    pub fn decrypt_usize(&self, p: &num_bigint::BigInt) -> (message: usize)
        requires
            2 <= N,
            0 < big_value(*p),
            0 <= self.cipher_val(),
        ensures
            message as int == decrypt_spec(self.cipher_val(), big_value(*p), N as int),
    {
        let ghost cv = self.cipher_val();
        let ghost pv = big_value(*p);
        let ghost nv = N as int;
        let two = big_from_usize(2);
        proof {
            lemma_div_pos_is_pos(pv, 2);
        }
        let h = big_div(p, &two);
        let shifted = big_add(&self.c, &h);
        proof {
            lemma_mod_bound(cv + pv / 2, pv);
        }
        let u = big_rem(&shifted, p);
        let n_big = big_from_usize(N);
        proof {
            lemma_mod_bound(big_value(u), nv);
            lemma_mod_bound(pv / 2, nv);
        }
        let a = big_rem(&u, &n_big);
        let b = big_rem(&h, &n_big);
        let num = big_sub(&big_add(&a, &n_big), &b);
        proof {
            lemma_mod_bound(big_value(num), nv);
        }
        let m_big = big_rem(&num, &n_big);
        proof {
            let uv = big_value(u);
            let hv = pv / 2;
            lemma_sub_mod_noop(uv, hv, nv);
            lemma_mod_add_multiples_vanish(uv % nv - hv % nv, nv);
            assert(big_value(m_big) == (uv - hv) % nv);
        }
        big_to_usize(&m_big)
    }

    /// Homomorphic addition: cipher values add, noise bounds add; refused
    /// when the summed bound would cross the threshold.  When it succeeds,
    /// the sum encodes the modular sum of whatever the operands encode.
    pub fn add(&self, other: &Self) -> (result: Option<Self>)
        requires
            2 <= N,
        ensures
            match result {
                Some(ct) => {
                    &&& ct.cipher_val() == self.cipher_val() + other.cipher_val()
                    &&& ct.noise_val() == self.noise_val() + other.noise_val()
                    &&& ct.noise_val() <= noise_threshold(N as int)
                    &&& (self.wf() && other.wf()) ==> ct.wf()
                    &&& forall|p: int, m1: int, m2: int|
                        #![trigger encodes(self.cipher_val(), self.noise_val(), p, N as int, m1), encodes(other.cipher_val(), other.noise_val(), p, N as int, m2)]
                        (encodes(self.cipher_val(), self.noise_val(), p, N as int, m1) && encodes(
                            other.cipher_val(),
                            other.noise_val(),
                            p,
                            N as int,
                            m2,
                        )) ==> encodes(
                            ct.cipher_val(),
                            ct.noise_val(),
                            p,
                            N as int,
                            (m1 + m2) % (N as int),
                        )
                },
                None => self.noise_val() + other.noise_val() > noise_threshold(N as int),
            },
    {
        let noise = big_add(&self.noise_size, &other.noise_size);
        let threshold = noise_threshold_big(N);
        if big_lt(&threshold, &noise) {
            None
        } else {
            let ct = SymetricallyEncryptedInteger {
                c: big_add(&self.c, &other.c),
                noise_size: noise,
            };
            proof {
                assert forall|p: int, m1: int, m2: int|
                    #![trigger encodes(self.cipher_val(), self.noise_val(), p, N as int, m1), encodes(other.cipher_val(), other.noise_val(), p, N as int, m2)]
                    (encodes(self.cipher_val(), self.noise_val(), p, N as int, m1) && encodes(
                        other.cipher_val(),
                        other.noise_val(),
                        p,
                        N as int,
                        m2,
                    )) implies encodes(
                    ct.cipher_val(),
                    ct.noise_val(),
                    p,
                    N as int,
                    (m1 + m2) % (N as int),
                ) by {
                    lemma_add_encodes(
                        self.cipher_val(),
                        self.noise_val(),
                        m1,
                        other.cipher_val(),
                        other.noise_val(),
                        m2,
                        p,
                        N as int,
                    );
                }
            }
            Some(ct)
        }
    }

    /// Homomorphic multiplication: cipher values multiply, tracked noise
    /// bounds multiply; refused when the tracked bound would cross the
    /// threshold.  The sound noise bound of the product is the larger
    /// `N * (b1 + 1) * (b2 + 1)`, which the encoding clause reflects.
    pub fn mul(&self, other: &Self) -> (result: Option<Self>)
        requires
            2 <= N,
        ensures
            match result {
                Some(ct) => {
                    &&& ct.cipher_val() == self.cipher_val() * other.cipher_val()
                    &&& ct.noise_val() == self.noise_val() * other.noise_val()
                    &&& ct.noise_val() <= noise_threshold(N as int)
                    &&& (self.wf() && other.wf()) ==> ct.wf()
                    &&& forall|p: int, m1: int, m2: int|
                        #![trigger encodes(self.cipher_val(), self.noise_val(), p, N as int, m1), encodes(other.cipher_val(), other.noise_val(), p, N as int, m2)]
                        (encodes(self.cipher_val(), self.noise_val(), p, N as int, m1) && encodes(
                            other.cipher_val(),
                            other.noise_val(),
                            p,
                            N as int,
                            m2,
                        )) ==> encodes(
                            ct.cipher_val(),
                            (N as int) * (self.noise_val() + 1) * (other.noise_val() + 1),
                            p,
                            N as int,
                            (m1 * m2) % (N as int),
                        )
                },
                None => self.noise_val() * other.noise_val() > noise_threshold(N as int),
            },
    {
        let noise = big_mul(&self.noise_size, &other.noise_size);
        let threshold = noise_threshold_big(N);
        if big_lt(&threshold, &noise) {
            None
        } else {
            let ct = SymetricallyEncryptedInteger {
                c: big_mul(&self.c, &other.c),
                noise_size: noise,
            };
            proof {
                if self.wf() && other.wf() {
                    lemma_mul_nonnegative(self.cipher_val(), other.cipher_val());
                    assert(1 <= self.noise_val() * other.noise_val()) by (nonlinear_arith)
                        requires
                            1 <= self.noise_val(),
                            1 <= other.noise_val(),
                    ;
                }
                assert forall|p: int, m1: int, m2: int|
                    #![trigger encodes(self.cipher_val(), self.noise_val(), p, N as int, m1), encodes(other.cipher_val(), other.noise_val(), p, N as int, m2)]
                    (encodes(self.cipher_val(), self.noise_val(), p, N as int, m1) && encodes(
                        other.cipher_val(),
                        other.noise_val(),
                        p,
                        N as int,
                        m2,
                    )) implies encodes(
                    ct.cipher_val(),
                    (N as int) * (self.noise_val() + 1) * (other.noise_val() + 1),
                    p,
                    N as int,
                    (m1 * m2) % (N as int),
                ) by {
                    lemma_mul_encodes(
                        self.cipher_val(),
                        self.noise_val(),
                        m1,
                        other.cipher_val(),
                        other.noise_val(),
                        m2,
                        p,
                        N as int,
                    );
                }
            }
            Some(ct)
        }
    }
}

impl<const N: usize> SymetricEncryption for SymetricallyEncryptedInteger<N> {
    type KeyType = num_bigint::BigInt;

    type MessageType = usize;

    open spec fn scheme_ok() -> bool {
        2 <= N
    }

    open spec fn valid_key(key: &num_bigint::BigInt) -> bool {
        valid_key_int(big_value(*key), N as int)
    }

    open spec fn valid_message(message: &usize) -> bool {
        (*message as int) < N as int
    }

    open spec fn well_formed(&self) -> bool {
        self.wf()
    }

    open spec fn encryption_of(&self, message: &usize, key: &num_bigint::BigInt) -> bool {
        fresh_encryption(self.cipher_val(), big_value(*key), N as int, *message as int)
            && self.noise_val() == initial_noise_spec()
    }

    open spec fn decrypted(&self, key: &num_bigint::BigInt) -> usize {
        decrypt_spec(self.cipher_val(), big_value(*key), N as int) as usize
    }

    /// Sample keys uniformly from `[2^(ETA-1), 2^ETA)` until one is coprime
    /// to `N`; after `MAX_KEY_GEN_ATTEMPTS` failures fall back to the
    /// smallest key of the range congruent to 1 modulo `N`, which is always
    /// coprime.  The fallback is a deliberate choice: this signature is
    /// infallible and verified code cannot abort, so exhaustion yields a
    /// valid (though predictable) key instead of surfacing a fatal error.
    fn key_gen() -> (key: num_bigint::BigInt) {
        let min = key_size();
        proof {
            lemma_pow2_pos((ETA - 1) as nat);
        }
        let max = big_add(&min, &min);
        let n_big = big_from_usize(N);
        let mut attempts: usize = 0;
        while attempts < MAX_KEY_GEN_ATTEMPTS
            invariant
                2 <= N,
                big_value(min) == key_size_spec(),
                big_value(max) == 2 * key_size_spec(),
                big_value(n_big) == N as int,
                0 < key_size_spec(),
            decreases MAX_KEY_GEN_ATTEMPTS - attempts,
        {
            let cand = big_rand_range(&min, &max);
            proof {
                lemma_mod_bound(big_value(cand), N as int);
            }
            let residue = big_rem(&cand, &n_big);
            let r_small = big_to_usize(&residue);
            if is_coprime_usize(r_small, N) {
                proof {
                    lemma_coprime_mod(big_value(cand), N as int);
                }
                return cand;
            }
            attempts = attempts + 1;
        }
        proof {
            lemma_mod_bound(key_size_spec(), N as int);
        }
        let t_big = big_rem(&min, &n_big);
        let t = big_to_usize(&t_big);
        let k: usize = if t == 1 {
            0
        } else if t == 0 {
            1
        } else {
            N - t + 1
        };
        let key = big_add(&min, &big_from_usize(k));
        proof {
            let ks = key_size_spec();
            let nv = N as int;
            let kv = k as int;
            lemma_fundamental_div_mod(ks, nv);
            lemma_small_mod(k as nat, N as nat);
            vstd::arithmetic::div_mod::lemma_add_mod_noop(ks, kv, nv);
            if t == 1 {
                lemma_small_mod(1nat, N as nat);
            } else if t == 0 {
                lemma_small_mod(1nat, N as nat);
            } else {
                lemma_mod_add_multiples_vanish(1, nv);
                lemma_small_mod(1nat, N as nat);
            }
            assert((ks + kv) % nv == 1);
            lemma_coprime_of_unit_residue(ks + kv, nv);
            lemma_usize_fits(k);
            lemma_pow2_strictly_increases(64, (ETA - 1) as nat);
        }
        key
    }

    fn encrypt(message: usize, key: &num_bigint::BigInt) -> (ciphertext: Self) {
        Self::encrypt_usize(message, key)
    }

    fn decrypt(&self, key: &num_bigint::BigInt) -> (message: usize) {
        proof {
            lemma_pow2_pos((ETA - 1) as nat);
        }
        let message = self.decrypt_usize(key);
        proof {
            lemma_mod_bound(
                ((self.cipher_val() + big_value(*key) / 2) % big_value(*key)) - big_value(*key) / 2,
                N as int,
            );
        }
        message
    }
}

} // verus!
