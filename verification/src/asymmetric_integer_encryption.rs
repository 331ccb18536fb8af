//! The public-key cipher for message modulus `N`, built on the symmetric
//! one.
//!
//! The public key is a list of `NB_ZEROS` independent symmetric encryptions
//! of zero.  Anyone can encrypt by summing a random subset of them, adding
//! fresh smoothing noise and the message; only the holder of the secret
//! modulus can strip the mask.  The resulting ciphertext is an ordinary
//! symmetric ciphertext, so the homomorphic operators delegate unchanged.

use vstd::prelude::*;
use vstd::arithmetic::div_mod::lemma_mod_bound;
use vstd::arithmetic::power2::{
    pow2,
    lemma_pow2_adds,
    lemma_pow2_pos,
    lemma_pow2_strictly_increases,
    lemma_pow2_unfold,
};
use crate::bignum::{big_value, big_from_usize, big_add, big_neg, big_mul, big_rand_range, coin};
use crate::params::{
    initial_noise_size,
    initial_noise_spec,
    blinding_modulus_spec,
    key_size_spec,
    noise_threshold,
    ETA,
    ETA_SQRT,
};
use crate::encoding::{
    encodes,
    encodes_with,
    fresh_encryption,
    fresh_encryption_with,
    valid_key_int,
    decrypt_spec,
    masked_encodes,
    masked_encodes_with,
    lemma_add_encodes,
    lemma_encoded_decrypts,
    lemma_masked_is_encoding,
    lemma_mul_bound_fits,
    lemma_mul_homomorphic,
    lemma_noise_fits,
    lemma_usize_fits,
};
use crate::symetric_integer_encryption::SymetricallyEncryptedInteger;
use crate::{AsymetricEncryption, SymetricEncryption};

verus! {

/// Every element of `pk` is a fresh symmetric encryption of zero under the
/// secret modulus `p`, carrying the fresh noise bound.
pub open spec fn pk_encodes<const N: usize>(
    pk: Seq<SymetricallyEncryptedInteger<N>>,
    p: int,
) -> bool {
    forall|i: int|
        0 <= i < pk.len() ==> {
            &&& fresh_encryption((#[trigger] pk[i]).cipher_val(), p, N as int, 0)
            &&& pk[i].noise_val() == initial_noise_spec()
            &&& pk[i].wf()
        }
}

/// The noise bound of a subset-sum ciphertext built from `k` included
/// zero-encryptions: `k` units for the sum plus one for the smoothing term.
pub open spec fn subset_noise(k: int) -> int {
    (k + 1) * initial_noise_spec()
}

/// `a == p*q + n*r` for a subset sum of `k` fresh zero-encryptions: the
/// blinding multiples accumulate to at least `k` times their lower bound
/// and the noise stays inside `k` fresh-noise intervals.
pub open spec fn subset_sum_with(a: int, k: int, p: int, n: int, q: int, r: int) -> bool {
    a == p * q + n * r && k * blinding_modulus_spec() <= q && -(k * initial_noise_spec()) <= r <= k
        * (initial_noise_spec() - 1)
}

/// `a` is a possible subset sum of `k` fresh zero-encryptions under `p`.
pub open spec fn subset_sum_ok(a: int, k: int, p: int, n: int) -> bool {
    exists|q: int, r: int| subset_sum_with(a, k, p, n, q, r)
}

/// What a public-key encryption of `m` looks like: its noise tag records
/// `k` included zero-encryptions plus the smoothing unit, and under every
/// modulus consistent with `pk` its cipher value is a masked encoding whose
/// blinding multiple carries at least those `k` elements' blinding mass.
pub open spec fn subset_masked<const N: usize>(
    ct: SymetricallyEncryptedInteger<N>,
    pk: Seq<SymetricallyEncryptedInteger<N>>,
    m: int,
    k: int,
) -> bool {
    &&& 1 <= k <= pk.len()
    &&& ct.noise_val() == subset_noise(k)
    &&& forall|p: int|
        #[trigger] pk_encodes(pk, p) ==> masked_encodes(
            ct.cipher_val(),
            ct.noise_val(),
            k,
            p,
            N as int,
            m,
        )
}

/// Adding one more fresh zero-encryption to a subset sum keeps it a subset
/// sum, with the count increased.
proof fn lemma_subset_step<const N: usize>(
    pk: Seq<SymetricallyEncryptedInteger<N>>,
    a_old: int,
    a_new: int,
    k: int,
    i: int,
    p: int,
)
    requires
        0 <= i < pk.len(),
        0 <= k,
        pk_encodes(pk, p),
        subset_sum_ok(a_old, k, p, N as int),
        a_new == a_old + pk[i].cipher_val(),
    ensures
        subset_sum_ok(a_new, k + 1, p, N as int),
{
    let nv = N as int;
    let rho = initial_noise_spec();
    let blind = blinding_modulus_spec();
    let (qq, rr) = choose|qq: int, rr: int| subset_sum_with(a_old, k, p, nv, qq, rr);
    assert(fresh_encryption(pk[i].cipher_val(), p, nv, 0));
    let (q, r) = choose|q: int, r: int| fresh_encryption_with(pk[i].cipher_val(), p, nv, 0, q, r);
    assert(subset_sum_with(a_new, k + 1, p, nv, qq + q, rr + r)) by (nonlinear_arith)
        requires
            a_old == p * qq + nv * rr,
            k * blind <= qq,
            -(k * rho) <= rr <= k * (rho - 1),
            pk[i].cipher_val() == p * q + nv * r + 0,
            blind <= q,
            -rho <= r <= rho - 1,
            a_new == a_old + pk[i].cipher_val(),
            subset_sum_with(a_new, k + 1, p, nv, qq + q, rr + r) == (a_new == p * (qq + q) + nv * (
            rr + r) && (k + 1) * blind <= qq + q && -((k + 1) * rho) <= rr + r <= (k + 1) * (rho
                - 1)),
    ;
}

/// An asymmetric ciphertext: a symmetric ciphertext produced without ever
/// seeing the private key.
pub struct AsymetricallyEncryptedInteger<const NB_ZEROS: usize, const N: usize> {
    c: SymetricallyEncryptedInteger<N>,
}

impl<const NB_ZEROS: usize, const N: usize> AsymetricallyEncryptedInteger<NB_ZEROS, N> {
    /// The wrapped symmetric ciphertext.
    pub closed spec fn inner(&self) -> SymetricallyEncryptedInteger<N> {
        self.c
    }

    /// Wrap a symmetric ciphertext.
    pub(crate) fn from_cipher(c: SymetricallyEncryptedInteger<N>) -> (r: Self)
        ensures
            r.inner() == c,
    {
        AsymetricallyEncryptedInteger { c }
    }

    /// Homomorphic addition, delegated to the symmetric layer.
    pub fn add(&self, other: &Self) -> (result: Option<Self>)
        requires
            2 <= N,
        ensures
            match result {
                Some(ct) => {
                    &&& ct.inner().cipher_val() == self.inner().cipher_val()
                        + other.inner().cipher_val()
                    &&& ct.inner().noise_val() == self.inner().noise_val()
                        + other.inner().noise_val()
                    &&& ct.inner().noise_val() <= noise_threshold(N as int)
                    &&& (self.inner().wf() && other.inner().wf()) ==> ct.inner().wf()
                    &&& forall|p: int, m1: int, m2: int|
                        #![trigger encodes(self.inner().cipher_val(), self.inner().noise_val(), p, N as int, m1), encodes(other.inner().cipher_val(), other.inner().noise_val(), p, N as int, m2)]
                        (encodes(self.inner().cipher_val(), self.inner().noise_val(), p, N as int, m1)
                            && encodes(
                            other.inner().cipher_val(),
                            other.inner().noise_val(),
                            p,
                            N as int,
                            m2,
                        )) ==> encodes(
                            ct.inner().cipher_val(),
                            ct.inner().noise_val(),
                            p,
                            N as int,
                            (m1 + m2) % (N as int),
                        )
                },
                None => self.inner().noise_val() + other.inner().noise_val() > noise_threshold(
                    N as int,
                ),
            },
    {
        match self.c.add(&other.c) {
            None => None,
            Some(c) => Some(AsymetricallyEncryptedInteger { c }),
        }
    }

    /// Homomorphic multiplication, delegated to the symmetric layer.
    pub fn mul(&self, other: &Self) -> (result: Option<Self>)
        requires
            2 <= N,
        ensures
            match result {
                Some(ct) => {
                    &&& ct.inner().cipher_val() == self.inner().cipher_val()
                        * other.inner().cipher_val()
                    &&& ct.inner().noise_val() == self.inner().noise_val()
                        * other.inner().noise_val()
                    &&& ct.inner().noise_val() <= noise_threshold(N as int)
                    &&& (self.inner().wf() && other.inner().wf()) ==> ct.inner().wf()
                    &&& forall|p: int, m1: int, m2: int|
                        #![trigger encodes(self.inner().cipher_val(), self.inner().noise_val(), p, N as int, m1), encodes(other.inner().cipher_val(), other.inner().noise_val(), p, N as int, m2)]
                        (encodes(self.inner().cipher_val(), self.inner().noise_val(), p, N as int, m1)
                            && encodes(
                            other.inner().cipher_val(),
                            other.inner().noise_val(),
                            p,
                            N as int,
                            m2,
                        )) ==> encodes(
                            ct.inner().cipher_val(),
                            (N as int) * (self.inner().noise_val() + 1) * (other.inner().noise_val()
                                + 1),
                            p,
                            N as int,
                            (m1 * m2) % (N as int),
                        )
                },
                None => self.inner().noise_val() * other.inner().noise_val() > noise_threshold(
                    N as int,
                ),
            },
    {
        match self.c.mul(&other.c) {
            None => None,
            Some(c) => Some(AsymetricallyEncryptedInteger { c }),
        }
    }
}

impl<const NB_ZEROS: usize, const N: usize> AsymetricEncryption for AsymetricallyEncryptedInteger<
    NB_ZEROS,
    N,
> {
    type PublicKeyType = Vec<SymetricallyEncryptedInteger<N>>;

    type PrivateKeyType = num_bigint::BigInt;

    type MessageType = usize;

    open spec fn scheme_ok() -> bool {
        2 <= N && 1 <= NB_ZEROS && NB_ZEROS < usize::MAX
    }

    open spec fn valid_public_key(pk: &Vec<SymetricallyEncryptedInteger<N>>) -> bool {
        pk@.len() == NB_ZEROS as int && exists|p: int|
            #[trigger] pk_encodes(pk@, p) && valid_key_int(p, N as int)
    }

    open spec fn valid_private_key(sk: &num_bigint::BigInt) -> bool {
        valid_key_int(big_value(*sk), N as int)
    }

    open spec fn key_pair_consistent(pk: &Vec<SymetricallyEncryptedInteger<N>>, p: int) -> bool {
        pk@.len() == NB_ZEROS as int && pk_encodes(pk@, p)
    }

    open spec fn private_modulus(sk: &num_bigint::BigInt) -> int {
        big_value(*sk)
    }

    open spec fn valid_message(message: &usize) -> bool {
        (*message as int) < N as int
    }

    open spec fn well_formed(&self) -> bool {
        self.inner().wf()
    }

    open spec fn encryption_of(
        &self,
        message: &usize,
        pk: &Vec<SymetricallyEncryptedInteger<N>>,
    ) -> bool {
        exists|k: int| #[trigger] subset_masked(self.inner(), pk@, *message as int, k)
    }

    open spec fn decrypted(&self, sk: &num_bigint::BigInt) -> usize {
        decrypt_spec(self.inner().cipher_val(), big_value(*sk), N as int) as usize
    }

    /// Generate a symmetric key and publish `NB_ZEROS` fresh encryptions of
    /// zero under it.
    fn key_gen() -> (keys: (Vec<SymetricallyEncryptedInteger<N>>, num_bigint::BigInt)) {
        let sk = SymetricallyEncryptedInteger::<N>::key_gen();
        proof {
            lemma_pow2_pos((ETA - 1) as nat);
        }
        let mut pk: Vec<SymetricallyEncryptedInteger<N>> = Vec::new();
        let mut i: usize = 0;
        while i < NB_ZEROS
            invariant
                2 <= N,
                valid_key_int(big_value(sk), N as int),
                key_size_spec() <= big_value(sk),
                pk@.len() == i as int,
                i <= NB_ZEROS,
                pk_encodes(pk@, big_value(sk)),
            decreases NB_ZEROS - i,
        {
            let z = SymetricallyEncryptedInteger::<N>::encrypt_usize(0, &sk);
            pk.push(z);
            i = i + 1;
        }
        (pk, sk)
    }

    /// Encrypt by subset-sum masking: flip a coin for each public-key
    /// element, summing those included; if none was, include the first.
    /// Add fresh smoothing noise `N*r` and the message.  The tracked noise
    /// bound is one fresh unit per included element plus one for the
    /// smoothing term.
    fn encrypt(
        message: usize,
        pk: &Vec<SymetricallyEncryptedInteger<N>>,
    ) -> (ciphertext: Self) {
        let ghost nv = N as int;
        let ghost rho = initial_noise_spec();
        proof {
            lemma_pow2_pos((ETA_SQRT - 1) as nat);
        }
        let mut acc = big_from_usize(0);
        let mut included: usize = 0;
        let mut i: usize = 0;
        proof {
            assert forall|p: int| #[trigger] pk_encodes(pk@, p) implies subset_sum_ok(
                big_value(acc),
                0,
                p,
                nv,
            ) by {
                assert(subset_sum_with(big_value(acc), 0, p, nv, 0, 0));
            }
        }
        while i < pk.len()
            invariant
                2 <= N,
                pk@.len() == NB_ZEROS as int,
                NB_ZEROS < usize::MAX,
                i <= pk@.len(),
                included <= i,
                forall|p: int|
                    #[trigger] pk_encodes(pk@, p) ==> subset_sum_ok(
                        big_value(acc),
                        included as int,
                        p,
                        N as int,
                    ),
            decreases pk@.len() - i,
        {
            if coin() {
                let ci = pk[i].cipher();
                let new_acc = big_add(&acc, &ci);
                proof {
                    assert forall|p: int| #[trigger] pk_encodes(pk@, p) implies subset_sum_ok(
                        big_value(new_acc),
                        included as int + 1,
                        p,
                        N as int,
                    ) by {
                        lemma_subset_step(
                            pk@,
                            big_value(acc),
                            big_value(new_acc),
                            included as int,
                            i as int,
                            p,
                        );
                    }
                }
                acc = new_acc;
                included = included + 1;
            }
            i = i + 1;
        }
        if included == 0 {
            let c0 = pk[0].cipher();
            let new_acc = big_add(&acc, &c0);
            proof {
                assert forall|p: int| #[trigger] pk_encodes(pk@, p) implies subset_sum_ok(
                    big_value(new_acc),
                    1,
                    p,
                    N as int,
                ) by {
                    lemma_subset_step(pk@, big_value(acc), big_value(new_acc), 0, 0, p);
                }
            }
            acc = new_acc;
            included = 1;
        }
        let bound = initial_noise_size();
        let min_r = big_neg(&bound);
        let r = big_rand_range(&min_r, &bound);
        let n_big = big_from_usize(N);
        let smoothing = big_mul(&n_big, &r);
        let masked = big_add(&acc, &smoothing);
        let m_big = big_from_usize(message);
        let cipher_value = big_add(&masked, &m_big);
        let count_big = big_from_usize(included + 1);
        let noise = big_mul(&count_big, &pk[0].noise());
        let ct = SymetricallyEncryptedInteger::<N>::new(cipher_value, noise);
        proof {
            let cv = big_value(cipher_value);
            let noisev = big_value(noise);
            let kv = included as int;
            let rv = big_value(r);
            let mv = message as int;
            let p0 = choose|p: int| #[trigger] pk_encodes(pk@, p) && valid_key_int(p, nv);
            assert(pk@[0].noise_val() == rho);
            assert(noisev == subset_noise(kv));
            assert forall|p: int| #[trigger] pk_encodes(pk@, p) implies masked_encodes(
                cv,
                noisev,
                kv,
                p,
                nv,
                mv,
            ) by {
                let (qq, rr) = choose|qq: int, rr: int|
                    subset_sum_with(big_value(acc), kv, p, nv, qq, rr);
                assert(masked_encodes_with(cv, noisev, kv, p, nv, mv, qq, rr + rv))
                    by (nonlinear_arith)
                    requires
                        big_value(acc) == p * qq + nv * rr,
                        kv * blinding_modulus_spec() <= qq,
                        -(kv * rho) <= rr <= kv * (rho - 1),
                        -rho <= rv <= rho - 1,
                        cv == big_value(acc) + nv * rv + mv,
                        noisev == (kv + 1) * rho,
                        0 < rho,
                        0 <= kv,
                        masked_encodes_with(cv, noisev, kv, p, nv, mv, qq, rr + rv) == (cv == p * qq
                            + nv * (rr + rv) + mv && kv * blinding_modulus_spec() <= qq && -noisev
                            <= rr + rv < noisev),
                ;
                assert(1 <= noisev) by (nonlinear_arith)
                    requires
                        noisev == (kv + 1) * rho,
                        0 < rho,
                        0 <= kv,
                ;
            }
            // well-formedness of the wrapped ciphertext
            let (qq0, rr0) = choose|qq: int, rr: int|
                subset_sum_with(big_value(acc), kv, p0, nv, qq, rr);
            lemma_usize_fits(N);
            lemma_usize_fits(usize::MAX);
            vstd::arithmetic::power2::lemma_pow2_adds(64, (ETA_SQRT - 1) as nat);
            vstd::arithmetic::power2::lemma_pow2_adds(64, (64 + ETA_SQRT - 1) as nat);
            lemma_pow2_strictly_increases((128 + ETA_SQRT - 1) as nat, ETA as nat);
            lemma_pow2_pos((ETA - 1) as nat);
            assert(0 <= cv && 1 <= noisev) by (nonlinear_arith)
                requires
                    big_value(acc) == p0 * qq0 + nv * rr0,
                    kv * blinding_modulus_spec() <= qq0,
                    -(kv * rho) <= rr0 <= kv * (rho - 1),
                    -rho <= rv <= rho - 1,
                    cv == big_value(acc) + nv * rv + mv,
                    noisev == (kv + 1) * rho,
                    0 < rho,
                    1 <= kv,
                    1 <= p0,
                    0 <= mv,
                    2 <= nv < pow2(64),
                    kv + 1 < pow2(64),
                    rho == pow2((ETA_SQRT - 1) as nat),
                    pow2(64) * pow2((ETA_SQRT - 1) as nat) == pow2((64 + ETA_SQRT - 1) as nat),
                    pow2(64) * pow2((64 + ETA_SQRT - 1) as nat) == pow2(
                        (128 + ETA_SQRT - 1) as nat,
                    ),
                    pow2((128 + ETA_SQRT - 1) as nat) < blinding_modulus_spec(),
            ;
        }
        let ciphertext = AsymetricallyEncryptedInteger { c: ct };
        proof {
            assert(ciphertext.inner() == ct);
            assert(subset_masked(ciphertext.inner(), pk@, message as int, included as int));
        }
        ciphertext
    }

    fn decrypt(&self, sk: &num_bigint::BigInt) -> (message: usize) {
        proof {
            lemma_pow2_pos((ETA - 1) as nat);
        }
        let message = self.c.decrypt_usize(sk);
        proof {
            lemma_mod_bound(
                ((self.inner().cipher_val() + big_value(*sk) / 2) % big_value(*sk)) - big_value(
                    *sk,
                ) / 2,
                N as int,
            );
        }
        message
    }
}

/// Asymmetric round trip (law): a public-key encryption of `m` decrypts to
/// `m` under the private key the public key was built from, and the
/// homomorphic laws of the symmetric layer carry over unchanged because the
/// wrapped value is an ordinary symmetric ciphertext.
pub proof fn lemma_asymmetric_round_trip<const NB_ZEROS: usize, const N: usize>(
    ct: AsymetricallyEncryptedInteger<NB_ZEROS, N>,
    pk: &Vec<SymetricallyEncryptedInteger<N>>,
    sk: &num_bigint::BigInt,
    message: usize,
)
    requires
        2 <= N,
        NB_ZEROS < usize::MAX,
        ct.encryption_of(&message, pk),
        pk@.len() == NB_ZEROS as int,
        pk_encodes(pk@, big_value(*sk)),
        valid_key_int(big_value(*sk), N as int),
    ensures
        ct.decrypted(sk) == message,
{
    let p = big_value(*sk);
    let nv = N as int;
    let cv = ct.inner().cipher_val();
    let noisev = ct.inner().noise_val();
    let k = choose|k: int| #[trigger] subset_masked(ct.inner(), pk@, message as int, k);
    assert(masked_encodes(cv, noisev, k, p, nv, message as int));
    lemma_masked_is_encoding(cv, noisev, k, p, nv, message as int);
    lemma_usize_fits(N);
    lemma_usize_fits(NB_ZEROS);
    lemma_usize_fits(usize::MAX);
    lemma_pow2_strictly_increases(64, 96);
    lemma_noise_fits(nv, k + 1);
    assert(nv * ((k + 1) * initial_noise_spec()) <= p / 2);
    lemma_pow2_pos((ETA - 1) as nat);
    lemma_encoded_decrypts(cv, noisev, p, nv, message as int);
    lemma_mod_bound(((cv + p / 2) % p) - p / 2, nv);
}


/// Additive homomorphism for public-key ciphertexts (law): the sum of two
/// asymmetric encryptions of `m1` and `m2` decrypts to `(m1 + m2) mod N`
/// under the private key the public key was built from.
pub proof fn lemma_asymmetric_add_round_trip<const NB_ZEROS: usize, const N: usize>(
    a: AsymetricallyEncryptedInteger<NB_ZEROS, N>,
    b: AsymetricallyEncryptedInteger<NB_ZEROS, N>,
    sum: AsymetricallyEncryptedInteger<NB_ZEROS, N>,
    pk: &Vec<SymetricallyEncryptedInteger<N>>,
    sk: &num_bigint::BigInt,
    m1: usize,
    m2: usize,
)
    requires
        2 <= N,
        NB_ZEROS < usize::MAX,
        a.encryption_of(&m1, pk),
        b.encryption_of(&m2, pk),
        pk@.len() == NB_ZEROS as int,
        pk_encodes(pk@, big_value(*sk)),
        valid_key_int(big_value(*sk), N as int),
        sum.inner().cipher_val() == a.inner().cipher_val() + b.inner().cipher_val(),
        sum.inner().noise_val() == a.inner().noise_val() + b.inner().noise_val(),
    ensures
        sum.decrypted(sk) as int == (m1 + m2) % (N as int),
{
    let p = big_value(*sk);
    let nv = N as int;
    let rho = initial_noise_spec();
    let b1 = a.inner().noise_val();
    let b2 = b.inner().noise_val();
    let k1 = choose|k: int| #[trigger] subset_masked(a.inner(), pk@, m1 as int, k);
    let k2 = choose|k: int| #[trigger] subset_masked(b.inner(), pk@, m2 as int, k);
    assert(masked_encodes(a.inner().cipher_val(), b1, k1, p, nv, m1 as int));
    assert(masked_encodes(b.inner().cipher_val(), b2, k2, p, nv, m2 as int));
    lemma_masked_is_encoding(a.inner().cipher_val(), b1, k1, p, nv, m1 as int);
    lemma_masked_is_encoding(b.inner().cipher_val(), b2, k2, p, nv, m2 as int);
    lemma_add_encodes(
        a.inner().cipher_val(),
        b1,
        m1 as int,
        b.inner().cipher_val(),
        b2,
        m2 as int,
        p,
        nv,
    );
    lemma_usize_fits(N);
    lemma_usize_fits(NB_ZEROS);
    lemma_pow2_unfold(65);
    lemma_pow2_strictly_increases(65, 96);
    assert(b1 + b2 == (k1 + k2 + 2) * rho) by (nonlinear_arith)
        requires
            b1 == (k1 + 1) * rho,
            b2 == (k2 + 1) * rho,
    ;
    lemma_noise_fits(nv, k1 + k2 + 2);
    assert(nv * ((k1 + k2 + 2) * rho) <= p / 2);
    lemma_pow2_pos((ETA - 1) as nat);
    lemma_encoded_decrypts(sum.inner().cipher_val(), b1 + b2, p, nv, (m1 + m2) % nv);
    lemma_mod_bound(m1 + m2, nv);
}

/// Multiplicative homomorphism for public-key ciphertexts (law): the
/// product of two asymmetric encryptions of `m1` and `m2` decrypts to
/// `(m1 * m2) mod N` under the private key the public key was built from.
pub proof fn lemma_asymmetric_mul_round_trip<const NB_ZEROS: usize, const N: usize>(
    a: AsymetricallyEncryptedInteger<NB_ZEROS, N>,
    b: AsymetricallyEncryptedInteger<NB_ZEROS, N>,
    product: AsymetricallyEncryptedInteger<NB_ZEROS, N>,
    pk: &Vec<SymetricallyEncryptedInteger<N>>,
    sk: &num_bigint::BigInt,
    m1: usize,
    m2: usize,
)
    requires
        2 <= N,
        NB_ZEROS < usize::MAX,
        a.encryption_of(&m1, pk),
        b.encryption_of(&m2, pk),
        pk@.len() == NB_ZEROS as int,
        pk_encodes(pk@, big_value(*sk)),
        valid_key_int(big_value(*sk), N as int),
        product.inner().cipher_val() == a.inner().cipher_val() * b.inner().cipher_val(),
    ensures
        product.decrypted(sk) as int == (m1 * m2) % (N as int),
{
    let p = big_value(*sk);
    let nv = N as int;
    let rho = initial_noise_spec();
    let b1 = a.inner().noise_val();
    let b2 = b.inner().noise_val();
    let k1 = choose|k: int| #[trigger] subset_masked(a.inner(), pk@, m1 as int, k);
    let k2 = choose|k: int| #[trigger] subset_masked(b.inner(), pk@, m2 as int, k);
    assert(masked_encodes(a.inner().cipher_val(), b1, k1, p, nv, m1 as int));
    assert(masked_encodes(b.inner().cipher_val(), b2, k2, p, nv, m2 as int));
    lemma_masked_is_encoding(a.inner().cipher_val(), b1, k1, p, nv, m1 as int);
    lemma_masked_is_encoding(b.inner().cipher_val(), b2, k2, p, nv, m2 as int);
    lemma_usize_fits(N);
    lemma_usize_fits(NB_ZEROS);
    lemma_pow2_pos((ETA_SQRT - 1) as nat);
    lemma_pow2_adds(64, (ETA_SQRT - 1) as nat);
    lemma_pow2_strictly_increases((64 + ETA_SQRT - 1) as nat, 96);
    assert(1 <= b1 <= pow2(96) && 1 <= b2 <= pow2(96)) by (nonlinear_arith)
        requires
            b1 == (k1 + 1) * rho,
            b2 == (k2 + 1) * rho,
            1 <= k1 + 1 <= pow2(64),
            1 <= k2 + 1 <= pow2(64),
            0 < rho,
            pow2(64) * rho == pow2((64 + ETA_SQRT - 1) as nat),
            pow2((64 + ETA_SQRT - 1) as nat) <= pow2(96),
    ;
    lemma_mul_bound_fits(nv, b1, b2);
    assert(nv * (nv * (b1 + 1) * (b2 + 1)) <= p / 2);
    lemma_pow2_pos((ETA - 1) as nat);
    lemma_mul_homomorphic(
        a.inner().cipher_val(),
        b1,
        m1 as int,
        b.inner().cipher_val(),
        b2,
        m2 as int,
        p,
        nv,
    );
    lemma_mod_bound(m1 * m2, nv);
}

} // verus!
