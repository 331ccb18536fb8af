//! The mathematical heart of the scheme: what a ciphertext value encodes,
//! what decryption computes, and the laws the homomorphic operators obey.
//!
//! A cipher value `c` encodes the message `m` modulo `n` under the secret
//! modulus `p` when `c == p*q + n*r + m` for some blinding multiple `q` and
//! noise `r` within a tracked bound.  Decryption takes the centered
//! remainder of `c` modulo `p` and reduces it modulo `n`; it recovers `m`
//! exactly while `n` times the noise bound stays below `p / 2`.

use vstd::prelude::*;
use vstd::arithmetic::div_mod::{
    lemma_fundamental_div_mod,
    lemma_fundamental_div_mod_converse_mod,
    lemma_mod_bound,
    lemma_div_is_ordered,
    lemma_div_is_ordered_by_denominator,
    lemma_div_multiples_vanish,
};
use vstd::arithmetic::mul::lemma_mul_is_commutative;
use vstd::arithmetic::power2::{
    pow2,
    lemma_pow2_adds,
    lemma_pow2_pos,
    lemma_pow2_strictly_increases,
    lemma_pow2_subtracts,
    lemma_pow2_unfold,
};
use crate::params::{
    key_size_spec,
    initial_noise_spec,
    blinding_modulus_spec,
    noise_threshold,
    ETA,
    ETA_SQRT,
};
use crate::arith::coprime;

verus! {

/// `c == p*q + n*r + m` for this particular blinding multiple `q` and
/// noise `r`, with `r` inside the half-open noise interval.
pub open spec fn encodes_with(c: int, noise: int, p: int, n: int, m: int, q: int, r: int) -> bool {
    c == p * q + n * r + m && -noise <= r < noise
}

/// `c` hides the message `m` modulo `n` under the secret modulus `p`, with
/// accumulated noise within the tracked bound `noise`.
pub open spec fn encodes(c: int, noise: int, p: int, n: int, m: int) -> bool {
    0 <= m < n && 1 <= noise && exists|q: int, r: int| encodes_with(c, noise, p, n, m, q, r)
}

/// A fresh encryption: `c == p*q + n*r + m` with the blinding multiple in
/// its sampled range and the noise in the fresh-noise range.
pub open spec fn fresh_encryption_with(c: int, p: int, n: int, m: int, q: int, r: int) -> bool {
    c == p * q + n * r + m && blinding_modulus_spec() <= q < 2 * blinding_modulus_spec()
        && -initial_noise_spec() <= r < initial_noise_spec()
}

/// `c` is a value fresh encryption of `m` modulo `n` under `p` can produce.
pub open spec fn fresh_encryption(c: int, p: int, n: int, m: int) -> bool {
    0 <= m < n && exists|q: int, r: int| fresh_encryption_with(c, p, n, m, q, r)
}

/// `c == p*q + n*r + m` for this particular blinding multiple `q` and noise
/// `r`, with `q` carrying at least `k` sampled blinding multiples' mass.
pub open spec fn masked_encodes_with(
    c: int,
    noise: int,
    k: int,
    p: int,
    n: int,
    m: int,
    q: int,
    r: int,
) -> bool {
    c == p * q + n * r + m && k * blinding_modulus_spec() <= q && -noise <= r < noise
}

/// `c` hides `m` modulo `n` under `p` behind a mask built from at least `k`
/// blinded components: the blinding multiple is bounded below by
/// `k * 2^ETA`, so a bare, unmasked value cannot satisfy this.
pub open spec fn masked_encodes(c: int, noise: int, k: int, p: int, n: int, m: int) -> bool {
    0 <= m < n && 1 <= noise && exists|q: int, r: int|
        masked_encodes_with(c, noise, k, p, n, m, q, r)
}

/// A masked encoding is in particular an encoding.
pub proof fn lemma_masked_is_encoding(c: int, noise: int, k: int, p: int, n: int, m: int)
    requires
        masked_encodes(c, noise, k, p, n, m),
    ensures
        encodes(c, noise, p, n, m),
{
    let (q, r) = choose|q: int, r: int| masked_encodes_with(c, noise, k, p, n, m, q, r);
    assert(encodes_with(c, noise, p, n, m, q, r));
}

/// A valid private key for message modulus `n`: an integer of the key range
/// `[2^(ETA-1), 2^ETA)` sharing no divisor with `n`.
pub open spec fn valid_key_int(p: int, n: int) -> bool {
    key_size_spec() <= p < 2 * key_size_spec() && coprime(p, n)
}

/// The value decryption computes from a cipher value: the centered
/// remainder modulo `p`, reduced modulo `n`.
pub open spec fn decrypt_spec(c: int, p: int, n: int) -> int {
    (((c + p / 2) % p) - p / 2) % n
}

/// Every machine-word value fits under `2^64`, whichever width the
/// platform's `usize` has.
pub proof fn lemma_usize_fits(x: usize)
    ensures
        (x as int) < pow2(64),
{
    vstd::arithmetic::power2::lemma2_to64();
}

/// A fresh encryption is an encoding at the fresh-noise bound.
pub proof fn lemma_fresh_is_encoding(c: int, p: int, n: int, m: int)
    requires
        fresh_encryption(c, p, n, m),
    ensures
        encodes(c, initial_noise_spec(), p, n, m),
{
    lemma_pow2_pos((ETA_SQRT - 1) as nat);
    let (q, r) = choose|q: int, r: int| fresh_encryption_with(c, p, n, m, q, r);
    assert(encodes_with(c, initial_noise_spec(), p, n, m, q, r));
}

/// The centered-remainder recovery: if `c == p*q + n*r + m` and the payload
/// `n*r + m` lies within the centered range of `p`, decryption returns `m`.
pub proof fn lemma_decrypt_recovers(c: int, p: int, n: int, m: int, q: int, r: int)
    requires
        0 < p,
        2 <= n,
        0 <= m < n,
        c == p * q + n * r + m,
        -(p / 2) <= n * r + m,
        n * r + m < p - p / 2,
    ensures
        decrypt_spec(c, p, n) == m,
{
    let h = p / 2;
    let e = n * r + m;
    assert(c + h == q * p + (e + h)) by {
        lemma_mul_is_commutative(p, q);
    }
    lemma_fundamental_div_mod_converse_mod(c + h, p, q, e + h);
    assert((c + h) % p == e + h);
    assert(e == r * n + m) by {
        lemma_mul_is_commutative(n, r);
    }
    lemma_fundamental_div_mod_converse_mod(e, n, r, m);
    assert(e % n == m);
}

/// An encoding whose noise satisfies `n * noise <= p / 2` decrypts to its
/// message.
pub proof fn lemma_encoded_decrypts(c: int, noise: int, p: int, n: int, m: int)
    requires
        0 < p,
        2 <= n,
        encodes(c, noise, p, n, m),
        n * noise <= p / 2,
    ensures
        decrypt_spec(c, p, n) == m,
{
    let (q, r) = choose|q: int, r: int| encodes_with(c, noise, p, n, m, q, r);
    let h = p / 2;
    lemma_fundamental_div_mod(p, 2);
    lemma_mod_bound(p, 2);
    assert(-h <= n * r + m && n * r + m < p - h) by (nonlinear_arith)
        requires
            -noise <= r < noise,
            0 <= m < n,
            2 <= n,
            1 <= noise,
            n * noise <= h,
            p == 2 * h + p % 2,
            0 <= p % 2 < 2,
    ;
    lemma_decrypt_recovers(c, p, n, m, q, r);
}

/// The threshold is safe for addition: a noise bound that passes the
/// `Add`/`Multiply` check satisfies the recovery condition for every key in
/// the valid range.
pub proof fn lemma_threshold_safe(n: int, b: int, p: int)
    requires
        2 <= n,
        0 <= b,
        b <= noise_threshold(n),
        key_size_spec() <= p,
    ensures
        n * b <= p / 2,
{
    let ks = key_size_spec();
    let t = ks / (2 * n);
    lemma_fundamental_div_mod(ks, 2 * n);
    lemma_mod_bound(ks, 2 * n);
    lemma_fundamental_div_mod(ks, 2);
    lemma_mod_bound(ks, 2);
    assert(n * b <= ks / 2) by (nonlinear_arith)
        requires
            2 <= n,
            0 <= b <= t,
            ks == (2 * n) * t + ks % (2 * n),
            0 <= ks % (2 * n),
            ks == 2 * (ks / 2) + ks % 2,
            0 <= ks % 2 < 2,
    ;
    lemma_div_is_ordered(ks, p, 2);
}

/// Round trip (additive identity of the laws): a fresh encryption of `m`
/// under a key of the valid range decrypts to `m`, for every message
/// modulus that fits a machine word.
pub proof fn lemma_round_trip(c: int, p: int, n: int, m: int)
    requires
        2 <= n,
        n < pow2(64),
        key_size_spec() <= p,
        fresh_encryption(c, p, n, m),
    ensures
        decrypt_spec(c, p, n) == m,
{
    lemma_fresh_is_encoding(c, p, n, m);
    vstd::arithmetic::power2::lemma2_to64();
    lemma_pow2_strictly_increases(0, 96);
    lemma_noise_fits(n, 1);
    lemma_pow2_pos((ETA - 1) as nat);
    lemma_encoded_decrypts(c, initial_noise_spec(), p, n, m);
}

/// For every modulus `n < 2^64` and ciphertext count `k < 2^64`, the noise
/// bound `k * 2^(ETA_SQRT - 1)` satisfies the recovery condition
/// `n * noise <= p / 2` for every key of the valid range.
pub proof fn lemma_noise_fits(n: int, k: int)
    requires
        2 <= n,
        n < pow2(64),
        1 <= k,
        k < pow2(96),
    ensures
        forall|p: int|
            key_size_spec() <= p ==> n * (k * initial_noise_spec()) <= #[trigger] (p / 2),
{
    let rho = initial_noise_spec();
    lemma_pow2_adds(96, (ETA_SQRT - 1) as nat);
    lemma_pow2_adds(64, (96 + ETA_SQRT - 1) as nat);
    lemma_pow2_strictly_increases((160 + ETA_SQRT - 1) as nat, (ETA - 2) as nat);
    lemma_pow2_unfold((ETA - 1) as nat);
    lemma_pow2_pos((ETA_SQRT - 1) as nat);
    assert(n * (k * rho) < pow2((160 + ETA_SQRT - 1) as nat)) by (nonlinear_arith)
        requires
            2 <= n < pow2(64),
            1 <= k < pow2(96),
            0 < rho,
            pow2(96) * rho == pow2((96 + ETA_SQRT - 1) as nat),
            pow2(64) * pow2((96 + ETA_SQRT - 1) as nat) == pow2((160 + ETA_SQRT - 1) as nat),
    ;
    let ks = key_size_spec();
    assert forall|p: int| ks <= p implies n * (k * rho) <= #[trigger] (p / 2) by {
        lemma_div_is_ordered(ks, p, 2);
        lemma_div_multiples_vanish(pow2((ETA - 2) as nat) as int, 2);
        assert(ks / 2 == pow2((ETA - 2) as nat));
    }
}

/// For bounds up to `2^96`, the sound product noise bound
/// `n * (b1 + 1) * (b2 + 1)` satisfies the recovery condition for every key
/// of the valid range.
pub proof fn lemma_mul_bound_fits(n: int, b1: int, b2: int)
    requires
        2 <= n,
        n < pow2(64),
        1 <= b1 <= pow2(96),
        1 <= b2 <= pow2(96),
    ensures
        forall|p: int|
            key_size_spec() <= p ==> n * (n * (b1 + 1) * (b2 + 1)) <= #[trigger] (p / 2),
{
    let ks = key_size_spec();
    lemma_pow2_pos(96);
    lemma_pow2_pos(97);
    lemma_pow2_pos(161);
    lemma_pow2_pos(258);
    lemma_pow2_unfold(97);
    lemma_pow2_adds(64, 97);
    lemma_pow2_adds(161, 97);
    lemma_pow2_adds(64, 258);
    lemma_pow2_strictly_increases(322, (ETA - 2) as nat);
    lemma_pow2_unfold((ETA - 1) as nat);
    assert(n * (n * (b1 + 1) * (b2 + 1)) <= pow2(322)) by (nonlinear_arith)
        requires
            2 <= n < pow2(64),
            1 <= b1,
            b1 + 1 <= pow2(97),
            1 <= b2,
            b2 + 1 <= pow2(97),
            pow2(64) * pow2(97) == pow2(161),
            pow2(161) * pow2(97) == pow2(258),
            pow2(64) * pow2(258) == pow2(322),
            0 < pow2(97),
            0 < pow2(161),
            0 < pow2(258),
    ;
    assert forall|p: int| ks <= p implies n * (n * (b1 + 1) * (b2 + 1)) <= #[trigger] (p
        / 2) by {
        lemma_div_is_ordered(ks, p, 2);
        lemma_div_multiples_vanish(pow2((ETA - 2) as nat) as int, 2);
        assert(ks / 2 == pow2((ETA - 2) as nat));
    }
}

/// Additive combination of encodings: the sum of two cipher values encodes
/// the modular sum of the messages, at the sum of the noise bounds.
pub proof fn lemma_add_encodes(
    c1: int,
    b1: int,
    m1: int,
    c2: int,
    b2: int,
    m2: int,
    p: int,
    n: int,
)
    requires
        2 <= n,
        encodes(c1, b1, p, n, m1),
        encodes(c2, b2, p, n, m2),
    ensures
        encodes(c1 + c2, b1 + b2, p, n, (m1 + m2) % n),
{
    let (q1, r1) = choose|q: int, r: int| encodes_with(c1, b1, p, n, m1, q, r);
    let (q2, r2) = choose|q: int, r: int| encodes_with(c2, b2, p, n, m2, q, r);
    let s = (m1 + m2) / n;
    let m12 = (m1 + m2) % n;
    lemma_fundamental_div_mod(m1 + m2, n);
    lemma_mod_bound(m1 + m2, n);
    assert(0 <= s <= 1) by (nonlinear_arith)
        requires
            m1 + m2 == n * s + m12,
            0 <= m12 < n,
            0 <= m1 < n,
            0 <= m2 < n,
            2 <= n,
    ;
    assert(c1 + c2 == p * (q1 + q2) + n * (r1 + r2 + s) + m12) by (nonlinear_arith)
        requires
            c1 == p * q1 + n * r1 + m1,
            c2 == p * q2 + n * r2 + m2,
            m1 + m2 == n * s + m12,
    ;
    assert(encodes_with(c1 + c2, b1 + b2, p, n, m12, q1 + q2, r1 + r2 + s));
}

/// Multiplicative combination of encodings: the product of two cipher
/// values encodes the modular product of the messages.  The sound noise
/// bound of the product is `n * (b1 + 1) * (b2 + 1)`; it exceeds the
/// `b1 * b2` the operators track, which is why the multiplicative law
/// carries its own smallness hypothesis.
#[verifier::rlimit(50)]
pub proof fn lemma_mul_encodes(
    c1: int,
    b1: int,
    m1: int,
    c2: int,
    b2: int,
    m2: int,
    p: int,
    n: int,
)
    requires
        2 <= n,
        encodes(c1, b1, p, n, m1),
        encodes(c2, b2, p, n, m2),
    ensures
        encodes(c1 * c2, n * (b1 + 1) * (b2 + 1), p, n, (m1 * m2) % n),
{
    let (q1, r1) = choose|q: int, r: int| encodes_with(c1, b1, p, n, m1, q, r);
    let (q2, r2) = choose|q: int, r: int| encodes_with(c2, b2, p, n, m2, q, r);
    let s = (m1 * m2) / n;
    let m12 = (m1 * m2) % n;
    assert(0 <= m1 * m2) by (nonlinear_arith)
        requires
            0 <= m1,
            0 <= m2,
    ;
    lemma_fundamental_div_mod(m1 * m2, n);
    lemma_mod_bound(m1 * m2, n);
    assert(0 <= s <= n - 2) by (nonlinear_arith)
        requires
            m1 * m2 == n * s + m12,
            0 <= m12 < n,
            0 <= m1 < n,
            0 <= m2 < n,
            2 <= n,
    ;
    let e1 = n * r1 + m1;
    let e2 = n * r2 + m2;
    let qq = p * q1 * q2 + q1 * e2 + q2 * e1;
    let rr = n * r1 * r2 + r1 * m2 + r2 * m1 + s;
    assert(c1 * c2 == p * qq + e1 * e2) by (nonlinear_arith)
        requires
            c1 == p * q1 + e1,
            c2 == p * q2 + e2,
            qq == p * q1 * q2 + q1 * e2 + q2 * e1,
    ;
    assert(e1 * e2 == n * (n * r1 * r2 + r1 * m2 + r2 * m1) + m1 * m2) by (nonlinear_arith)
        requires
            e1 == n * r1 + m1,
            e2 == n * r2 + m2,
    ;
    assert(n * rr == n * (n * r1 * r2 + r1 * m2 + r2 * m1) + n * s) by (nonlinear_arith)
        requires
            rr == n * r1 * r2 + r1 * m2 + r2 * m1 + s,
    ;
    assert(e1 * e2 == n * rr + m12);
    assert(c1 * c2 == p * qq + n * rr + m12);
    let bb = n * (b1 + 1) * (b2 + 1);
    assert(-bb <= rr < bb) by (nonlinear_arith)
        requires
            rr == n * r1 * r2 + r1 * m2 + r2 * m1 + s,
            bb == n * (b1 + 1) * (b2 + 1),
            -b1 <= r1 < b1,
            -b2 <= r2 < b2,
            0 <= m1 < n,
            0 <= m2 < n,
            0 <= s <= n - 2,
            2 <= n,
            1 <= b1,
            1 <= b2,
    ;
    assert(1 <= bb) by (nonlinear_arith)
        requires
            bb == n * (b1 + 1) * (b2 + 1),
            2 <= n,
            1 <= b1,
            1 <= b2,
    ;
    assert(encodes_with(c1 * c2, bb, p, n, m12, qq, rr));
}

/// Additive homomorphism (law): when both operands encode messages under
/// the same key and the summed noise bound passes the threshold check, the
/// summed cipher value decrypts to the modular sum of the messages.
pub proof fn lemma_add_homomorphic(
    c1: int,
    b1: int,
    m1: int,
    c2: int,
    b2: int,
    m2: int,
    p: int,
    n: int,
)
    requires
        2 <= n,
        key_size_spec() <= p,
        encodes(c1, b1, p, n, m1),
        encodes(c2, b2, p, n, m2),
        b1 + b2 <= noise_threshold(n),
    ensures
        decrypt_spec(c1 + c2, p, n) == (m1 + m2) % n,
{
    lemma_add_encodes(c1, b1, m1, c2, b2, m2, p, n);
    lemma_threshold_safe(n, b1 + b2, p);
    lemma_pow2_pos((ETA - 1) as nat);
    lemma_encoded_decrypts(c1 + c2, b1 + b2, p, n, (m1 + m2) % n);
}

/// Multiplicative homomorphism (law): when both operands encode messages
/// under the same key and the sound product noise bound satisfies the
/// recovery condition, the product of the cipher values decrypts to the
/// modular product of the messages.
pub proof fn lemma_mul_homomorphic(
    c1: int,
    b1: int,
    m1: int,
    c2: int,
    b2: int,
    m2: int,
    p: int,
    n: int,
)
    requires
        2 <= n,
        key_size_spec() <= p,
        encodes(c1, b1, p, n, m1),
        encodes(c2, b2, p, n, m2),
        n * (n * (b1 + 1) * (b2 + 1)) <= p / 2,
    ensures
        decrypt_spec(c1 * c2, p, n) == (m1 * m2) % n,
{
    lemma_mul_encodes(c1, b1, m1, c2, b2, m2, p, n);
    lemma_pow2_pos((ETA - 1) as nat);
    lemma_encoded_decrypts(c1 * c2, n * (b1 + 1) * (b2 + 1), p, n, (m1 * m2) % n);
}

/// Multiplying two fresh encryptions always stays within tolerance: the
/// concrete shape of the multiplicative law for messages encrypted directly.
pub proof fn lemma_fresh_mul_round_trip(c1: int, m1: int, c2: int, m2: int, p: int, n: int)
    requires
        2 <= n,
        n < pow2(64),
        key_size_spec() <= p,
        fresh_encryption(c1, p, n, m1),
        fresh_encryption(c2, p, n, m2),
    ensures
        decrypt_spec(c1 * c2, p, n) == (m1 * m2) % n,
{
    lemma_fresh_is_encoding(c1, p, n, m1);
    lemma_fresh_is_encoding(c2, p, n, m2);
    let rho = initial_noise_spec();
    lemma_pow2_pos((ETA_SQRT - 1) as nat);
    vstd::arithmetic::power2::lemma2_to64();
    let ks = key_size_spec();
    lemma_pow2_adds((ETA_SQRT - 1) as nat, (ETA_SQRT - 1) as nat);
    lemma_pow2_adds(64, (2 * (ETA_SQRT - 1)) as nat);
    lemma_pow2_adds(64, (64 + 2 * (ETA_SQRT - 1)) as nat);
    lemma_pow2_adds(2, (128 + 2 * (ETA_SQRT - 1)) as nat);
    lemma_pow2_strictly_increases((130 + 2 * (ETA_SQRT - 1)) as nat, (ETA - 2) as nat);
    lemma_pow2_unfold((ETA - 1) as nat);
    assert(n * (n * (rho + 1) * (rho + 1)) <= pow2((130 + 2 * (ETA_SQRT - 1)) as nat))
        by (nonlinear_arith)
        requires
            2 <= n < pow2(64),
            0 < rho,
            rho * rho == pow2((2 * (ETA_SQRT - 1)) as nat),
            pow2(64) * pow2((2 * (ETA_SQRT - 1)) as nat) == pow2((64 + 2 * (ETA_SQRT - 1)) as nat),
            pow2(64) * pow2((64 + 2 * (ETA_SQRT - 1)) as nat) == pow2(
                (128 + 2 * (ETA_SQRT - 1)) as nat,
            ),
            pow2(2) * pow2((128 + 2 * (ETA_SQRT - 1)) as nat) == pow2(
                (130 + 2 * (ETA_SQRT - 1)) as nat,
            ),
            pow2(2) == 4,
    ;
    lemma_div_is_ordered(ks, p, 2);
    lemma_div_multiples_vanish(pow2((ETA - 2) as nat) as int, 2);
    lemma_mul_homomorphic(c1, rho, m1, c2, rho, m2, p, n);
}

/// Fresh operands never exhaust the budget: both the summed and the
/// multiplied fresh-noise bounds pass the threshold check, for every
/// message modulus that fits a machine word.
pub proof fn lemma_fresh_ops_within_budget(n: int)
    requires
        2 <= n,
        n < pow2(64),
    ensures
        initial_noise_spec() + initial_noise_spec() <= noise_threshold(n),
        initial_noise_spec() * initial_noise_spec() <= noise_threshold(n),
{
    let ks = key_size_spec();
    let rho = initial_noise_spec();
    lemma_pow2_adds((ETA_SQRT - 1) as nat, (ETA_SQRT - 1) as nat);
    lemma_pow2_unfold(ETA_SQRT as nat);
    lemma_pow2_unfold(65);
    lemma_pow2_pos(64);
    lemma_pow2_pos((ETA - 1) as nat);
    assert(2 * n <= pow2(65));
    lemma_div_is_ordered_by_denominator(ks, 2 * n, pow2(65) as int);
    lemma_pow2_subtracts(65, (ETA - 1) as nat);
    lemma_pow2_strictly_increases(ETA_SQRT as nat, (ETA - 1 - 65) as nat);
    lemma_pow2_strictly_increases((2 * (ETA_SQRT - 1)) as nat, (ETA - 1 - 65) as nat);
}

/// The tracked noise bound after `k` homomorphic squarings of a fresh
/// ciphertext: squaring multiplies the bound by itself.
pub open spec fn squared_noise(k: nat) -> int
    decreases k,
{
    if k == 0 {
        initial_noise_spec()
    } else {
        squared_noise((k - 1) as nat) * squared_noise((k - 1) as nat)
    }
}

/// Noise exhaustion is reachable and deterministic (law): starting from a
/// fresh bit ciphertext, five homomorphic squarings pass the threshold
/// check and the sixth must be refused.  Together with the exact
/// `Some`/`None` contract of `mul`, this pins the step at which repeated
/// squaring stops.
pub proof fn lemma_noise_exhaustion()
    ensures
        squared_noise(5) <= noise_threshold(2),
        squared_noise(5) * squared_noise(5) > noise_threshold(2),
        squared_noise(6) > noise_threshold(2),
{
    lemma_squared_noise_pow2();
    lemma_pow2_adds(1023, 2);
    assert(pow2(2) == 4 && pow2(1) == 2) by {
        vstd::arithmetic::power2::lemma2_to64();
    }
    assert(noise_threshold(2) == pow2(1025) as int / 4);
    assert(pow2(1025) == 4 * pow2(1023));
    lemma_div_multiples_vanish(pow2(1023) as int, 4);
    assert(noise_threshold(2) == pow2(1023));
    lemma_pow2_strictly_increases(992, 1023);
    lemma_pow2_strictly_increases(1023, 1984);
}

/// The tracked bound after `k` squarings is `2^((ETA_SQRT - 1) * 2^k)`.
proof fn lemma_squared_noise_pow2()
    ensures
        squared_noise(5) == pow2(992),
        squared_noise(6) == pow2(1984),
{
    assert(squared_noise(0) == pow2(31));
    lemma_pow2_adds(31, 31);
    assert(squared_noise(1) == pow2(62));
    lemma_pow2_adds(62, 62);
    assert(squared_noise(2) == pow2(124));
    lemma_pow2_adds(124, 124);
    assert(squared_noise(3) == pow2(248));
    lemma_pow2_adds(248, 248);
    assert(squared_noise(4) == pow2(496));
    lemma_pow2_adds(496, 496);
    assert(squared_noise(5) == pow2(992));
    lemma_pow2_adds(992, 992);
    assert(squared_noise(6) == pow2(1984));
}

} // verus!
