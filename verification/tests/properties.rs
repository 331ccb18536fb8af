use num_bigint::ToBigInt;

use dghv::{AsymetricEncryption, SymetricEncryption, SymetricallyEncryptedInteger};

type SymBit = SymetricallyEncryptedInteger<2>;
type SymByte = SymetricallyEncryptedInteger<256>;

#[test]
fn initial_noise_size_value() {
    let expected = 2.to_bigint().unwrap().pow(31);
    assert_eq!(dghv::params::initial_noise_size(), expected);
}

#[test]
fn key_gen_coprime_test() {
    // A modulus with two prime factors: the generated key must avoid both.
    let key = SymetricallyEncryptedInteger::<6>::key_gen();
    assert!(&key % 2 != 0.to_bigint().unwrap());
    assert!(&key % 3 != 0.to_bigint().unwrap());
}

#[test]
fn new_cipher_noise_round_trip() {
    let c = 12345.to_bigint().unwrap();
    let n = 678.to_bigint().unwrap();
    let ct = SymByte::new(c.clone(), n.clone());
    assert_eq!(ct.cipher(), c);
    assert_eq!(ct.noise(), n);
}

#[test]
fn encrypt_is_randomized() {
    // Two encryptions of one message under one key differ as raw values,
    // while both decrypt to the message.
    let p = SymByte::key_gen();
    let c1 = SymByte::encrypt(42, &p);
    let c2 = SymByte::encrypt(42, &p);
    assert!(c1.cipher() != c2.cipher());
    assert_eq!(c1.decrypt(&p), 42);
    assert_eq!(c2.decrypt(&p), 42);
}

#[test]
fn noise_exhaustion_within_bound() {
    // Repeated homomorphic squaring of a fresh bit ciphertext must hit the
    // noise budget: exactly five squarings pass, the sixth is refused.
    let p = SymBit::key_gen();
    let mut c = SymBit::encrypt(1, &p);
    let mut successes = 0;
    let mut exhausted = false;
    for _ in 0..10 {
        match c.mul(&c) {
            Some(next) => {
                assert_eq!(next.decrypt(&p), 1);
                c = next;
                successes += 1;
            }
            None => {
                exhausted = true;
                break;
            }
        }
    }
    assert!(exhausted);
    assert_eq!(successes, 5);
}

#[test]
fn addition_wraps_around_modulus() {
    let p = SymByte::key_gen();
    let c1 = SymByte::encrypt(200, &p);
    let c2 = SymByte::encrypt(100, &p);
    assert_eq!(c1.add(&c2).unwrap().decrypt(&p), (200 + 100) % 256);
}

#[test]
fn multiplication_wraps_around_modulus() {
    let p = SymetricallyEncryptedInteger::<1024>::key_gen();
    let c1 = SymetricallyEncryptedInteger::<1024>::encrypt(32, &p);
    let c2 = SymetricallyEncryptedInteger::<1024>::encrypt(32, &p);
    assert_eq!(c1.mul(&c2).unwrap().decrypt(&p), (32 * 32) % 1024);
}

#[test]
fn bit_struct_round_trip() {
    let p = dghv::SymetricallyEncryptedBit::key_gen();
    let t = dghv::SymetricallyEncryptedBit::encrypt(true, &p);
    let f = dghv::SymetricallyEncryptedBit::encrypt(false, &p);
    assert_eq!(t.decrypt(&p), true);
    assert_eq!(f.decrypt(&p), false);
    let xor = t.add(&f).unwrap();
    assert_eq!(xor.decrypt(&p), true);
    let and = t.mul(&f).unwrap();
    assert_eq!(and.decrypt(&p), false);
}

#[test]
fn asym_bit_struct_round_trip() {
    let (pk, sk) = dghv::AsymetricallyEncryptedBit::<10>::key_gen();
    let t = dghv::AsymetricallyEncryptedBit::<10>::encrypt(true, &pk);
    let f = dghv::AsymetricallyEncryptedBit::<10>::encrypt(false, &pk);
    assert_eq!(t.decrypt(&sk), true);
    assert_eq!(f.decrypt(&sk), false);
    let xor = t.add(&f).unwrap();
    assert_eq!(xor.decrypt(&sk), true);
    let and = t.mul(&f).unwrap();
    assert_eq!(and.decrypt(&sk), false);
}

#[test]
fn asym_byte_struct_round_trip() {
    let (pk, sk) = dghv::AsymetricallyEncryptedByte::<10>::key_gen();
    let a = dghv::AsymetricallyEncryptedByte::<10>::encrypt(200u8, &pk);
    let b = dghv::AsymetricallyEncryptedByte::<10>::encrypt(100u8, &pk);
    assert_eq!(a.decrypt(&sk), 200u8);
    assert_eq!(b.decrypt(&sk), 100u8);
    let sum = a.add(&b).unwrap();
    assert_eq!(sum.decrypt(&sk), 44u8);
    let c = dghv::AsymetricallyEncryptedByte::<10>::encrypt(15u8, &pk);
    let d = dghv::AsymetricallyEncryptedByte::<10>::encrypt(16u8, &pk);
    let product = c.mul(&d).unwrap();
    assert_eq!(product.decrypt(&sk), 240u8);
}

#[test]
fn byte_new_wraps_symmetric_cipher() {
    let sk = SymByte::key_gen();
    let sym = SymByte::encrypt_usize(7, &sk);
    let asym = dghv::AsymetricallyEncryptedByte::<10>::new(sym);
    assert_eq!(asym.decrypt(&sk), 7u8);
}

#[test]
fn bit_new_wraps_raw_values() {
    // A ciphertext assembled from raw parts decrypts by the same centered
    // remainder: key * 3 + 2*1 + 1 hides the bit 1.
    let p = SymBit::key_gen();
    let c = &p * 3.to_bigint().unwrap() + 2.to_bigint().unwrap() + 1.to_bigint().unwrap();
    let noise = 1.to_bigint().unwrap();
    let ct = dghv::SymetricallyEncryptedBit::new(c, noise);
    assert_eq!(ct.decrypt(&p), true);
}

#[test]
fn encrypt_usize_decrypt_usize_round_trip() {
    let p = SymetricallyEncryptedInteger::<1024>::key_gen();
    for n in [0, 1, 511, 1023] {
        let ct = SymetricallyEncryptedInteger::<1024>::encrypt_usize(n, &p);
        assert_eq!(ct.decrypt_usize(&p), n);
    }
}
