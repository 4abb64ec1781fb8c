use bfv::bigint::BigNat;
use bfv::modulus::Modulus;
use bfv::parameters::BfvParameters;
use bfv::sampling::{error_from_word, ternary_from_word, uniform_residue};
use bfv::secret_key::SecretKey;
use num_bigint::BigUint;
use rand::SeedableRng;
use rand_chacha::ChaCha8Rng;

#[test]
fn errors_count_ones() {
    assert_eq!(error_from_word(0, 10), 0);
    assert_eq!(error_from_word(0b111, 10), 3);
    assert_eq!(error_from_word(0b111, 2), 2);
    assert_eq!(error_from_word(0b111, 0), 0);
    assert_eq!(error_from_word(1 << 32, 10), -1);
    assert_eq!(error_from_word(u64::MAX, 32), 0);
    assert_eq!(error_from_word(0xffff_ffff, 32), 32);
    assert_eq!(error_from_word(0xffff_ffff << 32, 32), -32);
    assert_eq!(error_from_word(0xffff_ffff << 32, 10), -10);
    assert_eq!(error_from_word((0b1011 << 32) | 0b1, 10), -2);
}

#[test]
fn ternary_digits() {
    assert_eq!(ternary_from_word(0), -1);
    assert_eq!(ternary_from_word(1), 0);
    assert_eq!(ternary_from_word(2), 1);
    assert_eq!(ternary_from_word(3), -1);
    assert_eq!(ternary_from_word(u64::MAX), -1);
    assert_eq!(ternary_from_word(u64::MAX - 1), 1);
}

#[test]
fn wide_residues() {
    let q = Modulus::new(65537).unwrap();
    assert_eq!(uniform_residue(0, 5, &q), 5);
    assert_eq!(uniform_residue(0, 65537, &q), 0);
    // 2^64 leaves one modulo 2^16 + 1
    assert_eq!(uniform_residue(1, 0, &q), 1);
    assert_eq!(uniform_residue(3, 7, &q), 10);
    let r = Modulus::new(1152921504606844417).unwrap();
    let wide: u128 = ((u64::MAX as u128) << 64) + 12345;
    assert_eq!(uniform_residue(u64::MAX, 12345, &r) as u128, wide % 1152921504606844417u128);
}

#[test]
fn secret_keys_are_ternary() {
    assert!(SecretKey::new(vec![0, 1, -1, 1]).is_some());
    assert!(SecretKey::new(vec![0, 2]).is_none());
    assert!(SecretKey::new(vec![-2]).is_none());
    assert_eq!(SecretKey::new(vec![1, 0, -1]).unwrap().coefficients(), &vec![1, 0, -1]);
    let sk = SecretKey::from_words(&vec![0, 1, 2, 3, 4, 5]);
    assert_eq!(sk.coefficients(), &vec![-1, 0, 1, -1, 0, 1]);
    let params = BfvParameters::new(&[60], 65537, 64).unwrap();
    let mut rng = ChaCha8Rng::seed_from_u64(0);
    let sk = SecretKey::random(&params, &mut rng);
    assert_eq!(sk.coefficients().len(), 64);
    assert!(sk.coefficients().iter().all(|c| -1 <= *c && *c <= 1));
    assert!(sk.coefficients().iter().any(|c| *c != 0));
    let other = SecretKey::random(&params, &mut rng);
    assert_ne!(sk.coefficients(), other.coefficients());
}

fn big(v: &BigNat) -> BigUint {
    BigUint::from_bytes_le(&v.to_bytes_le())
}

#[test]
fn big_numbers_compute_like_big_integers() {
    let a = BigNat::from_u64(u64::MAX);
    let b = BigNat::from_u64(1152921504606844417);
    assert_eq!(big(&a), BigUint::from(u64::MAX));
    assert_eq!(big(&BigNat::from_u64(0)), BigUint::from(0u64));
    assert_eq!(big(&BigNat::from_u64(256)), BigUint::from(256u64));
    let product = a.mul(&b);
    assert_eq!(big(&product), BigUint::from(u64::MAX) * 1152921504606844417u64);
    assert_eq!(big(&product.add(&a)), BigUint::from(u64::MAX) * 1152921504606844418u64);
    assert_eq!(big(&product.div(&b)), BigUint::from(u64::MAX));
    assert_eq!(big(&product.add(&a).div(&b)), BigUint::from(u64::MAX) + 16u64);
    assert_eq!(big(&product.add(&BigNat::from_u64(5)).rem(&a)), BigUint::from(5u64));
    assert_eq!(product.add(&BigNat::from_u64(77)).rem_u64(1152921504606844417), 77);
    assert_eq!(product.bits(), 124);
    assert_eq!(BigNat::from_u64(0).bits(), 0);
    assert_eq!(BigNat::from_u64(1).bits(), 1);
    assert_eq!(BigNat::from_u64(255).bits(), 8);
    assert_eq!(BigNat::from_u64(256).bits(), 9);
    assert_eq!(big(&BigNat::from_bytes_le(vec![1, 2, 0, 0])), BigUint::from(513u64));
    assert_eq!(big(&a.clone()), BigUint::from(u64::MAX));
}

#[test]
fn big_inverses() {
    let m = BigNat::from_u64(1152921504606844417).mul(&BigNat::from_u64(1152921504606830593));
    let a = BigNat::from_u64(u64::MAX).mul(&BigNat::from_u64(12345));
    let x = a.mod_inverse(&m).unwrap();
    assert_eq!((big(&a) * big(&x)) % big(&m), BigUint::from(1u64));
    assert_eq!(big(&BigNat::from_u64(3).mod_inverse(&BigNat::from_u64(7)).unwrap()), BigUint::from(5u64));
    assert!(BigNat::from_u64(6).mod_inverse(&BigNat::from_u64(15)).is_none());
    assert!(BigNat::from_u64(0).mod_inverse(&BigNat::from_u64(15)).is_none());
    let shared = BigNat::from_u64(1152921504606844417).mul(&BigNat::from_u64(3));
    assert!(shared.mod_inverse(&m).is_none());
}
