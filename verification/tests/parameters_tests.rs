use bfv::nb_theory::{check_prime, generate_chain, generate_prime, holds, power_of_two};
use bfv::parameters::{check_permutation, BfvParameters, Error, PolyType};
use num_bigint::BigUint;

#[test]
fn chains_hold_the_largest_friendly_primes() {
    let params = BfvParameters::new(&[7], 17, 8).unwrap();
    assert_eq!(params.ciphertext_moduli(), &vec![113]);
    assert_eq!(params.extension_moduli(), &vec![97]);
    let params = BfvParameters::new(&[9, 8], 17, 8).unwrap();
    // of nine bits: 449, 433, ...; of eight bits: 241, 193
    assert_eq!(params.ciphertext_moduli(), &vec![449, 241]);
    assert_eq!(params.extension_moduli(), &vec![433, 193]);
    assert_eq!(params.degree(), 8);
    assert_eq!(params.plaintext_modulus(), 17);
    assert_eq!(params.level_count(), 2);
    // the plaintext modulus is left out
    let params = BfvParameters::new(&[9], 449, 8).unwrap();
    assert_eq!(params.ciphertext_moduli(), &vec![433]);
    assert_eq!(params.extension_moduli(), &vec![401]);
}

#[test]
fn sixty_bit_chain_is_distinct_prime_and_friendly() {
    let params = BfvParameters::new(&[60, 60, 60, 60, 60, 60], 65537, 256).unwrap();
    let q = params.ciphertext_moduli().clone();
    let p = params.extension_moduli().clone();
    assert_eq!(q[0], 1152921504606844417);
    let mut all: Vec<u64> = q.clone();
    all.extend(p.iter());
    for (i, m) in all.iter().enumerate() {
        assert!(check_prime(*m));
        assert_eq!(m % 512, 1);
        assert_eq!(64 - m.leading_zeros(), 60);
        assert_ne!(*m, 65537);
        assert!(!all[..i].contains(m));
        if i > 0 {
            assert!(all[i - 1] > *m);
        }
    }
}

#[test]
fn levels_drop_moduli_from_the_end() {
    let params = BfvParameters::new(&[60, 60, 60], 65537, 8).unwrap();
    let q = params.ciphertext_moduli().clone();
    let p = params.extension_moduli().clone();
    for level in 0..3usize {
        assert_eq!(params.poly_ctx(&PolyType::Q, level).moduli_vec(), q[..3 - level].to_vec());
        assert_eq!(params.poly_ctx(&PolyType::P, level).moduli_vec(), p[..3 - level].to_vec());
        let mut both: Vec<u64> = p[..3 - level].to_vec();
        both.extend(q[..3 - level].iter());
        assert_eq!(params.poly_ctx(&PolyType::PQ, level).moduli_vec(), both);
        assert_eq!(params.poly_ctx(&PolyType::Q, level).degree(), 8);
        let product: BigUint = q[..3 - level].iter().fold(BigUint::from(1u64), |a, m| a * *m);
        assert_eq!(BigUint::from(params.ql_modt(level)), product % 65537u64);
    }
    for i in 0..3usize {
        let x: u128 = params.neg_t_inv_modq(i) as u128;
        assert_eq!((x * 65537 + 1) % q[i] as u128, 0);
    }
}

#[test]
fn slot_map_is_a_permutation() {
    let params = BfvParameters::new(&[60], 65537, 8).unwrap();
    // the powers of three modulo 16 are 1, 3, 9, 11: halved 0, 1, 4, 5 and
    // reversed 0, 4, 1, 5; their negatives 15, 13, 7, 5: halved 7, 6, 3, 2
    // and reversed 7, 3, 6, 2
    assert_eq!(params.matrix_reps_index_map(), &vec![0, 4, 1, 5, 7, 3, 6, 2]);
    let params = BfvParameters::new(&[60], 65537, 1024).unwrap();
    assert!(check_permutation(params.matrix_reps_index_map()));
    assert!(check_permutation(&vec![2, 0, 1]));
    assert!(!check_permutation(&vec![0, 0, 1]));
    assert!(!check_permutation(&vec![0, 3, 1]));
    assert!(check_permutation(&Vec::new()));
}

#[test]
fn parameters_fail_with_the_reason() {
    // 65536 is no modulus with a transform
    assert!(matches!(BfvParameters::new(&[60], 65536, 8), Err(Error::UnsupportedModulus)));
    assert!(matches!(BfvParameters::new(&[60], 1, 8), Err(Error::UnsupportedModulus)));
    // six is no power of two
    assert!(matches!(BfvParameters::new(&[60], 65537, 6), Err(Error::UnsupportedModulus)));
    // an empty chain has no context
    assert!(matches!(BfvParameters::new(&[], 65537, 8), Err(Error::UnsupportedModulus)));
    // degree one has no slots
    assert!(matches!(BfvParameters::new(&[60], 65537, 1), Err(Error::UnsupportedDegree)));
    // 17 is the only prime of five bits that leaves one modulo 16
    assert!(matches!(
        BfvParameters::new(&[5, 5], 65537, 8),
        Err(Error::ModulusGenerationExhausted)
    ));
    assert!(matches!(BfvParameters::new(&[5], 17, 8), Err(Error::ModulusGenerationExhausted)));
    assert!(matches!(BfvParameters::new(&[63], 65537, 8), Err(Error::ModulusGenerationExhausted)));
    assert!(matches!(BfvParameters::new(&[1], 65537, 8), Err(Error::ModulusGenerationExhausted)));
}

#[test]
fn plaintext_modulus_must_be_invertible() {
    // 10961 = 97 * 113 has a transform of length eight; with 113 in the
    // chain it has no inverse
    let r = BfvParameters::new(&[7], 10961, 8);
    assert!(matches!(r, Err(Error::NonInvertible)));
}

#[test]
fn primes_are_found_from_the_top() {
    assert_eq!(generate_prime(5, 16, 32), Some(17));
    assert_eq!(generate_prime(5, 16, 17), None);
    assert_eq!(generate_prime(8, 16, 256), Some(241));
    assert_eq!(generate_prime(8, 16, 241), Some(193));
    assert_eq!(generate_prime(8, 16, 193), None);
    assert_eq!(generate_prime(8, 16, 1 << 20), Some(241));
    assert_eq!(generate_prime(60, 512, 1 << 60), Some(1152921504606844417));
    assert_eq!(generate_prime(62, 2, 1 << 62), Some(4611686018427387847));
    assert_eq!(generate_prime(1, 2, 4), None);
    assert_eq!(generate_prime(63, 2, u64::MAX), None);
    assert_eq!(generate_prime(8, 1, 256), None);
    assert_eq!(generate_prime(8, 0, 256), None);
    assert_eq!(generate_prime(2, 2, 4), Some(3));
}

#[test]
fn chains_avoid_what_they_are_told_to() {
    assert_eq!(generate_chain(&[8, 8], 16, &vec![]), Some(vec![241, 193]));
    assert_eq!(generate_chain(&[8, 8], 16, &vec![241]), None);
    assert_eq!(generate_chain(&[8, 7], 16, &vec![241, 113]), Some(vec![193, 97]));
    assert_eq!(generate_chain(&[], 16, &vec![241]), Some(vec![]));
    assert!(holds(&vec![3, 5, 7], 5));
    assert!(!holds(&vec![3, 5, 7], 4));
}

#[test]
fn primality_is_exact_on_words() {
    for p in [2u64, 3, 5, 65537, 2305843009213693951, 1152921504606844417, 18446744073709551557] {
        assert!(check_prime(p));
    }
    for c in [0u64, 1, 4, 561, 65535, 3215031751, 1152921504606844419, 18446744073709551615] {
        assert!(!check_prime(c));
    }
    // the product of two primes of 32 bits
    assert!(!check_prime(4294967291 * 4294967279));
}

#[test]
fn powers_of_two() {
    assert_eq!(power_of_two(0), 1);
    assert_eq!(power_of_two(1), 2);
    assert_eq!(power_of_two(62), 1 << 62);
}

#[test]
fn scaling_constants_are_the_quotients_by_the_plaintext_modulus() {
    let params = BfvParameters::new(&[60, 60, 60], 65537, 8).unwrap();
    let q = params.ciphertext_moduli().clone();
    for level in 0..3usize {
        let product: BigUint = q[..3 - level].iter().fold(BigUint::from(1u64), |a, m| a * *m);
        let delta = product / 65537u64;
        let expected: Vec<u64> =
            q[..3 - level].iter().map(|m| (&delta % *m).iter_u64_digits().next().unwrap_or(0)).collect();
        assert_eq!(params.delta(level), &expected);
    }
    let small = BfvParameters::new(&[9, 8], 17, 8).unwrap();
    // 449 * 241 / 17 = 6365, and 449 / 17 = 26
    assert_eq!(small.delta(0), &vec![6365 % 449, 6365 % 241]);
    assert_eq!(small.delta(1), &vec![26]);
}
