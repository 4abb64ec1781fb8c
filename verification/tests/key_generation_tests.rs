use bfv::hybrid_key_switching_key::HybridKeySwitchingKey;
use bfv::key_switching_key::{accumulate, block_of, BVKeySwitchingKey};
use bfv::parameters::{BfvParameters, Error, PolyType};
use bfv::poly::{Poly, PolyContext, Representation};
use bfv::secret_key::SecretKey;
use num_bigint::BigUint;
use rand::SeedableRng;
use rand_chacha::ChaCha8Rng;
use std::sync::Arc;

fn noise_bits(cs: &Vec<Poly>, sk: &SecretKey, poly: &Poly, input: &Poly, ctx: &Arc<PolyContext>) -> u64 {
    let mut sk_poly = Poly::try_convert_from_i64(sk.coefficients(), ctx, &Representation::Coefficient);
    sk_poly.change_representation(Representation::Evaluation);
    let mut res = cs[0].add(&cs[1].mul(&sk_poly));
    let mut expected = input.clone();
    expected.change_representation(Representation::Evaluation);
    expected.mul_assign(poly);
    res.sub_assign(&expected);
    res.change_representation(Representation::Coefficient);
    let q = BigUint::from_bytes_le(&ctx.modulus().to_bytes_le());
    let mut worst: u64 = 0;
    for v in res.to_biguint().unwrap().iter() {
        let v = BigUint::from_bytes_le(&v.to_bytes_le());
        worst = std::cmp::max(worst, std::cmp::min(v.bits(), (&q - &v).bits()));
    }
    worst
}

#[test]
fn hybrid_switching_works_for_every_digit_width() {
    let params = BfvParameters::new(&[60, 60, 60, 60, 60, 60], 65537, 16).unwrap();
    let ctx = params.poly_ctx(&PolyType::Q, 0).clone();
    let mut rng = ChaCha8Rng::seed_from_u64(0);
    let sk = SecretKey::random(&params, &mut rng);
    let poly = Poly::random(&ctx, &Representation::Evaluation, &mut rng);
    let input = Poly::random(&ctx, &Representation::Coefficient, &mut rng);
    for (dnum, alpha, aux) in [(1usize, 6usize, 1usize), (2, 3, 2), (3, 2, 3), (4, 2, 4), (5, 2, 5), (6, 1, 6), (7, 1, 6)] {
        let key = HybridKeySwitchingKey::with_parameters(&poly, &sk, &ctx, dnum, 60, &mut rng).unwrap();
        assert_eq!(key.dnum(), dnum);
        assert_eq!(key.alpha(), alpha);
        assert_eq!(key.c0s().len(), alpha);
        assert_eq!(key.c1s().len(), alpha);
        assert_eq!(key.p_ctx().moduli_count(), aux);
        assert_eq!(key.qp_ctx().moduli_count(), 6 + aux);
        assert_eq!(key.ksk_ctx().moduli_vec(), ctx.moduli_vec());
        let mut qp = ctx.moduli_vec();
        qp.extend(key.p_ctx().moduli_vec());
        assert_eq!(key.qp_ctx().moduli_vec(), qp);
        for p in key.p_ctx().moduli_vec() {
            assert!(!ctx.moduli_vec().contains(&p));
            assert_eq!(p % 32, 1);
            assert_eq!(64 - p.leading_zeros(), 60);
        }
        let cs = key.switch(&input);
        assert_eq!(cs.len(), 2);
        assert_eq!(cs[0].representation(), Representation::Evaluation);
        assert_eq!(cs[1].to_rows().len(), 6);
        assert!(noise_bits(&cs, &sk, &poly, &input, &ctx) <= 20);
    }
    // auxiliary moduli of thirty bits: twice as many
    let key = HybridKeySwitchingKey::with_parameters(&poly, &sk, &ctx, 3, 30, &mut rng).unwrap();
    assert_eq!(key.p_ctx().moduli_count(), 6);
    let cs = key.switch(&input);
    assert!(noise_bits(&cs, &sk, &poly, &input, &ctx) <= 30);
}

#[test]
fn digit_by_digit_key_has_the_stated_first_components() {
    let ctx = Arc::new(PolyContext::new(&[17, 97], 8).unwrap());
    let mut rng = ChaCha8Rng::seed_from_u64(3);
    let sk = SecretKey::from_words(&vec![0, 1, 2, 3, 4, 5, 6, 7]);
    let poly = Poly::random(&ctx, &Representation::Evaluation, &mut rng);
    let c1s = BVKeySwitchingKey::generate_c1(2, &ctx, [5u8; 32]);
    let words: Vec<u64> = (0..16u64).map(|i| (i << 32) | (i * i)).collect();
    let c0s = BVKeySwitchingKey::generate_c0_from_words(&ctx, &ctx, &poly, &c1s, &sk, &words).unwrap();
    assert_eq!(c0s.len(), 2);
    let mut s = Poly::try_convert_from_i64(sk.coefficients(), &ctx, &Representation::Coefficient);
    s.change_representation(Representation::Evaluation);
    for i in 0..2usize {
        // the generator is one under its own modulus and zero under the other
        let mut expected =
            Poly::from_error_words(&block_of(&words, i * 8, 8), 10, &ctx, &Representation::Evaluation);
        let mut ga = poly.clone();
        ga.scalar_mul(&[if i == 0 { 1 } else { 0 }, if i == 1 { 1 } else { 0 }]);
        expected.add_assign(&ga);
        expected.sub_assign(&c1s[i].mul(&s));
        assert_eq!(c0s[i].to_rows(), expected.to_rows());
        assert_eq!(c0s[i].representation(), Representation::Evaluation);
    }
}

#[test]
fn hybrid_key_has_the_stated_first_components() {
    let ctx = Arc::new(PolyContext::new(&[17, 97], 8).unwrap());
    let qp = Arc::new(PolyContext::new(&[17, 97, 113], 8).unwrap());
    let mut rng = ChaCha8Rng::seed_from_u64(3);
    let sk = SecretKey::from_words(&vec![0, 1, 2, 3, 4, 5, 6, 7]);
    let poly = Poly::random(&ctx, &Representation::Evaluation, &mut rng);
    let c1s = HybridKeySwitchingKey::generate_c1(2, &qp, [5u8; 32]);
    // generators: 113 * 97 * 10 and 113 * 17 * 40
    let g = vec![
        bfv::bigint::BigNat::from_u64(113 * 97 * 10),
        bfv::bigint::BigNat::from_u64(113 * 17 * 40),
    ];
    let words: Vec<u64> = (0..16u64).map(|i| (i << 32) | (i * i)).collect();
    let c0s = HybridKeySwitchingKey::generate_c0_from_words(&c1s, &g, &poly, &sk, &words);
    let mut s = Poly::try_convert_from_i64(sk.coefficients(), &qp, &Representation::Coefficient);
    s.change_representation(Representation::Evaluation);
    for j in 0..2usize {
        let e = Poly::from_error_words(&block_of(&words, j * 8, 8), 10, &qp, &Representation::Evaluation);
        let product = c1s[j].mul(&s);
        let mut expected = e.sub(&product).to_rows();
        // under the moduli of the chain g * poly is added: 113 under one, zero under the other
        let own: usize = j;
        let m = ctx.modulus_op(own);
        let mut ga = poly.row(own);
        m.scalar_mul_vec(&mut ga, m.reduce(113));
        m.add_vec(&mut expected[own], &ga);
        assert_eq!(c0s[j].to_rows(), expected);
    }
}

#[test]
fn sums_of_products() {
    let ctx = Arc::new(PolyContext::new(&[17, 97], 8).unwrap());
    let mut rng = ChaCha8Rng::seed_from_u64(1);
    let keys: Vec<Poly> = (0..3).map(|_| Poly::random(&ctx, &Representation::Evaluation, &mut rng)).collect();
    let terms: Vec<Poly> = (0..3).map(|_| Poly::random(&ctx, &Representation::Evaluation, &mut rng)).collect();
    let sum = accumulate(&keys, &terms);
    let mut expected = keys[0].mul(&terms[0]);
    expected.add_assign(&keys[1].mul(&terms[1]));
    expected.add_assign(&keys[2].mul(&terms[2]));
    assert_eq!(sum.to_rows(), expected.to_rows());
    assert_eq!(accumulate(&keys[..1].to_vec(), &terms[..1].to_vec()).to_rows(), keys[0].mul(&terms[0]).to_rows());
    assert_eq!(block_of(&vec![1, 2, 3, 4, 5], 1, 3), vec![2, 3, 4]);
    assert_eq!(block_of(&vec![1, 2, 3, 4, 5], 5, 0), Vec::<u64>::new());
}

#[test]
fn digit_by_digit_switch_is_the_sum_over_the_rows() {
    let ctx = Arc::new(PolyContext::new(&[17, 97], 8).unwrap());
    let mut rng = ChaCha8Rng::seed_from_u64(2);
    let sk = SecretKey::from_words(&vec![0, 1, 2, 3, 4, 5, 6, 7]);
    let poly = Poly::random(&ctx, &Representation::Evaluation, &mut rng);
    let key = BVKeySwitchingKey::new(&poly, &sk, &ctx, &mut rng).unwrap();
    assert_eq!(key.ksk_ctx().moduli_vec(), vec![17, 97]);
    assert_eq!(key.ciphertext_ctx().moduli_vec(), vec![17, 97]);
    let input = Poly::random(&ctx, &Representation::Coefficient, &mut rng);
    let cs = key.switch(&input);
    let terms: Vec<Poly> = (0..2)
        .map(|i| {
            let mut t = Poly::try_convert_from_u64(&input.row(i), &ctx, &Representation::Coefficient);
            t.change_representation(Representation::Evaluation);
            t
        })
        .collect();
    assert_eq!(cs[0].to_rows(), accumulate(key.c0s(), &terms).to_rows());
    assert_eq!(cs[1].to_rows(), accumulate(key.c1s(), &terms).to_rows());
}

#[test]
fn keys_fail_with_the_reason() {
    let mut rng = ChaCha8Rng::seed_from_u64(0);
    let sk = SecretKey::from_words(&vec![0, 1, 2, 3, 4, 5, 6, 7]);
    // a chain that holds a modulus twice has no generators
    let twice = Arc::new(PolyContext::new(&[17, 17], 8).unwrap());
    assert!(twice.g().is_none());
    let poly = Poly::random(&twice, &Representation::Evaluation, &mut rng);
    assert!(poly.to_biguint().is_none());
    assert!(matches!(BVKeySwitchingKey::new(&poly, &sk, &twice, &mut rng), Err(Error::NonInvertible)));
    assert!(matches!(
        HybridKeySwitchingKey::with_parameters(&poly, &sk, &twice, 1, 7, &mut rng),
        Err(Error::NonInvertible)
    ));
    // of seven bits only 113 and 97 leave one modulo 16
    let ctx = Arc::new(PolyContext::new(&[113, 97], 8).unwrap());
    let poly = Poly::random(&ctx, &Representation::Evaluation, &mut rng);
    assert!(matches!(
        HybridKeySwitchingKey::with_parameters(&poly, &sk, &ctx, 1, 7, &mut rng),
        Err(Error::ModulusGenerationExhausted)
    ));
    assert!(matches!(
        HybridKeySwitchingKey::with_parameters(&poly, &sk, &ctx, 1, 63, &mut rng),
        Err(Error::ModulusGenerationExhausted)
    ));
    assert!(HybridKeySwitchingKey::with_parameters(&poly, &sk, &ctx, 1, 8, &mut rng).is_ok());
}

#[test]
fn digit_by_digit_noise_is_the_sum_of_rows_times_errors() {
    let params = BfvParameters::new(&[60, 60, 60], 65537, 16).unwrap();
    let ctx = params.poly_ctx(&PolyType::Q, 0).clone();
    let n: usize = 16;
    let mut rng = ChaCha8Rng::seed_from_u64(11);
    let sk = SecretKey::random(&params, &mut rng);
    let poly = Poly::random(&ctx, &Representation::Evaluation, &mut rng);
    let input = Poly::random(&ctx, &Representation::Coefficient, &mut rng);
    let c1s = BVKeySwitchingKey::generate_c1(3, &ctx, [9u8; 32]);
    let words: Vec<u64> = (0..48u64).map(|i| i.wrapping_mul(0x9e3779b97f4a7c15)).collect();
    let c0s = BVKeySwitchingKey::generate_c0_from_words(&ctx, &ctx, &poly, &c1s, &sk, &words).unwrap();

    // the switch, from its parts
    let terms: Vec<Poly> = (0..3)
        .map(|i| {
            let mut t = Poly::try_convert_from_u64(&input.row(i), &ctx, &Representation::Coefficient);
            t.change_representation(Representation::Evaluation);
            t
        })
        .collect();
    let mut s = Poly::try_convert_from_i64(sk.coefficients(), &ctx, &Representation::Coefficient);
    s.change_representation(Representation::Evaluation);
    let mut rest = accumulate(&c0s, &terms).add(&accumulate(&c1s, &terms).mul(&s));
    let mut input_values = input.clone();
    input_values.change_representation(Representation::Evaluation);
    rest.sub_assign(&poly.mul(&input_values));
    rest.change_representation(Representation::Coefficient);

    // the noise: every row of the input times the errors of its element,
    // as polynomials modulo x^n + 1
    let mut noise: Vec<i128> = vec![0; n];
    for i in 0..3usize {
        let row = input.row(i);
        for m in 0..n {
            for j in 0..n {
                let e: i128 = bfv::sampling::error_from_word(words[i * n + j], 10) as i128;
                let product: i128 = row[m] as i128 * e;
                if m + j < n {
                    noise[m + j] += product;
                } else {
                    noise[m + j - n] -= product;
                }
            }
        }
    }
    let moduli = ctx.moduli_vec();
    let rows = rest.to_rows();
    for r in 0..3usize {
        for k in 0..n {
            assert_eq!(rows[r][k] as i128, noise[k].rem_euclid(moduli[r] as i128));
        }
    }
    let bound: i128 = 16 * 10 * moduli.iter().map(|q| *q as i128 - 1).sum::<i128>();
    assert!(noise.iter().all(|v| v.abs() <= bound));
}

#[test]
fn hybrid_noise_lies_within_the_bound_of_the_key() {
    let params = BfvParameters::new(&[60, 60, 60, 60, 60, 60], 65537, 16).unwrap();
    let ctx = params.poly_ctx(&PolyType::Q, 0).clone();
    let n: u64 = 16;
    let mut rng = ChaCha8Rng::seed_from_u64(5);
    let sk = SecretKey::random(&params, &mut rng);
    let poly = Poly::random(&ctx, &Representation::Evaluation, &mut rng);
    let q = ctx.moduli_vec();
    for dnum in [1usize, 2, 3, 4, 6] {
        let key = HybridKeySwitchingKey::with_parameters(&poly, &sk, &ctx, dnum, 60, &mut rng).unwrap();
        // the degree times the bound of the errors times the sum over the
        // digits of the number of moduli times their product, over the
        // auxiliary product, plus the degree and one for every auxiliary
        // modulus and one more
        let aux: BigUint = key.p_ctx().moduli_vec().iter().fold(BigUint::from(1u64), |a, m| a * *m);
        let mut sum = BigUint::from(0u64);
        for digit in q.chunks(dnum) {
            let product: BigUint = digit.iter().fold(BigUint::from(1u64), |a, m| a * *m);
            sum += product * digit.len();
        }
        let bound = (sum * (n * 10)) / &aux + (n + 1) * (key.p_ctx().moduli_count() as u64 + 1);
        for _ in 0..4 {
            let input = Poly::random(&ctx, &Representation::Coefficient, &mut rng);
            let cs = key.switch(&input);
            let mut sk_poly = Poly::try_convert_from_i64(sk.coefficients(), &ctx, &Representation::Coefficient);
            sk_poly.change_representation(Representation::Evaluation);
            let mut res = cs[0].add(&cs[1].mul(&sk_poly));
            let mut expected = input.clone();
            expected.change_representation(Representation::Evaluation);
            expected.mul_assign(&poly);
            res.sub_assign(&expected);
            res.change_representation(Representation::Coefficient);
            let big_q = BigUint::from_bytes_le(&ctx.modulus().to_bytes_le());
            for v in res.to_biguint().unwrap().iter() {
                let v = BigUint::from_bytes_le(&v.to_bytes_le());
                let size = std::cmp::min(v.clone(), &big_q - &v);
                assert!(size <= bound);
            }
        }
    }
}
