use bfv::hybrid_key_switching_key::HybridKeySwitchingKey;
use bfv::key_switching_key::BVKeySwitchingKey;
use bfv::parameters::{BfvParameters, PolyType};
use bfv::poly::{Poly, PolyContext, Representation};
use bfv::secret_key::SecretKey;
use num_bigint::BigUint;
use rand::SeedableRng;
use rand_chacha::ChaCha8Rng;
use std::sync::Arc;

fn noise_bits(res: &Poly, ctx: &Arc<PolyContext>) -> u64 {
    let q = BigUint::from_bytes_le(&ctx.modulus().to_bytes_le());
    let mut worst: u64 = 0;
    for v in res.to_biguint().unwrap().iter() {
        let v = BigUint::from_bytes_le(&v.to_bytes_le());
        let diff_bits: u64 = std::cmp::min(v.bits(), (&q - &v).bits());
        worst = std::cmp::max(worst, diff_bits);
    }
    worst
}

fn decryption_error(cs: &Vec<Poly>, sk: &SecretKey, poly: &Poly, input: &Poly, ctx: &Arc<PolyContext>) -> Poly {
    let mut sk_poly = Poly::try_convert_from_i64(sk.coefficients(), ctx, &Representation::Coefficient);
    sk_poly.change_representation(Representation::Evaluation);
    let mut res = cs[0].add(&cs[1].mul(&sk_poly));
    let mut expected = input.clone();
    expected.change_representation(Representation::Evaluation);
    expected.mul_assign(poly);
    res.sub_assign(&expected);
    res.change_representation(Representation::Coefficient);
    res
}

#[test]
fn key_switching_works() {
    let bfv_params = BfvParameters::new(&[60, 60, 60, 60, 60, 60], 65537, 1 << 8).unwrap();
    let ct_ctx = bfv_params.poly_ctx(&PolyType::Q, 0).clone();
    let ksk_ctx = ct_ctx.clone();

    let mut rng = ChaCha8Rng::seed_from_u64(0);

    let sk = SecretKey::random(&bfv_params, &mut rng);

    let poly = Poly::random(&ksk_ctx, &Representation::Evaluation, &mut rng);
    let ksk = BVKeySwitchingKey::new(&poly, &sk, &ct_ctx, &mut rng).unwrap();

    let other_poly = Poly::random(&ct_ctx, &Representation::Coefficient, &mut rng);
    let cs = ksk.switch(&other_poly);

    let res = decryption_error(&cs, &sk, &poly, &other_poly, &ksk_ctx);
    let q = BigUint::from_bytes_le(&ksk_ctx.modulus().to_bytes_le());
    for v in res.to_biguint().unwrap().iter() {
        let v = BigUint::from_bytes_le(&v.to_bytes_le());
        let diff_bits: u64 = std::cmp::min(v.bits(), (&q - &v).bits());
        assert!(diff_bits <= 70);
    }
}

#[test]
fn hybrid_key_switching() {
    let bfv_params = BfvParameters::new(&[60, 60, 60, 60, 60, 60], 65537, 1 << 3).unwrap();
    let ct_ctx = bfv_params.poly_ctx(&PolyType::Q, 0).clone();
    let ksk_ctx = ct_ctx.clone();

    let mut rng = ChaCha8Rng::seed_from_u64(0);

    let sk = SecretKey::random(&bfv_params, &mut rng);

    let poly = Poly::random(&ksk_ctx, &Representation::Evaluation, &mut rng);
    let ksk = HybridKeySwitchingKey::new(&poly, &sk, &ct_ctx, &mut rng).unwrap();

    let other_poly = Poly::random(&ct_ctx, &Representation::Coefficient, &mut rng);
    let cs = ksk.switch(&other_poly);

    let res = decryption_error(&cs, &sk, &poly, &other_poly, &ksk_ctx);
    let bits: u64 = noise_bits(&res, &ksk_ctx);
    println!("hybrid noise bits: {}", bits);
    assert!(bits <= 70);
}

#[test]
fn hybrid_noise_is_well_below_the_digit_by_digit_noise() {
    let bfv_params = BfvParameters::new(&[60, 60, 60, 60, 60, 60], 65537, 1 << 3).unwrap();
    let ctx = bfv_params.poly_ctx(&PolyType::Q, 0).clone();
    let mut rng = ChaCha8Rng::seed_from_u64(0);
    let sk = SecretKey::random(&bfv_params, &mut rng);
    let poly = Poly::random(&ctx, &Representation::Evaluation, &mut rng);
    let input = Poly::random(&ctx, &Representation::Coefficient, &mut rng);

    let bv = BVKeySwitchingKey::new(&poly, &sk, &ctx, &mut rng).unwrap();
    let bv_bits: u64 = noise_bits(&decryption_error(&bv.switch(&input), &sk, &poly, &input, &ctx), &ctx);

    let hybrid = HybridKeySwitchingKey::new(&poly, &sk, &ctx, &mut rng).unwrap();
    let hybrid_bits: u64 =
        noise_bits(&decryption_error(&hybrid.switch(&input), &sk, &poly, &input, &ctx), &ctx);

    println!("bv {} hybrid {}", bv_bits, hybrid_bits);
    assert!(bv_bits <= 70);
    assert!(hybrid_bits + 15 <= bv_bits);
}

#[test]
fn second_components_come_back_from_the_seed() {
    let bfv_params = BfvParameters::new(&[60, 60, 60], 65537, 1 << 4).unwrap();
    let ctx = bfv_params.poly_ctx(&PolyType::Q, 0).clone();
    let mut rng = ChaCha8Rng::seed_from_u64(0);
    let sk = SecretKey::random(&bfv_params, &mut rng);
    let poly = Poly::random(&ctx, &Representation::Evaluation, &mut rng);

    let bv = BVKeySwitchingKey::new(&poly, &sk, &ctx, &mut rng).unwrap();
    let again = BVKeySwitchingKey::generate_c1(3, &ctx, bv.seed());
    assert_eq!(again.len(), 3);
    for (a, b) in again.iter().zip(bv.c1s().iter()) {
        assert_eq!(a.to_rows(), b.to_rows());
        assert_eq!(a.representation(), Representation::Evaluation);
    }

    let hybrid = HybridKeySwitchingKey::new(&poly, &sk, &ctx, &mut rng).unwrap();
    let again = HybridKeySwitchingKey::generate_c1(hybrid.c1s().len(), hybrid.qp_ctx(), hybrid.seed());
    assert_eq!(again.len(), 1);
    for (a, b) in again.iter().zip(hybrid.c1s().iter()) {
        assert_eq!(a.to_rows(), b.to_rows());
    }
}

#[test]
fn keys_are_a_function_of_the_generator_seed() {
    let bfv_params = BfvParameters::new(&[60, 60, 60], 65537, 1 << 4).unwrap();
    let ctx = bfv_params.poly_ctx(&PolyType::Q, 0).clone();
    let mut setup = ChaCha8Rng::seed_from_u64(7);
    let sk = SecretKey::random(&bfv_params, &mut setup);
    let poly = Poly::random(&ctx, &Representation::Evaluation, &mut setup);

    let mut first = ChaCha8Rng::seed_from_u64(0);
    let mut second = ChaCha8Rng::seed_from_u64(0);
    let mut third = ChaCha8Rng::seed_from_u64(1);
    let a = BVKeySwitchingKey::new(&poly, &sk, &ctx, &mut first).unwrap();
    let b = BVKeySwitchingKey::new(&poly, &sk, &ctx, &mut second).unwrap();
    let c = BVKeySwitchingKey::new(&poly, &sk, &ctx, &mut third).unwrap();
    assert_eq!(a.seed(), b.seed());
    assert_ne!(a.seed(), c.seed());
    for i in 0..3 {
        assert_eq!(a.c0s()[i].to_rows(), b.c0s()[i].to_rows());
        assert_eq!(a.c1s()[i].to_rows(), b.c1s()[i].to_rows());
        assert_ne!(a.c0s()[i].to_rows(), c.c0s()[i].to_rows());
        assert_ne!(a.c1s()[i].to_rows(), c.c1s()[i].to_rows());
    }

    let mut first = ChaCha8Rng::seed_from_u64(0);
    let mut second = ChaCha8Rng::seed_from_u64(0);
    let mut third = ChaCha8Rng::seed_from_u64(1);
    let a = HybridKeySwitchingKey::new(&poly, &sk, &ctx, &mut first).unwrap();
    let b = HybridKeySwitchingKey::new(&poly, &sk, &ctx, &mut second).unwrap();
    let c = HybridKeySwitchingKey::new(&poly, &sk, &ctx, &mut third).unwrap();
    assert_eq!(a.c0s().len(), 1);
    assert_eq!(a.c0s()[0].to_rows(), b.c0s()[0].to_rows());
    assert_eq!(a.c1s()[0].to_rows(), b.c1s()[0].to_rows());
    assert_ne!(a.c0s()[0].to_rows(), c.c0s()[0].to_rows());
    assert_ne!(a.c1s()[0].to_rows(), c.c1s()[0].to_rows());
}

#[test]
fn seeded_polynomials_are_made_of_the_generator_stream() {
    let bfv_params = BfvParameters::new(&[60, 60], 65537, 1 << 3).unwrap();
    let ctx = bfv_params.poly_ctx(&PolyType::Q, 0).clone();
    let seed = [3u8; 32];
    let polys = BVKeySwitchingKey::generate_c1(3, &ctx, seed);
    // two words for every residue, row after row, polynomial after polynomial
    let mut rng = ChaCha8Rng::from_seed(seed);
    let mut words = vec![0u64; 3 * 2 * 2 * 8];
    rand::Rng::fill(&mut rng, &mut words[..]);
    let moduli = ctx.moduli_vec();
    for k in 0..3usize {
        let expected = Poly::from_words(&words, k * 32, &ctx, &Representation::Evaluation);
        assert_eq!(polys[k].to_rows(), expected.to_rows());
        let rows = polys[k].to_rows();
        for i in 0..2usize {
            for j in 0..8usize {
                let at: usize = k * 32 + 2 * (i * 8 + j);
                let wide: u128 = ((words[at] as u128) << 64) + words[at + 1] as u128;
                assert_eq!(rows[i][j] as u128, wide % moduli[i] as u128);
            }
        }
    }
    assert_ne!(polys[0].to_rows(), polys[1].to_rows());
    let other = BVKeySwitchingKey::generate_c1(3, &ctx, [4u8; 32]);
    assert_ne!(polys[0].to_rows(), other[0].to_rows());
}
