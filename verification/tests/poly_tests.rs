use bfv::bigint::BigNat;
use bfv::poly::{Poly, PolyContext, Representation};
use num_bigint::BigUint;
use rand::SeedableRng;
use rand_chacha::ChaCha8Rng;
use std::sync::Arc;

fn context() -> Arc<PolyContext> {
    Arc::new(PolyContext::new(&[17, 97], 8).unwrap())
}

fn poly(rows: Vec<Vec<u64>>, ctx: &Arc<PolyContext>, representation: Representation) -> Poly {
    Poly::from_rows(&rows, ctx, representation).unwrap()
}

#[test]
fn context_needs_friendly_moduli() {
    assert!(PolyContext::new(&[17, 97], 8).is_some());
    assert!(PolyContext::new(&[], 8).is_none());
    assert!(PolyContext::new(&[17, 97], 0).is_none());
    assert!(PolyContext::new(&[17, 7], 8).is_none());
    assert!(PolyContext::new(&[17, 97], 16).is_none());
    assert!(PolyContext::new(&[17, 1], 8).is_none());
    assert!(PolyContext::new(&[17, 1 << 62], 8).is_none());
    let ctx = context();
    assert_eq!(ctx.degree(), 8);
    assert_eq!(ctx.moduli_count(), 2);
    assert_eq!(ctx.moduli_vec(), vec![17, 97]);
    assert_eq!(ctx.modulus_op(1).modulus(), 97);
    assert_eq!(ctx.ntt_op(0).degree(), 8);
    assert_eq!(ctx.modulus().to_bytes_le(), BigUint::from(17u64 * 97).to_bytes_le());
}

#[test]
fn generators_are_one_under_their_modulus_and_zero_under_the_others() {
    let ctx = context();
    let g = ctx.g().unwrap();
    // 97 * inverse of 97 modulo 17, and 17 * inverse of 17 modulo 97
    assert_eq!(g[0].rem_u64(1 << 40), 97 * 10);
    assert_eq!(g[1].rem_u64(1 << 40), 17 * 40);
    assert_eq!(g[0].rem_u64(17), 1);
    assert_eq!(g[0].rem_u64(97), 0);
    assert_eq!(g[1].rem_u64(17), 0);
    assert_eq!(g[1].rem_u64(97), 1);
}

#[test]
fn rows_must_fit_the_context() {
    let ctx = context();
    let good = vec![vec![16, 0, 1, 2, 3, 4, 5, 6], vec![96, 0, 1, 2, 3, 4, 5, 6]];
    let p = Poly::from_rows(&good, &ctx, Representation::Coefficient).unwrap();
    assert_eq!(p.to_rows(), good);
    assert_eq!(p.row(1), good[1]);
    assert_eq!(p.representation(), Representation::Coefficient);
    assert_eq!(p.coefficients().to_rows(), good);
    let copy = p.clone();
    assert_eq!(copy.to_rows(), good);
    let short = vec![vec![0; 8]];
    assert!(Poly::from_rows(&short, &ctx, Representation::Coefficient).is_none());
    let ragged = vec![vec![0; 8], vec![0; 7]];
    assert!(Poly::from_rows(&ragged, &ctx, Representation::Coefficient).is_none());
    let large = vec![vec![17, 0, 0, 0, 0, 0, 0, 0], vec![0; 8]];
    assert!(Poly::from_rows(&large, &ctx, Representation::Coefficient).is_none());
}

#[test]
fn zero_is_zero() {
    let ctx = context();
    let z = Poly::zero(&ctx, &Representation::Evaluation);
    assert_eq!(z.to_rows(), vec![vec![0; 8], vec![0; 8]]);
    assert_eq!(z.representation(), Representation::Evaluation);
}

#[test]
fn values_are_reduced_under_every_modulus() {
    let ctx = context();
    let p = Poly::try_convert_from_u64(
        &[0, 1, 16, 17, 96, 97, 1649, u64::MAX],
        &ctx,
        &Representation::Coefficient,
    );
    assert_eq!(
        p.to_rows(),
        vec![
            vec![0, 1, 16, 0, 11, 12, 0, u64::MAX % 17],
            vec![0, 1, 16, 17, 96, 0, 0, u64::MAX % 97]
        ]
    );
    let s = Poly::try_convert_from_i64(
        &vec![0, 1, -1, 17, -17, -18, i64::MIN, i64::MAX],
        &ctx,
        &Representation::Evaluation,
    );
    assert_eq!(s.representation(), Representation::Evaluation);
    assert_eq!(
        s.to_rows(),
        vec![
            vec![0, 1, 16, 0, 0, 16, (i64::MIN as i128).rem_euclid(17) as u64, (i64::MAX % 17) as u64],
            vec![0, 1, 96, 17, 80, 79, (i64::MIN as i128).rem_euclid(97) as u64, (i64::MAX % 97) as u64]
        ]
    );
    let big: Vec<BigNat> = (0..8u64)
        .map(|i| BigNat::from_bytes_le((BigUint::from(u64::MAX) * u64::MAX + i).to_bytes_le()))
        .collect();
    let b = Poly::try_convert_from_biguint(&big, &ctx, &Representation::Coefficient);
    let square: u128 = (u64::MAX as u128 % 1649) * (u64::MAX as u128 % 1649);
    assert_eq!(b.row(0)[3], ((square + 3) % 17) as u64);
    assert_eq!(b.row(1)[7], ((square + 7) % 97) as u64);
}

#[test]
fn arithmetic_is_row_by_row() {
    let ctx = context();
    let a = poly(
        vec![vec![16, 1, 2, 3, 4, 5, 6, 7], vec![96, 1, 2, 3, 4, 5, 6, 7]],
        &ctx,
        Representation::Evaluation,
    );
    let b = poly(
        vec![vec![1, 16, 2, 0, 13, 5, 9, 7], vec![1, 96, 50, 0, 95, 5, 90, 7]],
        &ctx,
        Representation::Evaluation,
    );
    assert_eq!(
        a.add(&b).to_rows(),
        vec![vec![0, 0, 4, 3, 0, 10, 15, 14], vec![0, 0, 52, 3, 2, 10, 96, 14]]
    );
    assert_eq!(
        a.sub(&b).to_rows(),
        vec![vec![15, 2, 0, 3, 8, 0, 14, 0], vec![95, 2, 49, 3, 6, 0, 13, 0]]
    );
    assert_eq!(
        a.mul(&b).to_rows(),
        vec![vec![16, 16, 4, 0, 1, 8, 3, 15], vec![96, 96, 3, 0, 89, 25, 55, 49]]
    );
    let mut c = a.clone();
    c.add_assign(&b);
    assert_eq!(c.to_rows(), a.add(&b).to_rows());
    let mut c = a.clone();
    c.sub_assign(&b);
    assert_eq!(c.to_rows(), a.sub(&b).to_rows());
    let mut c = a.clone();
    c.mul_assign(&b);
    assert_eq!(c.to_rows(), a.mul(&b).to_rows());
    let mut c = a.clone();
    c.scalar_mul(&[3, 100]);
    assert_eq!(
        c.to_rows(),
        vec![vec![14, 3, 6, 9, 12, 15, 1, 4], vec![94, 3, 6, 9, 12, 15, 18, 21]]
    );
    assert_eq!(c.representation(), Representation::Evaluation);
}

#[test]
fn changing_the_representation_transforms_every_row() {
    let ctx = context();
    let rows = vec![vec![16, 1, 2, 3, 4, 5, 6, 7], vec![96, 1, 2, 3, 4, 5, 6, 7]];
    let mut p = poly(rows.clone(), &ctx, Representation::Coefficient);
    p.change_representation(Representation::Coefficient);
    assert_eq!(p.to_rows(), rows);
    p.change_representation(Representation::Evaluation);
    assert_eq!(p.representation(), Representation::Evaluation);
    let mut first = rows[0].clone();
    ctx.ntt_op(0).forward(&mut first);
    let mut second = rows[1].clone();
    ctx.ntt_op(1).forward(&mut second);
    assert_eq!(p.to_rows(), vec![first, second]);
    assert_ne!(p.to_rows(), rows);
    p.change_representation(Representation::Coefficient);
    assert_eq!(p.to_rows(), rows);
    assert_eq!(p.representation(), Representation::Coefficient);
}

#[test]
fn residues_lift_to_the_number_below_the_product() {
    let ctx = context();
    let values: Vec<u64> = vec![0, 1, 16, 17, 96, 97, 1000, 1648];
    let p = Poly::try_convert_from_u64(&values, &ctx, &Representation::Coefficient);
    let lifted = p.to_biguint().unwrap();
    for j in 0..8 {
        assert_eq!(BigUint::from_bytes_le(&lifted[j].to_bytes_le()), BigUint::from(values[j]));
    }
}

#[test]
fn words_become_residues_two_by_two() {
    let ctx = context();
    let mut words: Vec<u64> = vec![7, 7, 7];
    for i in 0..16u64 {
        words.push(i);
        words.push(u64::MAX - i);
    }
    words.push(9);
    let p = Poly::from_words(&words, 3, &ctx, &Representation::Evaluation);
    let rows = p.to_rows();
    for i in 0..2usize {
        for j in 0..8usize {
            let k: u128 = (i * 8 + j) as u128;
            let wide: u128 = (k << 64) + (u64::MAX as u128 - k);
            assert_eq!(rows[i][j] as u128, wide % [17u128, 97][i]);
        }
    }
}

#[test]
fn error_words_become_small_coefficients() {
    let ctx = context();
    // three ones in the low half, one in the high half; none; ten and none;
    // a one beyond the tenth digit does not count
    let words: Vec<u64> = vec![(1 << 32) | 0b111, 0, 0x3ff, 1 << 32, 1 << 10, 1 << 42, 0x3ff << 32, u64::MAX];
    let p = Poly::from_error_words(&words, 10, &ctx, &Representation::Coefficient);
    assert_eq!(
        p.to_rows(),
        vec![vec![2, 0, 10, 16, 0, 0, 7, 0], vec![2, 0, 10, 96, 0, 0, 87, 0]]
    );
    let mut q = Poly::from_error_words(&words, 10, &ctx, &Representation::Evaluation);
    assert_eq!(q.representation(), Representation::Evaluation);
    q.change_representation(Representation::Coefficient);
    assert_eq!(q.to_rows(), p.to_rows());
}

#[test]
fn random_polynomials_are_residues() {
    let ctx = context();
    let mut rng = ChaCha8Rng::seed_from_u64(0);
    let a = Poly::random(&ctx, &Representation::Evaluation, &mut rng);
    let b = Poly::random(&ctx, &Representation::Evaluation, &mut rng);
    assert_ne!(a.to_rows(), b.to_rows());
    assert!(a.row(0).iter().all(|x| *x < 17));
    assert!(a.row(1).iter().all(|x| *x < 97));
    let mut again = ChaCha8Rng::seed_from_u64(0);
    let c = Poly::random(&ctx, &Representation::Evaluation, &mut again);
    assert_eq!(a.to_rows(), c.to_rows());
    let e = Poly::random_gaussian(&ctx, &Representation::Coefficient, 10, &mut rng);
    for (x, y) in e.row(0).iter().zip(e.row(1).iter()) {
        // the same small number under both moduli
        let small: i64 = if *y > 48 { *y as i64 - 97 } else { *y as i64 };
        assert!(small.abs() <= 10);
        assert_eq!(*x as i64, small.rem_euclid(17));
    }
}
