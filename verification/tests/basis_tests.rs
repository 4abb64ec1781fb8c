use bfv::hybrid_key_switching_key::switch_constants;
use bfv::matrix::Matrix;
use bfv::modulus::Modulus;
use bfv::poly::{Poly, PolyContext};
use num_bigint::BigUint;
use rand::Rng;
use rand::SeedableRng;
use rand_chacha::ChaCha8Rng;
use std::sync::Arc;

fn ops(moduli: &[u64]) -> Vec<Modulus> {
    moduli.iter().map(|q| Modulus::new(*q).unwrap()).collect()
}

#[test]
fn switch_of_small_numbers() {
    // from {3, 5} to {7, 11}: the products without each modulus are 5 and 3,
    // both with the inverse 2
    let q = ops(&[3, 5]);
    let q_hat_inv: Vec<u64> = vec![2, 2];
    let q_hat_modp = Matrix::from_rows(&vec![vec![5, 5], vec![3, 3]]).unwrap();
    let p: Vec<u64> = vec![7, 11];
    // the numbers 8, 14 and 7
    let x = Matrix::from_rows(&vec![vec![2, 2, 1], vec![3, 4, 2]]).unwrap();
    let out = Poly::approx_switch_crt_basis(&x, &q, 3, &q_hat_inv, &q_hat_modp, &p);
    // 8 and 14 come out as they are, 7 comes out as 7 + 15
    assert_eq!(out.to_rows(), vec![vec![1, 0, 1], vec![8, 3, 0]]);
}

#[test]
fn constants_of_a_small_chain() {
    let (hat_inv, hat_modp) = switch_constants(&ops(&[3, 5]), &vec![7, 11]).unwrap();
    assert_eq!(hat_inv, vec![2, 2]);
    assert_eq!(hat_modp.to_rows(), vec![vec![5, 5], vec![3, 3]]);
    let (hat_inv, hat_modp) = switch_constants(&ops(&[7, 11, 13]), &vec![5]).unwrap();
    // 143 = 3 mod 7, 91 = 3 mod 11, 77 = 12 mod 13
    assert_eq!(hat_inv, vec![5, 4, 12]);
    assert_eq!(hat_modp.to_rows(), vec![vec![3], vec![1], vec![2]]);
    assert!(switch_constants(&ops(&[6, 10]), &vec![7]).is_none());
}

#[test]
fn switch_keeps_the_number_up_to_a_multiple_of_the_product() {
    let q: Vec<u64> = vec![1152921504606844417, 1152921504606830593, 1152921504606827009];
    let p: Vec<u64> = vec![
        1152921504606815233,
        1152921504606798337,
        1152921504606796289,
        1152921504606791681,
        1152921504606790657,
    ];
    let (hat_inv, hat_modp) = switch_constants(&ops(&q), &p).unwrap();
    let big_q: BigUint = q.iter().fold(BigUint::from(1u64), |acc, m| acc * *m);
    let mut rng = ChaCha8Rng::seed_from_u64(0);
    let n: usize = 16;
    let numbers: Vec<BigUint> = (0..n)
        .map(|_| {
            let limbs: Vec<u32> = (0..6).map(|_| rng.gen()).collect();
            BigUint::new(limbs) % &big_q
        })
        .collect();
    let rows: Vec<Vec<u64>> = q
        .iter()
        .map(|m| numbers.iter().map(|x| (x % *m).iter_u64_digits().next().unwrap_or(0)).collect())
        .collect();
    let x = Matrix::from_rows(&rows).unwrap();
    let out = Poly::approx_switch_crt_basis(&x, &ops(&q), n, &hat_inv, &hat_modp, &p).to_rows();
    for j in 0..n {
        let mut found: bool = false;
        for u in 0..3u64 {
            let shifted = &numbers[j] + &big_q * u;
            if (0..p.len()).all(|k| BigUint::from(out[k][j]) == &shifted % p[k]) {
                found = true;
            }
        }
        assert!(found);
    }
}

#[test]
fn mod_down_divides_by_the_auxiliary_product() {
    let n: usize = 8;
    let q: Vec<u64> = vec![17, 97];
    let p: Vec<u64> = vec![113, 193];
    let qp: Vec<u64> = vec![17, 97, 113, 193];
    let qp_ctx = Arc::new(PolyContext::new(&qp, n).unwrap());
    let p_ctx = Arc::new(PolyContext::new(&p, n).unwrap());
    let (p_hat_inv_modp, p_hat_modq) = switch_constants(&ops(&p), &q).unwrap();
    let big_p: u64 = 113 * 193;
    let p_inv_modq: Vec<u64> =
        q.iter().map(|m| { let m = Modulus::new(*m).unwrap(); m.inv(m.reduce(big_p)).unwrap() }).collect();
    // the numbers 113 * 193 * v for v = 0, 1, ..., 7 times 200
    let values: Vec<u64> = (0..n as u64).map(|v| v * 200).collect();
    let rows: Vec<Vec<u64>> =
        qp.iter().map(|m| values.iter().map(|v| ((big_p as u128 * *v as u128) % *m as u128) as u64).collect()).collect();
    let x = Matrix::from_rows(&rows).unwrap();
    let out = Poly::approx_mod_down(&x, &qp_ctx, &p_ctx, &p_hat_inv_modp, &p_hat_modq, &p_inv_modq);
    let expected: Vec<Vec<u64>> = q.iter().map(|m| values.iter().map(|v| v % m).collect()).collect();
    assert_eq!(out.to_rows(), expected);

    // a number that is not a multiple: 1000 switches to 69 * 193 + 84 * 113,
    // which is 1000 + 113 * 193, so 113 * 193 * 5 + 1000 comes down to 4
    let number: u64 = big_p * 5 + 1000;
    let rows: Vec<Vec<u64>> = qp.iter().map(|m| vec![number % m; n]).collect();
    let x = Matrix::from_rows(&rows).unwrap();
    let out = Poly::approx_mod_down(&x, &qp_ctx, &p_ctx, &p_hat_inv_modp, &p_hat_modq, &p_inv_modq);
    assert_eq!(out.to_rows(), vec![vec![4; n], vec![4; n]]);
}

#[test]
fn matrix_rows_must_have_one_length() {
    assert!(Matrix::from_rows(&vec![vec![1, 2], vec![3]]).is_none());
    let m = Matrix::from_rows(&vec![vec![1, 2], vec![3, 4], vec![5, 6]]).unwrap();
    assert_eq!(m.to_rows(), vec![vec![1, 2], vec![3, 4], vec![5, 6]]);
    let copy = m.clone();
    assert_eq!(copy.to_rows(), m.to_rows());
    let empty = Matrix::from_rows(&Vec::new()).unwrap();
    assert_eq!(empty.to_rows().len(), 0);
}
