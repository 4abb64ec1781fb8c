use bfv::modulus::Modulus;
use bfv::ntt::{is_power_of_two, NttOperator};
use rand::Rng;
use rand::SeedableRng;
use rand_chacha::ChaCha8Rng;

fn operator(q: u64, n: usize) -> NttOperator {
    NttOperator::new(Modulus::new(q).unwrap(), n).unwrap()
}

#[test]
fn backward_undoes_forward_and_forward_undoes_backward() {
    let mut rng = ChaCha8Rng::seed_from_u64(0);
    for (q, n) in [
        (5u64, 2usize),
        (17, 8),
        (65537, 8),
        (65537, 256),
        (65537, 32768),
        (1152921504606844417, 256),
        (1152921504606830593, 256),
        (4611686018326724609, 64),
    ] {
        let op = operator(q, n);
        assert_eq!(op.degree(), n);
        assert_eq!(op.modulus().modulus(), q);
        let v: Vec<u64> = (0..n).map(|_| rng.gen_range(0..q)).collect();
        let mut a = v.clone();
        op.forward(&mut a);
        assert!(a.iter().all(|x| *x < q));
        op.backward(&mut a);
        assert_eq!(a, v);
        op.backward(&mut a);
        op.forward(&mut a);
        assert_eq!(a, v);
    }
}

#[test]
fn forward_gives_the_values_at_the_odd_powers_of_the_root() {
    // modulo 5 the root for length 2 is 2: the points are 2 and 2^3 = 3
    let op = operator(5, 2);
    let mut a: Vec<u64> = vec![1, 2];
    op.forward(&mut a);
    assert_eq!(a, vec![0, 2]);
    let mut b: Vec<u64> = vec![4, 0];
    op.forward(&mut b);
    assert_eq!(b, vec![4, 4]);
    let mut c: Vec<u64> = vec![0, 1];
    op.forward(&mut c);
    assert_eq!(c, vec![2, 3]);
    op.backward(&mut c);
    assert_eq!(c, vec![0, 1]);
}

#[test]
fn length_one_is_the_identity() {
    let op = operator(5, 1);
    let mut a: Vec<u64> = vec![3];
    op.forward(&mut a);
    assert_eq!(a, vec![3]);
    op.backward(&mut a);
    assert_eq!(a, vec![3]);
}

#[test]
fn products_of_values_are_negacyclic_products_of_coefficients() {
    let q: u64 = 17;
    let n: usize = 8;
    let op = operator(q, n);
    let m = Modulus::new(q).unwrap();
    let a: Vec<u64> = vec![1, 2, 3, 4, 5, 6, 7, 8];
    let b: Vec<u64> = vec![16, 0, 3, 9, 1, 1, 0, 2];
    let mut expected: Vec<u64> = vec![0; n];
    for i in 0..n {
        for j in 0..n {
            let p: u64 = m.mul(a[i], b[j]);
            if i + j < n {
                expected[i + j] = m.add(expected[i + j], p);
            } else {
                expected[i + j - n] = m.sub(expected[i + j - n], p);
            }
        }
    }
    let mut fa = a.clone();
    let mut fb = b.clone();
    op.forward(&mut fa);
    op.forward(&mut fb);
    m.mul_vec(&mut fa, &fb);
    op.backward(&mut fa);
    assert_eq!(fa, expected);
}

#[test]
fn operator_exists_only_for_friendly_moduli() {
    let seven = Modulus::new(7).unwrap();
    assert!(NttOperator::new(seven, 4).is_none());
    assert!(NttOperator::new(seven, 1).is_some());
    let seventeen = Modulus::new(17).unwrap();
    assert!(NttOperator::new(seventeen, 8).is_some());
    assert!(NttOperator::new(seventeen, 16).is_none());
    assert!(NttOperator::new(seventeen, 3).is_none());
    assert!(NttOperator::new(seventeen, 0).is_none());
    // 33 leaves one modulo 16 but has no root of unity of order 16
    let composite = Modulus::new(33).unwrap();
    assert!(NttOperator::new(composite, 8).is_none());
}

#[test]
fn powers_of_two_are_recognised() {
    assert!(!is_power_of_two(0));
    assert!(is_power_of_two(1));
    assert!(is_power_of_two(2));
    assert!(!is_power_of_two(3));
    assert!(is_power_of_two(1 << 20));
    assert!(!is_power_of_two((1 << 20) + 2));
}
