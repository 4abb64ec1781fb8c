use bfv::modulus::Modulus;

#[test]
fn modulus_rejects_values_out_of_range() {
    assert!(Modulus::new(0).is_none());
    assert!(Modulus::new(1).is_none());
    assert!(Modulus::new(1u64 << 62).is_none());
    assert!(Modulus::new(2).is_some());
    assert!(Modulus::new((1u64 << 62) - 1).is_some());
}

#[test]
fn modulus_arithmetic_matches_wide_arithmetic() {
    let q: u64 = 1152921504606846577;
    let m = Modulus::new(q).unwrap();
    let a: u64 = 1152921504606846000;
    let b: u64 = 987654321987654321;
    assert_eq!(m.add(a, b), ((a as u128 + b as u128) % q as u128) as u64);
    assert_eq!(m.sub(b, a), ((b as u128 + q as u128 - a as u128) % q as u128) as u64);
    assert_eq!(m.mul(a, b), ((a as u128 * b as u128) % q as u128) as u64);
    assert_eq!(m.neg(a), q - a);
    assert_eq!(m.neg(0), 0);
    assert_eq!(m.reduce(q + 5), 5);
    assert_eq!(m.reduce_u128((q as u128) * 7 + 3), 3);
}

#[test]
fn modulus_center_maps_to_the_symmetric_range() {
    let m = Modulus::new(65537).unwrap();
    assert_eq!(m.center(0), 0);
    assert_eq!(m.center(32768), 32768);
    assert_eq!(m.center(32769), -32768);
    assert_eq!(m.center(65536), -1);
    assert_eq!(m.reduce_i64(-1), 65536);
    assert_eq!(m.reduce_i64(-65537), 0);
    assert_eq!(m.reduce_i64(-65538), 65536);
    assert_eq!(m.reduce_i64(70000), 4463);
}

#[test]
fn modulus_inverse_exists_exactly_for_coprime_values() {
    let m = Modulus::new(65537).unwrap();
    for a in [1u64, 2, 3, 1000, 65536] {
        let x = m.inv(a).unwrap();
        assert_eq!(m.mul(a, x), 1);
    }
    assert!(m.inv(0).is_none());
    let c = Modulus::new(15).unwrap();
    assert!(c.inv(6).is_none());
    assert!(c.inv(10).is_none());
    assert_eq!(c.inv(7), Some(13));
}

#[test]
fn modulus_pow_is_repeated_multiplication() {
    let m = Modulus::new(65537).unwrap();
    assert_eq!(m.pow(3, 0), 1);
    assert_eq!(m.pow(3, 1), 3);
    assert_eq!(m.pow(3, 16), 43046721 % 65537);
    assert_eq!(m.pow(3, 65536), 1);
}

#[test]
fn vectors_are_handled_entry_by_entry() {
    let m = Modulus::new(17).unwrap();
    let mut a: Vec<u64> = vec![0, 1, 16, 8];
    let b: Vec<u64> = vec![16, 16, 16, 9];
    m.add_vec(&mut a, &b);
    assert_eq!(a, vec![16, 0, 15, 0]);
    m.sub_vec(&mut a, &b);
    assert_eq!(a, vec![0, 1, 16, 8]);
    m.mul_vec(&mut a, &b);
    assert_eq!(a, vec![0, 16, 1, 4]);
    m.neg_vec(&mut a);
    assert_eq!(a, vec![0, 1, 16, 13]);
    m.scalar_mul_vec(&mut a, 3);
    assert_eq!(a, vec![0, 3, 14, 5]);
    let mut c: Vec<u64> = vec![17, 18, u64::MAX, 5];
    m.reduce_vec(&mut c);
    assert_eq!(c, vec![0, 1, 0, 5]);
    assert_eq!(m.reduce_vec_i64(&vec![-1, 0, 1, -18, 35]), vec![16, 0, 1, 16, 1]);
    assert_eq!(m.modulus(), 17);
}
