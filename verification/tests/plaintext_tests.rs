use bfv::bigint::BigNat;
use bfv::parameters::{BfvParameters, PolyType};
use bfv::plaintext::{Encoding, EncodingType, Plaintext, PolyCache};
use bfv::poly::Representation;
use num_bigint::BigUint;

fn params() -> BfvParameters {
    BfvParameters::new(&[60, 60, 60, 60, 60, 60], 65537, 8).unwrap()
}

fn big(v: &BigNat) -> BigUint {
    BigUint::from_bytes_le(&v.to_bytes_le())
}

#[test]
fn simd_encoding_round_trips_at_level_zero() {
    let params = params();
    let m: Vec<u64> = vec![1, 2, 3, 4, 5, 6, 7, 8];
    let encoding = Encoding::simd(0, PolyCache::NoCache);
    let pt = Plaintext::encode(&m, &params, encoding);
    assert_eq!(pt.decode(encoding, &params), m);
}

#[test]
fn encodings_round_trip_at_every_level() {
    let params = params();
    for level in 0..6usize {
        for kind in [EncodingType::Simd, EncodingType::Poly] {
            let encoding = Encoding { encoding_type: kind, poly_cache: PolyCache::NoCache, level };
            let m: Vec<u64> = vec![65536, 0, 17, 40000, 3];
            let pt = Plaintext::encode(&m, &params, encoding);
            assert_eq!(pt.decode(encoding, &params), vec![65536, 0, 17, 40000, 3, 0, 0, 0]);
        }
    }
}

#[test]
fn encode_reduces_modulo_the_plaintext_modulus() {
    let params = params();
    let m: Vec<u64> = vec![65537, 65538, 131074 + 5];
    let encoding = Encoding::poly(0, PolyCache::NoCache);
    let pt = Plaintext::encode(&m, &params, encoding);
    assert_eq!(pt.value(), &[0, 1, 5, 0, 0, 0, 0, 0]);
    let simd = Encoding::simd(0, PolyCache::NoCache);
    let pt = Plaintext::encode(&m, &params, simd);
    assert_eq!(pt.decode(simd, &params), vec![0, 1, 5, 0, 0, 0, 0, 0]);
}

#[test]
fn scaled_one_is_the_rounded_quotient() {
    let params = params();
    let mut m: Vec<u64> = vec![0; 8];
    m[0] = 1;
    let encoding = Encoding::poly(0, PolyCache::NoCache);
    let p = Plaintext::scale_m(&m, &params, &encoding, Representation::Coefficient);
    let q = big(&params.poly_ctx(&PolyType::Q, 0).modulus());
    let t = BigUint::from(65537u64);
    let expected = (&q + (&t >> 1)) / &t;
    let lifted = p.to_biguint().unwrap();
    assert_eq!(big(&lifted[0]), expected);
    for j in 1..8 {
        assert_eq!(big(&lifted[j]), BigUint::from(0u64));
    }
}

#[test]
fn scaled_plaintext_decrypts_to_the_message() {
    let params = params();
    let m: Vec<u64> = vec![0, 1, 2, 32768, 32769, 65535, 65536, 12345];
    for level in [0usize, 3, 5] {
        let encoding = Encoding::poly(level, PolyCache::NoCache);
        let p = Plaintext::scale_m(&m, &params, &encoding, Representation::Coefficient);
        let q = big(&params.poly_ctx(&PolyType::Q, level).modulus());
        let t = BigUint::from(65537u64);
        let lifted = p.to_biguint().unwrap();
        for j in 0..8 {
            // round(t * c / Q) mod t
            let c = big(&lifted[j]);
            let rounded = ((&c * &t) * 2u64 + &q) / (&q * 2u64);
            assert_eq!(rounded % &t, BigUint::from(m[j]));
        }
    }
}

#[test]
fn caches_follow_the_encoding() {
    let params = params();
    let m: Vec<u64> = vec![1, 2, 3];
    let none = Plaintext::encode(&m, &params, Encoding::default());
    assert!(!none.supports_mul_poly());
    assert_eq!(none.level(), 0);

    let mul = Plaintext::encode(&m, &params, Encoding::simd(1, PolyCache::Mul(PolyType::PQ)));
    assert!(mul.supports_mul_poly());
    assert_eq!(mul.level(), 1);
    assert_eq!(mul.mul_poly_type(), PolyType::PQ);
    assert_eq!(mul.mul_poly_ref().representation(), Representation::Evaluation);
    assert_eq!(mul.mul_poly_ref().to_rows().len(), 10);
    let moved = mul.move_mul_poly();
    assert_eq!(moved.to_rows().len(), 10);

    let add = Plaintext::encode(
        &m,
        &params,
        Encoding::simd(2, PolyCache::AddSub(Representation::Coefficient)),
    );
    assert!(!add.supports_mul_poly());
    assert_eq!(add.add_sub_poly_ref().representation(), Representation::Coefficient);
    assert_eq!(add.add_sub_poly_ref().to_rows().len(), 4);
    let expected = Plaintext::scale_m(
        add.value(),
        &params,
        &Encoding::simd(2, PolyCache::NoCache),
        Representation::Coefficient,
    );
    assert_eq!(add.add_sub_poly_ref().to_rows(), expected.to_rows());
    assert_eq!(add.move_add_sub_poly().to_rows(), expected.to_rows());

    let both = Plaintext::encode(
        &m,
        &params,
        Encoding::simd(0, PolyCache::All(PolyType::Q, Representation::Evaluation)),
    );
    assert!(both.supports_mul_poly());
    assert_eq!(both.mul_poly_ref().to_rows().len(), 6);
    assert_eq!(both.add_sub_poly_ref().representation(), Representation::Evaluation);
}

#[test]
fn default_encoding_is_simd_without_cache() {
    let e = Encoding::default();
    assert_eq!(e.encoding_type, EncodingType::Simd);
    assert_eq!(e.poly_cache, PolyCache::NoCache);
    assert_eq!(e.level, 0);
    let s = Encoding::simd(4, PolyCache::Mul(PolyType::Q));
    assert_eq!(s.encoding_type, EncodingType::Simd);
    assert_eq!(s.poly_cache, PolyCache::Mul(PolyType::Q));
    assert_eq!(s.level, 4);
}
